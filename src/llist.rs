use vstd::prelude::*;

verus! {

/// Slot of the sentinel that closes the ring of stored items.
pub const NIL: usize = 0;

/// Slot of the sentinel that closes the ring of free slots.
pub const FREE_NIL: usize = 1;

/// A doubly linked list whose nodes live in fixed vectors of slots.
///
/// Slot `NIL` and the stored nodes form one ring, slot `FREE_NIL` and the
/// unused nodes another. `ptr` is a cursor `(prev, current, next)` on the
/// first ring; the cursor stands on `NIL` at the end of the list.
pub struct LList<T> {
    items: Vec<Option<T>>,
    links: Vec<usize>,
    blinks: Vec<usize>,
    ptr: (usize, usize, usize),
    /// `NIL`, then the nodes of the list in order.
    ring: Ghost<Seq<usize>>,
    /// `FREE_NIL`, then the free nodes.
    spare: Ghost<Seq<usize>>,
    /// Position of the cursor in `ring`.
    cur: Ghost<int>,
}

/// `r` is closed into a ring by the forward links `l` and the backward links `b`.
pub open spec fn linked(l: Seq<usize>, b: Seq<usize>, r: Seq<usize>) -> bool {
    &&& r.len() >= 1
    &&& forall|k: int| 0 <= k < r.len() ==> (#[trigger] r[k] as int) < l.len() && (r[k] as int) < b.len()
    &&& forall|k: int| 0 <= k < r.len() - 1 ==> l[#[trigger] r[k] as int] == r[k + 1]
    &&& forall|k: int| 1 <= k < r.len() ==> b[#[trigger] r[k] as int] == r[k - 1]
    &&& l[r.last() as int] == r[0]
    &&& b[r[0] as int] == r.last()
}

/// The position after `k` in a ring of length `n`.
pub open spec fn succ(k: int, n: int) -> int {
    if k + 1 < n { k + 1 } else { 0 }
}

proof fn lemma_linked_frame(l: Seq<usize>, b: Seq<usize>, l2: Seq<usize>, b2: Seq<usize>, r: Seq<usize>)
    requires
        linked(l, b, r),
        l2.len() == l.len(),
        b2.len() == b.len(),
        forall|k: int| 0 <= k < r.len() ==> l2[#[trigger] r[k] as int] == l[r[k] as int] && b2[r[k] as int] == b[r[k] as int],
    ensures
        linked(l2, b2, r),
{
    assert forall|k: int| 0 <= k < r.len() - 1 implies l2[#[trigger] r[k] as int] == r[k + 1] by {
        assert(l2[r[k] as int] == l[r[k] as int]);
    }
    assert forall|k: int| 1 <= k < r.len() implies b2[#[trigger] r[k] as int] == r[k - 1] by {
        assert(b2[r[k] as int] == b[r[k] as int]);
    }
    assert(l2[r[r.len() - 1] as int] == l[r[r.len() - 1] as int]);
    assert(b2[r[0] as int] == b[r[0] as int]);
}

/// Linking `x` in after position `c` of the ring `r`.
proof fn lemma_linked_insert(l: Seq<usize>, b: Seq<usize>, r: Seq<usize>, c: int, x: usize)
    requires
        linked(l, b, r),
        r.no_duplicates(),
        0 <= c < r.len(),
        (x as int) < l.len(),
        (x as int) < b.len(),
        !r.contains(x),
    ensures
        linked(
            l.update(r[c] as int, x).update(x as int, r[succ(c, r.len() as int)]),
            b.update(x as int, r[c]).update(r[succ(c, r.len() as int)] as int, x),
            r.insert(c + 1, x),
        ),
        r.insert(c + 1, x).no_duplicates(),
{
    let n = succ(c, r.len() as int);
    let l2 = l.update(r[c] as int, x).update(x as int, r[n]);
    let b2 = b.update(x as int, r[c]).update(r[n] as int, x);
    let r2 = r.insert(c + 1, x);
    assert(r2.len() == r.len() + 1);
    assert forall|k: int| 0 <= k < r2.len() implies (#[trigger] r2[k] as int) < l2.len() && (r2[k] as int) < b2.len() by {
        if k <= c {
            assert(r2[k] == r[k]);
        } else if k > c + 1 {
            assert(r2[k] == r[k - 1]);
        }
    }
    lemma_insert_forward(l, r, c, x);
    lemma_insert_backward(b, r, c, x);
    if c == r.len() - 1 {
        assert(r2.last() == x);
        assert(r2[0] == r[0]);
    } else {
        assert(r2.last() == r.last());
        assert(r.last() != x) by {
            assert(r.contains(r.last()));
        }
        assert(r.last() != r[c]);
        assert(r2[0] == r[0]);
        assert(r[0] != x) by {
            assert(r.contains(r[0]));
        }
        assert(r2[0] != r[n]) by {
            assert(r[n] == r[c + 1]);
        }
    }
    lemma_insert_distinct(r, c, x);
}

proof fn lemma_insert_distinct(r: Seq<usize>, c: int, x: usize)
    requires
        r.no_duplicates(),
        0 <= c < r.len(),
        !r.contains(x),
    ensures
        r.insert(c + 1, x).no_duplicates(),
{
    let r2 = r.insert(c + 1, x);
    assert forall|i: int, j: int| 0 <= i < r2.len() && 0 <= j < r2.len() && i != j implies r2[i] != r2[j] by {
        if i != c + 1 && j != c + 1 {
            let ii = if i <= c { i } else { i - 1 };
            let jj = if j <= c { j } else { j - 1 };
            assert(r2[i] == r[ii]);
            assert(r2[j] == r[jj]);
        } else if i == c + 1 {
            let jj = if j <= c { j } else { j - 1 };
            assert(r2[j] == r[jj]);
            assert(r.contains(r[jj]));
        } else {
            let ii = if i <= c { i } else { i - 1 };
            assert(r2[i] == r[ii]);
            assert(r.contains(r[ii]));
        }
    }
}

proof fn lemma_insert_forward(l: Seq<usize>, r: Seq<usize>, c: int, x: usize)
    requires
        forall|k: int| 0 <= k < r.len() - 1 ==> l[#[trigger] r[k] as int] == r[k + 1],
        l[r.last() as int] == r[0],
        forall|k: int| 0 <= k < r.len() ==> (#[trigger] r[k] as int) < l.len(),
        (x as int) < l.len(),
        r.no_duplicates(),
        r.len() >= 1,
        0 <= c < r.len(),
        !r.contains(x),
    ensures
        ({
            let l2 = l.update(r[c] as int, x).update(x as int, r[succ(c, r.len() as int)]);
            let r2 = r.insert(c + 1, x);
            forall|k: int| 0 <= k < r2.len() - 1 ==> l2[#[trigger] r2[k] as int] == r2[k + 1]
        }),
{
    let n = succ(c, r.len() as int);
    let l2 = l.update(r[c] as int, x).update(x as int, r[n]);
    let r2 = r.insert(c + 1, x);
    assert forall|k: int| 0 <= k < r2.len() - 1 implies l2[#[trigger] r2[k] as int] == r2[k + 1] by {
        if k < c {
            assert(r2[k] == r[k]);
            assert(r2[k + 1] == r[k + 1]);
            assert(r.contains(r[k]));
            assert(r[k] != r[c]);
        } else if k == c {
            assert(r2[k] == r[c]);
            assert(r.contains(r[c]));
        } else if k == c + 1 {
            assert(r2[k + 1] == r[c + 1]);
        } else {
            assert(r2[k] == r[k - 1]);
            assert(r2[k + 1] == r[k]);
            assert(r.contains(r[k - 1]));
            assert(r[k - 1] != r[c]);
        }
    }
}

proof fn lemma_insert_backward(b: Seq<usize>, r: Seq<usize>, c: int, x: usize)
    requires
        forall|k: int| 1 <= k < r.len() ==> b[#[trigger] r[k] as int] == r[k - 1],
        forall|k: int| 0 <= k < r.len() ==> (#[trigger] r[k] as int) < b.len(),
        (x as int) < b.len(),
        r.no_duplicates(),
        r.len() >= 1,
        0 <= c < r.len(),
        !r.contains(x),
    ensures
        ({
            let b2 = b.update(x as int, r[c]).update(r[succ(c, r.len() as int)] as int, x);
            let r2 = r.insert(c + 1, x);
            forall|k: int| 1 <= k < r2.len() ==> b2[#[trigger] r2[k] as int] == r2[k - 1]
        }),
{
    let n = succ(c, r.len() as int);
    let b2 = b.update(x as int, r[c]).update(r[n] as int, x);
    let r2 = r.insert(c + 1, x);
    assert forall|k: int| 1 <= k < r2.len() implies b2[#[trigger] r2[k] as int] == r2[k - 1] by {
        if k <= c {
            assert(r2[k] == r[k]);
            assert(r2[k - 1] == r[k - 1]);
            assert(r.contains(r[k]));
            assert(r[k] != r[n]);
        } else if k == c + 1 {
            assert(r2[k - 1] == r[c]);
            assert(r.contains(r[n]));
        } else if k == c + 2 {
            assert(r2[k] == r[c + 1]);
            assert(n == c + 1);
        } else {
            assert(r2[k] == r[k - 1]);
            assert(r2[k - 1] == r[k - 2]);
            assert(r.contains(r[k - 1]));
            assert(r[k - 1] != r[n]);
        }
    }
}

/// Unlinking the node after position `c` of the ring `r`.
proof fn lemma_linked_remove(l: Seq<usize>, b: Seq<usize>, r: Seq<usize>, c: int)
    requires
        linked(l, b, r),
        r.no_duplicates(),
        0 <= c < r.len() - 1,
    ensures
        linked(
            l.update(r[c] as int, r[succ(c + 1, r.len() as int)]),
            b.update(r[succ(c + 1, r.len() as int)] as int, r[c]),
            r.remove(c + 1),
        ),
        r.remove(c + 1).no_duplicates(),
{
    let n = succ(c + 1, r.len() as int);
    let l2 = l.update(r[c] as int, r[n]);
    let b2 = b.update(r[n] as int, r[c]);
    let r2 = r.remove(c + 1);
    assert forall|k: int| 0 <= k < r2.len() implies (#[trigger] r2[k] as int) < l2.len() && (r2[k] as int) < b2.len() by {
        if k <= c {
            assert(r2[k] == r[k]);
        } else {
            assert(r2[k] == r[k + 1]);
        }
    }
    lemma_remove_forward(l, r, c);
    lemma_remove_backward(b, r, c);
    assert(r2.len() == r.len() - 1);
    if c + 2 == r.len() {
        assert(r2.last() == r[c]);
        assert(r2[0] == r[0]);
    } else {
        assert(r2.last() == r.last());
        assert(r.last() != r[c]);
        assert(r2[0] == r[0]);
        assert(r[0] != r[n]);
    }
    lemma_remove_distinct(r, c);
}

proof fn lemma_remove_distinct(r: Seq<usize>, c: int)
    requires
        r.no_duplicates(),
        0 <= c < r.len() - 1,
    ensures
        r.remove(c + 1).no_duplicates(),
{
    let r2 = r.remove(c + 1);
    assert forall|i: int, j: int| 0 <= i < r2.len() && 0 <= j < r2.len() && i != j implies r2[i] != r2[j] by {
        let ii = if i <= c { i } else { i + 1 };
        let jj = if j <= c { j } else { j + 1 };
        assert(r2[i] == r[ii]);
        assert(r2[j] == r[jj]);
    }
}

proof fn lemma_remove_forward(l: Seq<usize>, r: Seq<usize>, c: int)
    requires
        forall|k: int| 0 <= k < r.len() - 1 ==> l[#[trigger] r[k] as int] == r[k + 1],
        forall|k: int| 0 <= k < r.len() ==> (#[trigger] r[k] as int) < l.len(),
        r.no_duplicates(),
        0 <= c < r.len() - 1,
    ensures
        ({
            let l2 = l.update(r[c] as int, r[succ(c + 1, r.len() as int)]);
            let r2 = r.remove(c + 1);
            forall|k: int| 0 <= k < r2.len() - 1 ==> l2[#[trigger] r2[k] as int] == r2[k + 1]
        }),
{
    let n = succ(c + 1, r.len() as int);
    let l2 = l.update(r[c] as int, r[n]);
    let r2 = r.remove(c + 1);
    assert forall|k: int| 0 <= k < r2.len() - 1 implies l2[#[trigger] r2[k] as int] == r2[k + 1] by {
        if k < c {
            assert(r2[k] == r[k]);
            assert(r2[k + 1] == r[k + 1]);
            assert(r[k] != r[c]);
        } else if k == c {
            assert(r2[k] == r[c]);
            assert(r2[k + 1] == r[c + 2]);
        } else {
            assert(r2[k] == r[k + 1]);
            assert(r2[k + 1] == r[k + 2]);
            assert(r[k + 1] != r[c]);
        }
    }
}

proof fn lemma_remove_backward(b: Seq<usize>, r: Seq<usize>, c: int)
    requires
        forall|k: int| 1 <= k < r.len() ==> b[#[trigger] r[k] as int] == r[k - 1],
        forall|k: int| 0 <= k < r.len() ==> (#[trigger] r[k] as int) < b.len(),
        r.no_duplicates(),
        0 <= c < r.len() - 1,
    ensures
        ({
            let b2 = b.update(r[succ(c + 1, r.len() as int)] as int, r[c]);
            let r2 = r.remove(c + 1);
            forall|k: int| 1 <= k < r2.len() ==> b2[#[trigger] r2[k] as int] == r2[k - 1]
        }),
{
    let n = succ(c + 1, r.len() as int);
    let b2 = b.update(r[n] as int, r[c]);
    let r2 = r.remove(c + 1);
    assert forall|k: int| 1 <= k < r2.len() implies b2[#[trigger] r2[k] as int] == r2[k - 1] by {
        if k <= c {
            assert(r2[k] == r[k]);
            assert(r2[k - 1] == r[k - 1]);
            assert(r[k] != r[n]) by {
                if n != 0 {
                    assert(n == c + 2);
                }
            }
        } else if k == c + 1 {
            assert(r2[k] == r[c + 2]);
            assert(r2[k - 1] == r[c]);
            assert(n == c + 2);
        } else {
            assert(r2[k] == r[k + 1]);
            assert(r2[k - 1] == r[k]);
            assert(n == c + 2);
            assert(r[k + 1] != r[n]);
        }
    }
}

/// The free ring that a new list starts with: every slot from `FREE_NIL` on, in order.
proof fn lemma_initial_spare(l: Seq<usize>, b: Seq<usize>, f: Seq<usize>)
    requires
        f.len() >= 1,
        l.len() == f.len() + 1,
        b.len() == f.len() + 1,
        forall|k: int| 0 <= k < f.len() ==> #[trigger] f[k] == k + 1,
        forall|k: int| 1 <= k < f.len() ==> l[k] == k + 1,
        forall|k: int| 2 <= k < f.len() + 1 ==> b[k] == k - 1,
        l[f.len() as int] == FREE_NIL,
        b[1] == f.len(),
    ensures
        linked(l, b, f),
        f.no_duplicates(),
{
    assert forall|k: int| 0 <= k < f.len() - 1 implies l[#[trigger] f[k] as int] == f[k + 1] by {
        assert(f[k] == k + 1);
        assert(f[k + 1] == k + 2);
    }
    assert forall|k: int| 1 <= k < f.len() implies b[#[trigger] f[k] as int] == f[k - 1] by {
        assert(f[k] == k + 1);
        assert(f[k - 1] == k);
    }
    assert(f.last() == f.len());
}

/// The items that the nodes of the ring `r` after its first hold, in order.
pub open spec fn elems<T>(items: Seq<Option<T>>, r: Seq<usize>) -> Seq<T> {
    Seq::new((r.len() - 1) as nat, |k: int| items[r[k + 1] as int]->Some_0)
}

proof fn lemma_elems_insert<T>(items: Seq<Option<T>>, r: Seq<usize>, c: int, x: usize, e: T)
    requires
        0 <= c < r.len(),
        !r.contains(x),
        (x as int) < items.len(),
        forall|k: int| 0 <= k < r.len() ==> (#[trigger] r[k] as int) < items.len(),
    ensures
        elems(items.update(x as int, Some(e)), r.insert(c + 1, x)) == elems(items, r).insert(c, e),
{
    let a = elems(items.update(x as int, Some(e)), r.insert(c + 1, x));
    let b = elems(items, r).insert(c, e);
    let r2 = r.insert(c + 1, x);
    assert(a.len() == r.len());
    assert(b.len() == r.len());
    assert forall|k: int| 0 <= k < a.len() implies a[k] == b[k] by {
        if k < c {
            assert(r2[k + 1] == r[k + 1]);
            assert(r.contains(r[k + 1]));
        } else if k > c {
            assert(r2[k + 1] == r[k]);
            assert(r.contains(r[k]));
        }
    }
    assert(a =~= b);
}

proof fn lemma_elems_remove<T>(items: Seq<Option<T>>, r: Seq<usize>, c: int)
    requires
        0 <= c < r.len() - 1,
    ensures
        elems(items, r.remove(c + 1)) == elems(items, r).remove(c),
{
    let a = elems(items, r.remove(c + 1));
    let b = elems(items, r).remove(c);
    let r2 = r.remove(c + 1);
    assert forall|k: int| 0 <= k < a.len() implies a[k] == b[k] by {
        if k < c {
            assert(r2[k + 1] == r[k + 1]);
        } else {
            assert(r2[k + 1] == r[k + 2]);
        }
    }
    assert(a =~= b);
}

/// Linking the detached slot `x` into the ring `r` after position `c` keeps
/// the ring `f` of free slots linked and apart from it.
proof fn lemma_link_after(l: Seq<usize>, b: Seq<usize>, r: Seq<usize>, f: Seq<usize>, c: int, x: usize)
    requires
        linked(l, b, r),
        linked(l, b, f),
        r.no_duplicates(),
        0 <= c < r.len(),
        (x as int) < l.len(),
        (x as int) < b.len(),
        !r.contains(x),
        !f.contains(x),
        forall|i: int, j: int| 0 <= i < r.len() && 0 <= j < f.len() ==> r[i] != f[j],
    ensures
        ({
            let n = succ(c, r.len() as int);
            let l2 = l.update(r[c] as int, x).update(x as int, r[n]);
            let b2 = b.update(x as int, r[c]).update(r[n] as int, x);
            let r2 = r.insert(c + 1, x);
            &&& linked(l2, b2, r2)
            &&& r2.no_duplicates()
            &&& linked(l2, b2, f)
            &&& forall|i: int, j: int| 0 <= i < r2.len() && 0 <= j < f.len() ==> r2[i] != f[j]
            &&& forall|k: int| 0 <= k <= c ==> #[trigger] r2[k] == r[k]
            &&& r2[c + 1] == x
            &&& forall|k: int| c + 1 < k < r2.len() ==> #[trigger] r2[k] == r[k - 1]
        }),
{
    let n = succ(c, r.len() as int);
    let l2 = l.update(r[c] as int, x).update(x as int, r[n]);
    let b2 = b.update(x as int, r[c]).update(r[n] as int, x);
    let r2 = r.insert(c + 1, x);
    lemma_linked_insert(l, b, r, c, x);
    assert forall|k: int| 0 <= k < f.len() implies l2[#[trigger] f[k] as int] == l[f[k] as int]
        && b2[f[k] as int] == b[f[k] as int] by {
        assert(f[k] != r[c]);
        assert(f[k] != r[n]);
        assert(f.contains(f[k]));
    }
    lemma_linked_frame(l, b, l2, b2, f);
    assert forall|i: int, j: int| 0 <= i < r2.len() && 0 <= j < f.len() implies r2[i] != f[j] by {
        if i <= c {
            assert(r2[i] == r[i]);
        } else if i == c + 1 {
            assert(f.contains(f[j]));
        } else {
            assert(r2[i] == r[i - 1]);
        }
    }
}

/// Unlinking the node after position `c` of the ring `r` keeps the ring `f`
/// of free slots linked and apart from it, and leaves the node in neither.
proof fn lemma_unlink_after(l: Seq<usize>, b: Seq<usize>, r: Seq<usize>, f: Seq<usize>, c: int)
    requires
        linked(l, b, r),
        linked(l, b, f),
        r.no_duplicates(),
        0 <= c < r.len() - 1,
        forall|i: int, j: int| 0 <= i < r.len() && 0 <= j < f.len() ==> r[i] != f[j],
    ensures
        ({
            let n = succ(c + 1, r.len() as int);
            let l2 = l.update(r[c] as int, r[n]);
            let b2 = b.update(r[n] as int, r[c]);
            let r2 = r.remove(c + 1);
            &&& linked(l2, b2, r2)
            &&& r2.no_duplicates()
            &&& linked(l2, b2, f)
            &&& forall|i: int, j: int| 0 <= i < r2.len() && 0 <= j < f.len() ==> r2[i] != f[j]
            &&& forall|k: int| 0 <= k <= c ==> #[trigger] r2[k] == r[k]
            &&& forall|k: int| c < k < r2.len() ==> #[trigger] r2[k] == r[k + 1]
            &&& !r2.contains(r[c + 1])
            &&& !f.contains(r[c + 1])
        }),
{
    let n = succ(c + 1, r.len() as int);
    let l2 = l.update(r[c] as int, r[n]);
    let b2 = b.update(r[n] as int, r[c]);
    let r2 = r.remove(c + 1);
    lemma_linked_remove(l, b, r, c);
    assert forall|k: int| 0 <= k < f.len() implies l2[#[trigger] f[k] as int] == l[f[k] as int]
        && b2[f[k] as int] == b[f[k] as int] by {
        assert(f[k] != r[c]);
        assert(f[k] != r[n]);
    }
    lemma_linked_frame(l, b, l2, b2, f);
    assert forall|i: int, j: int| 0 <= i < r2.len() && 0 <= j < f.len() implies r2[i] != f[j] by {
        if i > c {
            assert(r2[i] == r[i + 1]);
        }
    }
    if r2.contains(r[c + 1]) {
        let i = choose|i: int| 0 <= i < r2.len() && r2[i] == r[c + 1];
        if i <= c {
            assert(r2[i] == r[i]);
        } else {
            assert(r2[i] == r[i + 1]);
        }
    }
    if f.contains(r[c + 1]) {
        let j = choose|j: int| 0 <= j < f.len() && f[j] == r[c + 1];
        assert(r[c + 1] != f[j]);
    }
}

impl<T> View for LList<T> {
    type V = Seq<T>;

    /// The stored items, from the first to the last.
    closed spec fn view(&self) -> Seq<T> {
        elems(self.items@, self.ring@)
    }
}

impl<T> LList<T> {
    /// Where the cursor stands: 0 at the end of the list, `k` on the `k`-th item (from 1).
    pub closed spec fn pos(&self) -> int {
        self.cur@
    }

    /// How many items the list can hold.
    pub closed spec fn capacity(&self) -> nat {
        (self.links@.len() - 2) as nat
    }

    spec fn slots(&self) -> int {
        self.links@.len() as int
    }

    /// Everything but the count of nodes: both rings are linked, hold distinct
    /// slots, share none, and every node of the list holds an item.
    spec fn shape(&self) -> bool {
        let r = self.ring@;
        let f = self.spare@;
        &&& self.slots() >= 2
        &&& self.items@.len() == self.slots()
        &&& self.blinks@.len() == self.slots()
        &&& r[0] == NIL
        &&& f[0] == FREE_NIL
        &&& forall|k: int| 1 <= k < r.len() ==> 2 <= #[trigger] r[k] < self.slots()
        &&& forall|k: int| 1 <= k < f.len() ==> 2 <= #[trigger] f[k] < self.slots()
        &&& r.no_duplicates()
        &&& f.no_duplicates()
        &&& forall|i: int, j: int| 0 <= i < r.len() && 0 <= j < f.len() ==> r[i] != f[j]
        &&& linked(self.links@, self.blinks@, r)
        &&& linked(self.links@, self.blinks@, f)
        &&& forall|k: int| 1 <= k < r.len() ==> (#[trigger] self.items@[r[k] as int]).is_some()
        &&& 0 <= self.cur@ < r.len()
        &&& self.ptr.1 == r[self.cur@]
        &&& self.ptr.2 == r[succ(self.cur@, r.len() as int)]
        &&& self.ptr.0 == self.blinks@[self.ptr.1 as int]
    }

    /// The list is well formed: its shape holds and every slot is in one ring.
    pub closed spec fn wf(&self) -> bool {
        &&& self.shape()
        &&& self.ring@.len() + self.spare@.len() == self.slots()
    }

    /// An empty list with room for `max_elems` items; the cursor is at the end.
    pub fn new(max_elems: usize) -> (r: Self)
        requires
            max_elems <= usize::MAX - 2,
        ensures
            r.wf(),
            r@.len() == 0,
            r.capacity() == max_elems,
            r.pos() == 0,
    {
        let max_size = max_elems + 2;
        let mut items: Vec<Option<T>> = Vec::new();
        let mut links: Vec<usize> = Vec::new();
        let mut blinks: Vec<usize> = Vec::new();
        let mut i: usize = 0;
        while i < max_size
            invariant
                i <= max_size,
                items@.len() == i,
                links@.len() == i,
                blinks@.len() == i,
            decreases max_size - i,
        {
            items.push(None);
            links.push(NIL);
            blinks.push(NIL);
            i = i + 1;
        }
        links.set(NIL, NIL);
        blinks.set(NIL, NIL);
        let mut i: usize = FREE_NIL;
        while i < max_size - 1
            invariant
                FREE_NIL <= i <= max_size - 1,
                links@.len() == max_size,
                blinks@.len() == max_size,
                links@[0] == NIL,
                blinks@[0] == NIL,
                forall|k: int| 1 <= k < i ==> links@[k] == k + 1,
                forall|k: int| 2 <= k <= i ==> blinks@[k] == k - 1,
            decreases max_size - i,
        {
            links.set(i, i + 1);
            blinks.set(i + 1, i);
            i = i + 1;
        }
        links.set(max_size - 1, FREE_NIL);
        blinks.set(FREE_NIL, max_size - 1);
        let ghost f = Seq::new((max_size - 1) as nat, |k: int| (k + 1) as usize);
        let ghost r = seq![NIL];
        proof {
            lemma_initial_spare(links@, blinks@, f);
        }
        let l = LList {
            items,
            links,
            blinks,
            ptr: (NIL, NIL, NIL),
            ring: Ghost(r),
            spare: Ghost(f),
            cur: Ghost(0),
        };
        proof {
            assert(linked(l.links@, l.blinks@, r));
            assert(l@ =~= Seq::<T>::empty());
        }
        l
    }

    /// Whether the list holds no item.
    pub fn empty(&self) -> (r: bool)
        requires
            self.wf(),
        ensures
            r == (self@.len() == 0),
    {
        self.links[NIL] == NIL
    }

    /// Whether the list holds as many items as it has room for.
    pub fn full(&self) -> (r: bool)
        requires
            self.wf(),
        ensures
            r == (self@.len() == self.capacity()),
    {
        proof {
            let f = self.spare@;
            if f.len() > 1 {
                assert(f[1] != FREE_NIL);
            }
        }
        self.links[FREE_NIL] == FREE_NIL
    }

    /// Whether the cursor stands at the end of the list.
    pub fn end(&self) -> (r: bool)
        requires
            self.wf(),
        ensures
            r == (self.pos() == 0),
    {
        proof {
            if self.cur@ != 0 {
                assert(self.ring@[self.cur@] != self.ring@[0]);
            }
        }
        self.ptr.1 == NIL
    }

    /// Moves the cursor to the first item (to the end where there is none).
    pub fn start_ptr(&mut self)
        requires
            old(self).wf(),
        ensures
            final(self).wf(),
            final(self)@ == old(self)@,
            final(self).capacity() == old(self).capacity(),
            final(self).pos() == if old(self)@.len() == 0 { 0int } else { 1int },
    {
        let xs = self.links[NIL];
        proof {
            let r = self.ring@;
            if r.len() > 1 {
                assert(self.links@[r[0] as int] == r[1]);
            }
            self.cur@ = succ(0, r.len() as int);
        }
        self.ptr = (NIL, xs, self.links[xs]);
        proof {
            let r = self.ring@;
            if r.len() > 1 {
                assert(self.blinks@[r[1] as int] == r[0]);
                if r.len() > 2 {
                    assert(self.links@[r[1] as int] == r[2]);
                }
            }
        }
    }

    /// Moves the cursor to the last item (to the end where there is none).
    pub fn end_ptr(&mut self)
        requires
            old(self).wf(),
        ensures
            final(self).wf(),
            final(self)@ == old(self)@,
            final(self).capacity() == old(self).capacity(),
            final(self).pos() == old(self)@.len(),
    {
        let xs = self.blinks[NIL];
        proof {
            let r = self.ring@;
            self.cur@ = r.len() - 1;
            if r.len() > 1 {
                assert(self.blinks@[r[r.len() - 1] as int] == r[r.len() - 2]);
            }
        }
        self.ptr = (self.blinks[xs], xs, NIL);
    }

    /// Moves the cursor one step forward; from the end it goes to the first item.
    pub fn next(&mut self)
        requires
            old(self).wf(),
        ensures
            final(self).wf(),
            final(self)@ == old(self)@,
            final(self).capacity() == old(self).capacity(),
            final(self).pos() == if old(self).pos() == old(self)@.len() { 0int } else { old(self).pos() + 1 },
    {
        proof {
            let r = self.ring@;
            let c = self.cur@;
            let n = succ(c, r.len() as int);
            if n == 0 {
                assert(self.blinks@[r[0] as int] == r.last());
            } else {
                assert(self.blinks@[r[n] as int] == r[n - 1]);
            }
            if succ(n, r.len() as int) == 0 {
                assert(self.links@[r[n] as int] == r[0]);
            } else {
                assert(self.links@[r[n] as int] == r[n + 1]);
            }
            self.cur@ = n;
        }
        self.ptr.0 = self.ptr.1;
        self.ptr.1 = self.ptr.2;
        self.ptr.2 = self.links[self.ptr.1];
    }

    /// Moves the cursor one step back; from the end it goes to the last item.
    pub fn prev(&mut self)
        requires
            old(self).wf(),
        ensures
            final(self).wf(),
            final(self)@ == old(self)@,
            final(self).capacity() == old(self).capacity(),
            final(self).pos() == if old(self).pos() == 0 { old(self)@.len() as int } else { old(self).pos() - 1 },
    {
        proof {
            let r = self.ring@;
            let c = self.cur@;
            let p = if c == 0 { r.len() - 1 } else { c - 1 };
            if c == 0 {
                assert(self.blinks@[r[0] as int] == r[p]);
            } else {
                assert(self.blinks@[r[c] as int] == r[p]);
            }
            if p == 0 {
                assert(self.blinks@[r[0] as int] == r.last());
            } else {
                assert(self.blinks@[r[p] as int] == r[p - 1]);
            }
            self.cur@ = p;
        }
        self.ptr.2 = self.ptr.1;
        self.ptr.1 = self.ptr.0;
        self.ptr.0 = self.blinks[self.ptr.1];
    }

    /// The item under the cursor.
    pub fn elem(&self) -> (r: &T)
        requires
            self.wf(),
            self.pos() != 0,
        ensures
            *r == self@[self.pos() - 1],
    {
        self.items[self.ptr.1].as_ref().unwrap()
    }

    /// Takes the first free slot out of the free ring.
    fn allocate(&mut self) -> (r: Result<usize, String>)
        requires
            old(self).wf(),
        ensures
            old(self).spare@.len() == 1 ==> r is Err && *final(self) == *old(self),
            old(self).spare@.len() > 1 ==> {
                &&& r == Ok::<usize, String>(old(self).spare@[1])
                &&& final(self).shape()
                &&& final(self).spare@ == old(self).spare@.remove(1)
                &&& final(self).ring@ == old(self).ring@
                &&& final(self).cur@ == old(self).cur@
                &&& final(self).ptr == old(self).ptr
                &&& final(self).items@ == old(self).items@
                &&& final(self).links@.len() == old(self).links@.len()
            },
    {
        if self.full() {
            return Err("not enough memory".to_string());
        }
        let ghost f = self.spare@;
        let ghost r = self.ring@;
        let closest_free = self.links[FREE_NIL];
        proof {
            assert(self.links@[f[0] as int] == f[1]);
            if f.len() > 2 {
                assert(self.links@[f[1] as int] == f[2]);
            }
        }
        let xs = self.links[closest_free];
        let ghost l0 = self.links@;
        let ghost b0 = self.blinks@;
        self.links.set(FREE_NIL, xs);
        self.blinks.set(xs, FREE_NIL);
        proof {
            lemma_linked_remove(l0, b0, f, 0);
            self.spare@ = f.remove(1);
            assert forall|k: int| 0 <= k < r.len() implies self.links@[#[trigger] r[k] as int] == l0[r[k] as int]
                && self.blinks@[r[k] as int] == b0[r[k] as int] by {
                assert(r[k] != f[0]);
                assert(r[k] != f[succ(1, f.len() as int)]);
            }
            lemma_linked_frame(l0, b0, self.links@, self.blinks@, r);
            let f2 = self.spare@;
            assert forall|k: int| 1 <= k < f2.len() implies 2 <= #[trigger] f2[k] < self.slots() by {
                assert(f2[k] == f[k + 1]);
            }
            assert forall|i: int, j: int| 0 <= i < r.len() && 0 <= j < f2.len() implies r[i] != f2[j] by {
                if j == 0 {
                    assert(f2[j] == f[0]);
                } else {
                    assert(f2[j] == f[j + 1]);
                }
            }
            assert(self.ptr.1 == r[self.cur@]);
        }
        Ok(closest_free)
    }

    /// Puts the detached slot `x` back at the head of the free ring.
    fn free(&mut self, x: usize)
        requires
            old(self).shape(),
            2 <= x < old(self).slots(),
            !old(self).ring@.contains(x),
            !old(self).spare@.contains(x),
        ensures
            final(self).shape(),
            final(self).spare@ == old(self).spare@.insert(1, x),
            final(self).ring@ == old(self).ring@,
            final(self).cur@ == old(self).cur@,
            final(self).ptr == old(self).ptr,
            final(self).items@ == old(self).items@,
            final(self).links@.len() == old(self).links@.len(),
    {
        let ghost f = self.spare@;
        let ghost r = self.ring@;
        let ghost l0 = self.links@;
        let ghost b0 = self.blinks@;
        let xs = self.links[FREE_NIL];
        proof {
            if f.len() > 1 {
                assert(l0[f[0] as int] == f[1]);
            }
        }
        self.links.set(FREE_NIL, x);
        self.links.set(x, xs);
        self.blinks.set(x, FREE_NIL);
        self.blinks.set(xs, x);
        proof {
            lemma_linked_insert(l0, b0, f, 0, x);
            self.spare@ = f.insert(1, x);
            assert forall|k: int| 0 <= k < r.len() implies self.links@[#[trigger] r[k] as int] == l0[r[k] as int]
                && self.blinks@[r[k] as int] == b0[r[k] as int] by {
                assert(r[k] != f[0]);
                assert(r[k] != f[succ(0, f.len() as int)]);
                assert(r.contains(r[k]));
            }
            lemma_linked_frame(l0, b0, self.links@, self.blinks@, r);
            let f2 = self.spare@;
            assert forall|k: int| 1 <= k < f2.len() implies 2 <= #[trigger] f2[k] < self.slots() by {
                if k > 1 {
                    assert(f2[k] == f[k - 1]);
                }
            }
            assert forall|i: int, j: int| 0 <= i < r.len() && 0 <= j < f2.len() implies r[i] != f2[j] by {
                if j == 0 {
                    assert(f2[j] == f[0]);
                } else if j == 1 {
                    assert(r.contains(r[i]));
                } else {
                    assert(f2[j] == f[j - 1]);
                }
            }
        }
    }

    /// Links the detached slot `x` into the list right after the cursor.
    fn link_after_cursor(&mut self, x: usize)
        requires
            old(self).shape(),
            2 <= x < old(self).slots(),
            !old(self).ring@.contains(x),
            !old(self).spare@.contains(x),
            old(self).items@[x as int].is_some(),
        ensures
            final(self).shape(),
            final(self).ring@ == old(self).ring@.insert(old(self).cur@ + 1, x),
            final(self).spare@ == old(self).spare@,
            final(self).cur@ == old(self).cur@,
            final(self).items@ == old(self).items@,
            final(self).links@.len() == old(self).links@.len(),
    {
        let ghost r = self.ring@;
        let ghost f = self.spare@;
        let ghost c = self.cur@;
        let ghost l0 = self.links@;
        let ghost b0 = self.blinks@;
        let cur_node = self.ptr.1;
        let next_node = self.ptr.2;
        self.links.set(cur_node, x);
        self.blinks.set(x, cur_node);
        self.links.set(x, next_node);
        self.blinks.set(next_node, x);
        self.ptr.2 = x;
        // The back link of the cursor changes when the ring held only `NIL`.
        self.ptr.0 = self.blinks[self.ptr.1];
        proof {
            lemma_link_after(l0, b0, r, f, c, x);
            let r2 = r.insert(c + 1, x);
            self.ring@ = r2;
            assert forall|k: int| 1 <= k < r2.len() implies (#[trigger] self.items@[r2[k] as int]).is_some() by {
                if k <= c {
                    assert(r2[k] == r[k]);
                } else if k > c + 1 {
                    assert(r2[k] == r[k - 1]);
                }
            }
        }
    }

    /// Unlinks the node right after the cursor and returns its slot.
    fn unlink_after_cursor(&mut self) -> (x: usize)
        requires
            old(self).shape(),
            old(self).cur@ + 1 < old(self).ring@.len(),
        ensures
            final(self).shape(),
            x == old(self).ring@[old(self).cur@ + 1],
            final(self).ring@ == old(self).ring@.remove(old(self).cur@ + 1),
            final(self).spare@ == old(self).spare@,
            final(self).cur@ == old(self).cur@,
            final(self).items@ == old(self).items@,
            final(self).links@.len() == old(self).links@.len(),
            2 <= x < final(self).slots(),
            !final(self).ring@.contains(x),
            !final(self).spare@.contains(x),
    {
        let ghost r = self.ring@;
        let ghost f = self.spare@;
        let ghost c = self.cur@;
        let ghost l0 = self.links@;
        let ghost b0 = self.blinks@;
        let del_index = self.ptr.2;
        proof {
            assert(del_index == r[c + 1]);
            if c + 2 < r.len() {
                assert(l0[r[c + 1] as int] == r[c + 2]);
            }
        }
        self.ptr.2 = self.links[del_index];
        self.links.set(self.ptr.1, self.ptr.2);
        self.blinks.set(self.ptr.2, self.ptr.1);
        // The back link of the cursor changes when the removed node was also behind it.
        self.ptr.0 = self.blinks[self.ptr.1];
        proof {
            lemma_unlink_after(l0, b0, r, f, c);
            let r2 = r.remove(c + 1);
            self.ring@ = r2;
            assert forall|k: int| 1 <= k < r2.len() implies (#[trigger] self.items@[r2[k] as int]).is_some() by {
                if k > c {
                    assert(r2[k] == r[k + 1]);
                }
            }
            assert(self.ptr.1 == r2[c]);
        }
        del_index
    }

    /// Inserts `elem` right after the cursor; the cursor stays where it is.
    /// Fails, changing nothing, when the list is full.
    pub fn add(&mut self, elem: T) -> (r: Result<(), String>)
        requires
            old(self).wf(),
        ensures
            final(self).wf(),
            final(self).capacity() == old(self).capacity(),
            final(self).pos() == old(self).pos(),
            r is Err <==> old(self)@.len() == old(self).capacity(),
            r is Err ==> final(self)@ == old(self)@,
            r is Ok ==> final(self)@ == old(self)@.insert(old(self).pos(), elem),
    {
        let ghost i0 = self.items@;
        let ghost r0 = self.ring@;
        let ghost f = self.spare@;
        let new_index = match self.allocate() {
            Ok(i) => i,
            Err(e) => {
                return Err(e);
            },
        };
        proof {
            assert(f.contains(new_index));
            if r0.contains(new_index) {
                let i = choose|i: int| 0 <= i < r0.len() && r0[i] == new_index;
                assert(r0[i] != f[1]);
            }
            lemma_remove_distinct(f, 0);
            if self.spare@.contains(new_index) {
                let j = choose|j: int| 0 <= j < self.spare@.len() && self.spare@[j] == new_index;
                if j == 0 {
                    assert(self.spare@[0] == f[0]);
                } else {
                    assert(self.spare@[j] == f[j + 1]);
                }
            }
        }
        self.items.set(new_index, Some(elem));
        proof {
            assert forall|k: int| 1 <= k < r0.len() implies (#[trigger] self.items@[r0[k] as int]).is_some() by {
                assert(r0.contains(r0[k]));
            }
        }
        self.link_after_cursor(new_index);
        proof {
            assert forall|k: int| 0 <= k < r0.len() implies (#[trigger] r0[k] as int) < i0.len() by {
                if k > 0 {
                    assert(2 <= r0[k]);
                }
            }
            lemma_elems_insert(i0, r0, self.cur@, new_index, elem);
        }
        Ok(())
    }

    /// Removes the item right after the cursor; the cursor stays where it is.
    pub fn del(&mut self)
        requires
            old(self).wf(),
            old(self).pos() < old(self)@.len(),
        ensures
            final(self).wf(),
            final(self).capacity() == old(self).capacity(),
            final(self).pos() == old(self).pos(),
            final(self)@ == old(self)@.remove(old(self).pos()),
    {
        let ghost i0 = self.items@;
        let ghost r0 = self.ring@;
        let del_index = self.unlink_after_cursor();
        self.free(del_index);
        proof {
            lemma_elems_remove(i0, r0, self.cur@);
        }
    }
}

} // verus!
