//! Linked lists of slabs.
//!
//! A list is a sequence of distinct slab indexes. In the region it is a head word
//! and, in a table with one record per slab, a word that names the next slab (and,
//! for the doubly linked lists, one that names the previous slab).
use crate::index::NULL_U32;
use vstd::prelude::*;

verus! {

/// The `i`th slab of a list, or the sentinel where the list has none.
pub open spec fn nth(list: Seq<u32>, i: int) -> u32 {
    if 0 <= i < list.len() {
        list[i]
    } else {
        NULL_U32
    }
}

/// `head` and the table `next` link exactly the slabs of `list`, in order.
pub open spec fn linked(next: Seq<u32>, head: u32, list: Seq<u32>) -> bool {
    &&& next.len() <= NULL_U32
    &&& forall|i: int| 0 <= i < list.len() ==> #[trigger] list[i] < next.len()
    &&& list.no_duplicates()
    &&& head == nth(list, 0)
    &&& forall|i: int|
        0 <= i < list.len() ==> #[trigger] next[list[i] as int] == nth(list, i + 1)
}

/// `linked`, and the table `prev` names the predecessor of each slab of `list`.
pub open spec fn dlinked(prev: Seq<u32>, next: Seq<u32>, head: u32, list: Seq<u32>) -> bool {
    &&& prev.len() == next.len()
    &&& linked(next, head, list)
    &&& forall|i: int|
        0 <= i < list.len() ==> #[trigger] prev[list[i] as int] == nth(list, i - 1)
}

/// The list that `head` starts.
pub open spec fn chain(next: Seq<u32>, head: u32) -> Seq<u32> {
    choose|list: Seq<u32>| linked(next, head, list)
}

/// A head and a table of successors link at most one list.
pub proof fn lemma_linked_unique(next: Seq<u32>, head: u32, a: Seq<u32>, b: Seq<u32>)
    requires
        linked(next, head, a),
        linked(next, head, b),
    ensures
        a == b,
{
    assert forall|i: int| 0 <= i implies nth(a, i) == nth(b, i) by {
        lemma_linked_agree(next, head, a, b, i);
    }
    if a.len() < b.len() {
        let k = a.len() as int;
        assert(nth(a, k) == nth(b, k));
        assert(b[k] < next.len());
    }
    if b.len() < a.len() {
        let k = b.len() as int;
        assert(nth(a, k) == nth(b, k));
        assert(a[k] < next.len());
    }
    assert forall|i: int| 0 <= i < a.len() implies a[i] == b[i] by {
        assert(nth(a, i) == nth(b, i));
    }
    assert(a =~= b);
}

proof fn lemma_linked_agree(next: Seq<u32>, head: u32, a: Seq<u32>, b: Seq<u32>, i: int)
    requires
        linked(next, head, a),
        linked(next, head, b),
        0 <= i,
    ensures
        nth(a, i) == nth(b, i),
    decreases i,
{
    if i > 0 {
        lemma_linked_agree(next, head, a, b, i - 1);
        if i - 1 < a.len() {
            assert(a[i - 1] < next.len());
            assert(i - 1 < b.len());
            assert(next[a[i - 1] as int] == nth(a, i));
            assert(next[b[i - 1] as int] == nth(b, i));
        } else {
            if i - 1 < b.len() {
                assert(b[i - 1] < next.len());
            }
        }
    }
}

/// The list that `head` starts is the one it links.
pub proof fn lemma_chain(next: Seq<u32>, head: u32, list: Seq<u32>)
    requires
        linked(next, head, list),
    ensures
        chain(next, head) == list,
{
    lemma_linked_unique(next, head, list, chain(next, head));
}

/// A list stays linked when the tables change only at slabs it does not hold.
pub proof fn lemma_linked_frame(next: Seq<u32>, next2: Seq<u32>, head: u32, list: Seq<u32>)
    requires
        linked(next, head, list),
        next2.len() == next.len(),
        forall|x: u32| list.contains(x) ==> #[trigger] next2[x as int] == next[x as int],
    ensures
        linked(next2, head, list),
{
    assert forall|i: int| 0 <= i < list.len() implies #[trigger] next2[list[i] as int] == nth(
        list,
        i + 1,
    ) by {
        assert(list.contains(list[i]));
        assert(next[list[i] as int] == nth(list, i + 1));
    }
}

pub proof fn lemma_dlinked_frame(
    prev: Seq<u32>,
    next: Seq<u32>,
    prev2: Seq<u32>,
    next2: Seq<u32>,
    head: u32,
    list: Seq<u32>,
)
    requires
        dlinked(prev, next, head, list),
        next2.len() == next.len(),
        prev2.len() == prev.len(),
        forall|x: u32| list.contains(x) ==> #[trigger] next2[x as int] == next[x as int],
        forall|x: u32| list.contains(x) ==> #[trigger] prev2[x as int] == prev[x as int],
    ensures
        dlinked(prev2, next2, head, list),
{
    lemma_linked_frame(next, next2, head, list);
    assert forall|i: int| 0 <= i < list.len() implies #[trigger] prev2[list[i] as int] == nth(
        list,
        i - 1,
    ) by {
        assert(list.contains(list[i]));
        assert(prev[list[i] as int] == nth(list, i - 1));
    }
}

/// Pushing a slab that a singly linked list does not hold.
pub proof fn lemma_linked_push(next: Seq<u32>, head: u32, list: Seq<u32>, x: u32)
    requires
        linked(next, head, list),
        x < next.len(),
        !list.contains(x),
    ensures
        linked(next.update(x as int, head), x, seq![x] + list),
{
    let next2 = next.update(x as int, head);
    let list2 = seq![x] + list;
    assert forall|i: int| 0 <= i < list2.len() implies #[trigger] next2[list2[i] as int] == nth(
        list2,
        i + 1,
    ) by {
        if i > 0 {
            assert(list2[i] == list[i - 1]);
            assert(list.contains(list[i - 1]));
            assert(next[list[i - 1] as int] == nth(list, i));
        }
    }
    assert forall|i: int| 0 <= i < list2.len() implies #[trigger] list2[i] < next2.len() by {
        if i > 0 {
            assert(list2[i] == list[i - 1]);
        }
    }
    assert(list2.no_duplicates()) by {
        assert forall|i: int, j: int|
            0 <= i < list2.len() && 0 <= j < list2.len() && i != j implies list2[i] != list2[j] by {
            if i > 0 && j > 0 {
                assert(list[i - 1] != list[j - 1]);
            } else if i > 0 {
                assert(list.contains(list[i - 1]));
            } else if j > 0 {
                assert(list.contains(list[j - 1]));
            }
        }
    }
}

/// Popping the first slab of a singly linked list and clearing its link.
pub proof fn lemma_linked_pop(next: Seq<u32>, head: u32, list: Seq<u32>)
    requires
        linked(next, head, list),
        list.len() > 0,
    ensures
        list[0] == head,
        head < next.len(),
        next[head as int] == nth(list, 1),
        linked(next.update(head as int, NULL_U32), next[head as int], list.drop_first()),
        !list.drop_first().contains(head),
{
    let rest = list.drop_first();
    let next2 = next.update(head as int, NULL_U32);
    assert(next[list[0] as int] == nth(list, 1));
    assert forall|i: int| 0 <= i < rest.len() implies #[trigger] next2[rest[i] as int] == nth(
        rest,
        i + 1,
    ) by {
        assert(rest[i] == list[i + 1]);
        assert(list[i + 1] != list[0]);
        assert(next[list[i + 1] as int] == nth(list, i + 2));
    }
    assert forall|i: int| 0 <= i < rest.len() implies #[trigger] rest[i] < next2.len() by {
        assert(rest[i] == list[i + 1]);
    }
}

/// Pushing a slab that a doubly linked list does not hold.
pub proof fn lemma_dlinked_push(
    prev: Seq<u32>,
    next: Seq<u32>,
    head: u32,
    list: Seq<u32>,
    x: u32,
    prev2: Seq<u32>,
    next2: Seq<u32>,
)
    requires
        dlinked(prev, next, head, list),
        x < next.len(),
        !list.contains(x),
        next2 == next.update(x as int, head),
        prev2 == if head == NULL_U32 {
            prev.update(x as int, NULL_U32)
        } else {
            prev.update(x as int, NULL_U32).update(head as int, x)
        },
    ensures
        dlinked(prev2, next2, x, seq![x] + list),
        head != NULL_U32 ==> list.contains(head),
{
    let list2 = seq![x] + list;
    lemma_linked_push(next, head, list, x);
    if list.len() > 0 {
        assert(list[0] == head);
        assert(head < next.len());
    }
    assert forall|i: int| 0 <= i < list2.len() implies #[trigger] prev2[list2[i] as int] == nth(
        list2,
        i - 1,
    ) by {
        if i > 0 {
            assert(list2[i] == list[i - 1]);
            assert(list.contains(list[i - 1]));
            assert(prev[list[i - 1] as int] == nth(list, i - 2));
            if i > 1 {
                assert(list[i - 1] != list[0]);
                assert(list2[i - 1] == list[i - 2]);
            }
        } else {
            if list.len() > 0 {
                assert(list.contains(list[0]));
            }
        }
    }
}

/// Unlinking the `k`th slab of a doubly linked list and clearing its links.
pub proof fn lemma_dlinked_remove(
    prev: Seq<u32>,
    next: Seq<u32>,
    head: u32,
    list: Seq<u32>,
    k: int,
    prev2: Seq<u32>,
    next2: Seq<u32>,
    head2: u32,
)
    requires
        dlinked(prev, next, head, list),
        0 <= k < list.len(),
        ({
            let x = list[k] as int;
            let p = prev[x];
            let n = next[x];
            &&& next2 == if p != NULL_U32 {
                next.update(x, NULL_U32).update(p as int, n)
            } else {
                next.update(x, NULL_U32)
            }
            &&& prev2 == if n != NULL_U32 {
                prev.update(x, NULL_U32).update(n as int, p)
            } else {
                prev.update(x, NULL_U32)
            }
            &&& head2 == if p != NULL_U32 {
                head
            } else {
                n
            }
        }),
    ensures
        dlinked(prev2, next2, head2, list.remove(k)),
        prev[list[k] as int] != NULL_U32 ==> list.contains(prev[list[k] as int]),
        next[list[k] as int] != NULL_U32 ==> list.contains(next[list[k] as int]),
        !list.remove(k).contains(list[k]),
{
    let x = list[k];
    let p = prev[x as int];
    let n = next[x as int];
    let rest = list.remove(k);
    assert(p == nth(list, k - 1));
    assert(n == nth(list, k + 1));
    if k > 0 {
        assert(list[k - 1] < next.len());
        assert(list[k - 1] != list[k]);
    }
    if k + 1 < list.len() {
        assert(list[k + 1] < next.len());
        assert(list[k + 1] != list[k]);
    }
    if 0 < k && k + 1 < list.len() {
        assert(list[k - 1] != list[k + 1]);
    }
    assert forall|i: int| 0 <= i < rest.len() implies #[trigger] rest[i] < next2.len() by {
        assert(rest[i] == if i < k {
            list[i]
        } else {
            list[i + 1]
        });
    }
    assert(rest.no_duplicates()) by {
        assert forall|i: int, j: int|
            0 <= i < rest.len() && 0 <= j < rest.len() && i != j implies rest[i] != rest[j] by {
            let oi = if i < k {
                i
            } else {
                i + 1
            };
            let oj = if j < k {
                j
            } else {
                j + 1
            };
            assert(list[oi] != list[oj]);
        }
    }
    assert forall|i: int| 0 <= i < rest.len() implies #[trigger] next2[rest[i] as int] == nth(
        rest,
        i + 1,
    ) by {
        let o = if i < k {
            i
        } else {
            i + 1
        };
        assert(rest[i] == list[o]);
        assert(list[o] != list[k]);
        assert(next[list[o] as int] == nth(list, o + 1));
        if k > 0 && o != k - 1 {
            assert(list[o] != list[k - 1]);
        }
    }
    assert forall|i: int| 0 <= i < rest.len() implies #[trigger] prev2[rest[i] as int] == nth(
        rest,
        i - 1,
    ) by {
        let o = if i < k {
            i
        } else {
            i + 1
        };
        assert(rest[i] == list[o]);
        assert(list[o] != list[k]);
        assert(prev[list[o] as int] == nth(list, o - 1));
        if k + 1 < list.len() && o != k + 1 {
            assert(list[o] != list[k + 1]);
        }
    }
    assert(!rest.contains(x)) by {
        if rest.contains(x) {
            let i = choose|i: int| 0 <= i < rest.len() && rest[i] == x;
            let o = if i < k {
                i
            } else {
                i + 1
            };
            assert(rest[i] == list[o]);
        }
    }
}

/// A list is linked if its head names its first slab, the link of each slab names the one that
/// follows it, and the last link is the sentinel; its slabs differ and have links. There is no
/// other such list, so that it is the one that the head starts.
pub proof fn law_linked(prev: Seq<u32>, next: Seq<u32>, head: u32, list: Seq<u32>)
    ensures
        linked(next, head, list) <==> {
            &&& next.len() <= u32::MAX
            &&& list.no_duplicates()
            &&& forall|i: int| 0 <= i < list.len() ==> #[trigger] list[i] < next.len()
            &&& list.len() == 0 ==> head == u32::MAX
            &&& list.len() > 0 ==> head == list[0] && next[list.last() as int] == u32::MAX
            &&& forall|i: int|
                0 <= i < list.len() - 1 ==> #[trigger] next[list[i] as int] == list[i + 1]
        },
        linked(next, head, list) ==> chain(next, head) == list,
        dlinked(prev, next, head, list) <==> {
            &&& linked(next, head, list)
            &&& prev.len() == next.len()
            &&& list.len() > 0 ==> prev[list[0] as int] == u32::MAX
            &&& forall|i: int|
                0 < i < list.len() ==> #[trigger] prev[list[i] as int] == list[i - 1]
        },
{
    if linked(next, head, list) {
        lemma_chain(next, head, list);
    }
    if {
        &&& next.len() <= u32::MAX
        &&& list.no_duplicates()
        &&& forall|i: int| 0 <= i < list.len() ==> #[trigger] list[i] < next.len()
        &&& list.len() == 0 ==> head == u32::MAX
        &&& list.len() > 0 ==> head == list[0] && next[list.last() as int] == u32::MAX
        &&& forall|i: int|
            0 <= i < list.len() - 1 ==> #[trigger] next[list[i] as int] == list[i + 1]
    } {
        assert forall|i: int| 0 <= i < list.len() implies #[trigger] next[list[i] as int] == nth(
            list,
            i + 1,
        ) by {
            if i == list.len() - 1 {
                assert(list[i] == list.last());
            }
        }
    }
    if linked(next, head, list) && list.len() > 0 {
        assert(next[list[list.len() - 1] as int] == nth(list, list.len() as int));
    }
    if dlinked(prev, next, head, list) && list.len() > 0 {
        assert(prev[list[0] as int] == nth(list, -1));
    }
}

} // verus!
