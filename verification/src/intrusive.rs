//! Lists threaded through the very memory of the items they hold.
use crate::memory::word;
use vstd::prelude::*;

verus! {

/// How a list is threaded: the item `x` keeps, in the first `width` bytes of its slot at
/// `base + x * stride`, the item that follows it, or `null`.
pub struct Thread {
    pub base: int,
    pub stride: int,
    pub width: nat,
    pub null: int,
}

/// The `i`th item of a list, or `null` where the list has none.
pub open spec fn item_or(list: Seq<int>, i: int, null: int) -> int {
    if 0 <= i < list.len() {
        list[i]
    } else {
        null
    }
}

impl Thread {
    /// Where the slot of an item starts.
    pub open spec fn slot(self, x: int) -> int {
        self.base + x * self.stride
    }

    /// The link kept in the slot of an item.
    pub open spec fn next(self, mem: Seq<u8>, x: int) -> int {
        word(mem, self.slot(x), self.width) as int
    }

    /// `head` and the links in the slots thread exactly the items of `list`, in order.
    pub open spec fn threads(self, mem: Seq<u8>, head: int, list: Seq<int>) -> bool {
        &&& list.no_duplicates()
        &&& forall|i: int| 0 <= i < list.len() ==> #[trigger] list[i] != self.null
        &&& head == item_or(list, 0, self.null)
        &&& forall|i: int|
            0 <= i < list.len() ==> #[trigger] self.next(mem, list[i]) == item_or(
                list,
                i + 1,
                self.null,
            )
    }

    /// The links in the slots thread the items of `list` from `head` to `tail`; where the
    /// tail leads is left open.
    pub open spec fn segment(self, mem: Seq<u8>, head: int, tail: int, list: Seq<int>) -> bool {
        &&& list.len() > 0
        &&& list.no_duplicates()
        &&& forall|i: int| 0 <= i < list.len() ==> #[trigger] list[i] != self.null
        &&& head == list[0]
        &&& tail == list.last()
        &&& forall|i: int|
            0 <= i < list.len() - 1 ==> #[trigger] self.next(mem, list[i]) == item_or(
                list,
                i + 1,
                self.null,
            )
    }

    /// The items of the list that `head` starts.
    pub open spec fn items(self, mem: Seq<u8>, head: int) -> Seq<int> {
        choose|list: Seq<int>| self.threads(mem, head, list)
    }

    proof fn lemma_agree(self, mem: Seq<u8>, head: int, a: Seq<int>, b: Seq<int>, i: int)
        requires
            self.threads(mem, head, a),
            self.threads(mem, head, b),
            0 <= i,
        ensures
            item_or(a, i, self.null) == item_or(b, i, self.null),
        decreases i,
    {
        if i > 0 {
            self.lemma_agree(mem, head, a, b, i - 1);
            if i - 1 < a.len() {
                assert(a[i - 1] != self.null);
                assert(self.next(mem, a[i - 1]) == item_or(a, i, self.null));
                assert(self.next(mem, b[i - 1]) == item_or(b, i, self.null));
            } else if i - 1 < b.len() {
                assert(b[i - 1] != self.null);
            }
        }
    }

    /// A head threads at most one list.
    pub proof fn lemma_unique(self, mem: Seq<u8>, head: int, a: Seq<int>, b: Seq<int>)
        requires
            self.threads(mem, head, a),
            self.threads(mem, head, b),
        ensures
            a == b,
    {
        assert forall|i: int| 0 <= i implies item_or(a, i, self.null) == item_or(
            b,
            i,
            self.null,
        ) by {
            self.lemma_agree(mem, head, a, b, i);
        }
        if a.len() < b.len() {
            let k = a.len() as int;
            assert(item_or(a, k, self.null) == item_or(b, k, self.null));
            assert(b[k] != self.null);
        }
        if b.len() < a.len() {
            let k = b.len() as int;
            assert(item_or(a, k, self.null) == item_or(b, k, self.null));
            assert(a[k] != self.null);
        }
        assert forall|i: int| 0 <= i < a.len() implies a[i] == b[i] by {
            assert(item_or(a, i, self.null) == item_or(b, i, self.null));
        }
        assert(a =~= b);
    }

    /// The list that `head` starts is the one it threads.
    pub proof fn lemma_items(self, mem: Seq<u8>, head: int, list: Seq<int>)
        requires
            self.threads(mem, head, list),
        ensures
            self.items(mem, head) == list,
    {
        self.lemma_unique(mem, head, list, self.items(mem, head));
    }

    /// A list stays threaded while the links of its items stay.
    pub proof fn lemma_frame(self, a: Seq<u8>, b: Seq<u8>, head: int, list: Seq<int>)
        requires
            self.threads(a, head, list),
            forall|x: int| list.contains(x) ==> #[trigger] self.next(b, x) == self.next(a, x),
        ensures
            self.threads(b, head, list),
    {
        assert forall|i: int| 0 <= i < list.len() implies #[trigger] self.next(b, list[i])
            == item_or(list, i + 1, self.null) by {
            assert(list.contains(list[i]));
            assert(self.next(a, list[i]) == item_or(list, i + 1, self.null));
        }
    }

    /// A segment stays threaded while the links of its items stay.
    pub proof fn lemma_segment_frame(
        self,
        a: Seq<u8>,
        b: Seq<u8>,
        head: int,
        tail: int,
        list: Seq<int>,
    )
        requires
            self.segment(a, head, tail, list),
            forall|x: int| list.contains(x) ==> #[trigger] self.next(b, x) == self.next(a, x),
        ensures
            self.segment(b, head, tail, list),
    {
        assert forall|i: int| 0 <= i < list.len() - 1 implies #[trigger] self.next(b, list[i])
            == item_or(list, i + 1, self.null) by {
            assert(list.contains(list[i]));
            assert(self.next(a, list[i]) == item_or(list, i + 1, self.null));
        }
    }

    /// An item whose link names the head can be put in front.
    pub proof fn lemma_push(self, a: Seq<u8>, b: Seq<u8>, head: int, list: Seq<int>, x: int)
        requires
            self.threads(a, head, list),
            x != self.null,
            !list.contains(x),
            self.next(b, x) == head,
            forall|y: int| list.contains(y) ==> #[trigger] self.next(b, y) == self.next(a, y),
        ensures
            self.threads(b, x, seq![x] + list),
    {
        let list2 = seq![x] + list;
        assert forall|i: int| 0 <= i < list2.len() implies #[trigger] self.next(b, list2[i])
            == item_or(list2, i + 1, self.null) by {
            if i > 0 {
                assert(list2[i] == list[i - 1]);
                assert(list.contains(list[i - 1]));
                assert(self.next(a, list[i - 1]) == item_or(list, i, self.null));
            }
        }
        assert forall|i: int| 0 <= i < list2.len() implies #[trigger] list2[i] != self.null by {
            if i > 0 {
                assert(list2[i] == list[i - 1]);
            }
        }
        assert(list2.no_duplicates()) by {
            assert forall|i: int, j: int|
                0 <= i < list2.len() && 0 <= j < list2.len() && i != j implies list2[i]
                != list2[j] by {
                if i > 0 && j > 0 {
                    assert(list[i - 1] != list[j - 1]);
                } else if i > 0 {
                    assert(list.contains(list[i - 1]));
                } else if j > 0 {
                    assert(list.contains(list[j - 1]));
                }
            }
        }
    }

    /// An item whose link names the head of a segment can be put in front of it.
    pub proof fn lemma_segment_push(
        self,
        a: Seq<u8>,
        b: Seq<u8>,
        head: int,
        tail: int,
        list: Seq<int>,
        x: int,
    )
        requires
            self.segment(a, head, tail, list),
            x != self.null,
            !list.contains(x),
            self.next(b, x) == head,
            forall|y: int| list.contains(y) ==> #[trigger] self.next(b, y) == self.next(a, y),
        ensures
            self.segment(b, x, tail, seq![x] + list),
    {
        let list2 = seq![x] + list;
        assert(list2.last() == list.last());
        assert forall|i: int| 0 <= i < list2.len() - 1 implies #[trigger] self.next(b, list2[i])
            == item_or(list2, i + 1, self.null) by {
            if i > 0 {
                assert(list2[i] == list[i - 1]);
                assert(list.contains(list[i - 1]));
                assert(self.next(a, list[i - 1]) == item_or(list, i, self.null));
            }
        }
        assert forall|i: int| 0 <= i < list2.len() implies #[trigger] list2[i] != self.null by {
            if i > 0 {
                assert(list2[i] == list[i - 1]);
            }
        }
        assert(list2.no_duplicates()) by {
            assert forall|i: int, j: int|
                0 <= i < list2.len() && 0 <= j < list2.len() && i != j implies list2[i]
                != list2[j] by {
                if i > 0 && j > 0 {
                    assert(list[i - 1] != list[j - 1]);
                } else if i > 0 {
                    assert(list.contains(list[i - 1]));
                } else if j > 0 {
                    assert(list.contains(list[j - 1]));
                }
            }
        }
    }

    /// A segment whose tail names the head of a list can be put in front of it.
    pub proof fn lemma_splice(
        self,
        a: Seq<u8>,
        b: Seq<u8>,
        seg_head: int,
        seg_tail: int,
        seg: Seq<int>,
        head: int,
        list: Seq<int>,
    )
        requires
            self.segment(a, seg_head, seg_tail, seg),
            self.threads(a, head, list),
            forall|y: int| seg.contains(y) ==> !list.contains(y),
            self.next(b, seg_tail) == head,
            forall|y: int|
                (seg.contains(y) || list.contains(y)) && y != seg_tail ==> #[trigger] self.next(b, y)
                    == self.next(a, y),
        ensures
            self.threads(b, seg_head, seg + list),
    {
        let all = seg + list;
        let n = seg.len();
        assert forall|i: int| 0 <= i < all.len() implies #[trigger] all[i] != self.null by {
            if i >= n {
                assert(all[i] == list[i - n]);
            } else {
                assert(all[i] == seg[i]);
            }
        }
        assert(all.no_duplicates()) by {
            assert forall|i: int, j: int|
                0 <= i < all.len() && 0 <= j < all.len() && i != j implies all[i] != all[j] by {
                if i < n {
                    assert(seg.contains(seg[i]));
                } else {
                    assert(list.contains(list[i - n]));
                }
                if j < n {
                    assert(seg.contains(seg[j]));
                } else {
                    assert(list.contains(list[j - n]));
                }
            }
        }
        assert forall|i: int| 0 <= i < all.len() implies #[trigger] self.next(b, all[i])
            == item_or(all, i + 1, self.null) by {
            if i < n {
                assert(all[i] == seg[i]);
                assert(seg.contains(seg[i]));
                if i < n - 1 {
                    assert(seg[i] != seg[n - 1]);
                    assert(self.next(a, seg[i]) == item_or(seg, i + 1, self.null));
                } else {
                    if list.len() > 0 {
                        assert(all[n as int] == list[0]);
                    }
                }
            } else {
                assert(all[i] == list[i - n]);
                assert(list.contains(list[i - n]));
                assert(seg.contains(seg[n - 1]));
                assert(self.next(a, list[i - n]) == item_or(list, i - n + 1, self.null));
            }
        }
    }

    /// What follows the first item is threaded from its link.
    pub proof fn lemma_tail(self, mem: Seq<u8>, head: int, list: Seq<int>)
        requires
            self.threads(mem, head, list),
            list.len() > 0,
        ensures
            head == list[0],
            head != self.null,
            self.threads(mem, self.next(mem, head), list.drop_first()),
            !list.drop_first().contains(head),
    {
        let rest = list.drop_first();
        assert(self.next(mem, list[0]) == item_or(list, 1, self.null));
        assert forall|i: int| 0 <= i < rest.len() implies #[trigger] self.next(mem, rest[i])
            == item_or(rest, i + 1, self.null) by {
            assert(rest[i] == list[i + 1]);
            assert(self.next(mem, list[i + 1]) == item_or(list, i + 2, self.null));
        }
        assert forall|i: int| 0 <= i < rest.len() implies #[trigger] rest[i] != self.null by {
            assert(rest[i] == list[i + 1]);
        }
    }

    /// The null head starts the empty list, and only it.
    pub proof fn lemma_empty(self, mem: Seq<u8>, head: int, list: Seq<int>)
        requires
            self.threads(mem, head, list),
        ensures
            list.len() == 0 <==> head == self.null,
            self.threads(mem, self.null, Seq::empty()),
    {
        if list.len() > 0 {
            assert(list[0] != self.null);
        }
    }

    proof fn lemma_segment_agree(
        self,
        mem: Seq<u8>,
        head: int,
        tail: int,
        a: Seq<int>,
        b: Seq<int>,
        i: int,
    )
        requires
            self.segment(mem, head, tail, a),
            self.segment(mem, head, tail, b),
            0 <= i < a.len(),
            i < b.len(),
        ensures
            a[i] == b[i],
        decreases i,
    {
        if i > 0 {
            self.lemma_segment_agree(mem, head, tail, a, b, i - 1);
            assert(self.next(mem, a[i - 1]) == item_or(a, i, self.null));
            assert(self.next(mem, b[i - 1]) == item_or(b, i, self.null));
        }
    }

    /// A head and a tail thread at most one segment.
    pub proof fn lemma_segment_unique(
        self,
        mem: Seq<u8>,
        head: int,
        tail: int,
        a: Seq<int>,
        b: Seq<int>,
    )
        requires
            self.segment(mem, head, tail, a),
            self.segment(mem, head, tail, b),
        ensures
            a == b,
    {
        assert forall|i: int| 0 <= i < a.len() && i < b.len() implies a[i] == b[i] by {
            self.lemma_segment_agree(mem, head, tail, a, b, i);
        }
        if a.len() < b.len() {
            assert(b[a.len() - 1] == b[b.len() - 1]);
        }
        if b.len() < a.len() {
            assert(a[b.len() - 1] == a[a.len() - 1]);
        }
        assert(a =~= b);
    }

    /// The items of the segment from `head` to `tail`.
    pub open spec fn segment_items(self, mem: Seq<u8>, head: int, tail: int) -> Seq<int> {
        choose|list: Seq<int>| self.segment(mem, head, tail, list)
    }

    /// What `segment_items` is, for the segment that the caller already knows.
    pub proof fn lemma_segment_items(self, mem: Seq<u8>, head: int, tail: int, list: Seq<int>)
        requires
            self.segment(mem, head, tail, list),
        ensures
            self.segment_items(mem, head, tail) == list,
    {
        self.lemma_segment_unique(mem, head, tail, self.segment_items(mem, head, tail), list);
    }
}

/// A list is threaded if its head names its first item, the link of each item names the one that
/// follows it, and the last link is the sentinel; its items differ, and none is the sentinel. There
/// is no other such list, so that it is the one that the head starts.
pub proof fn law_threaded(t: Thread, mem: Seq<u8>, head: int, list: Seq<int>)
    ensures
        t.threads(mem, head, list) ==> {
            &&& list.no_duplicates()
            &&& !list.contains(t.null)
            &&& list.len() == 0 ==> head == t.null
            &&& list.len() > 0 ==> head == list[0] && word(
                mem,
                t.base + list.last() * t.stride,
                t.width,
            ) == t.null
            &&& forall|i: int|
                0 <= i < list.len() - 1 ==> word(
                    mem,
                    t.base + #[trigger] list[i] * t.stride,
                    t.width,
                ) == list[i + 1]
            &&& t.items(mem, head) == list
        },
{
    if t.threads(mem, head, list) {
        t.lemma_items(mem, head, list);
        if list.contains(t.null) {
            let i = list.index_of(t.null);
            assert(list[i] != t.null);
        }
        if list.len() > 0 {
            assert(t.next(mem, list[list.len() - 1]) == item_or(
                list,
                list.len() as int,
                t.null,
            ));
        }
        assert forall|i: int| 0 <= i < list.len() - 1 implies word(
            mem,
            t.base + #[trigger] list[i] * t.stride,
            t.width,
        ) == list[i + 1] by {
            assert(t.next(mem, list[i]) == item_or(list, i + 1, t.null));
        }
    }
}

} // verus!
