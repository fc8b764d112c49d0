//! In-order release of frames on the sequenced and ordered channels.
use vstd::prelude::*;
use std::collections::HashMap;
use crate::frame::{Frame, FrameView, INDEX_LIMIT};

verus! {

broadcast use vstd::std_specs::hash::group_hash_axioms;

/// Half the order-index space: a frame whose index lies this far or farther
/// ahead of the expected one (modulo 2^24) counts as already delivered.
pub const ORDER_WINDOW: u32 = 0x80_0000;

/// The expected order index and the frames held back until it arrives, by
/// order index.
pub struct ReceivedView {
    pub next: u32,
    pub pending: Map<u32, FrameView>,
}

/// The order index `j` places after `n`, modulo 2^24.
pub open spec fn index_after(n: u32, j: int) -> u32 {
    ((n + j) % (INDEX_LIMIT as int)) as u32
}

/// How far order index `k` lies after `next`, modulo 2^24.
pub open spec fn order_distance(next: u32, k: u32) -> int {
    (k - next + INDEX_LIMIT) % (INDEX_LIMIT as int)
}

/// `k` lies ahead of `next`, within the window.
pub open spec fn is_ahead(next: u32, k: u32) -> bool {
    order_distance(next, k) < ORDER_WINDOW
}

/// Counting `j` places after `next` lands `j` places after it.
pub proof fn lemma_distance_after(next: u32, j: int)
    requires
        next < INDEX_LIMIT,
        0 <= j < INDEX_LIMIT,
    ensures
        order_distance(next, index_after(next, j)) == j,
        index_after(next, j) < INDEX_LIMIT,
{
    let m = INDEX_LIMIT as int;
    if next + j < m {
        assert((next + j) % m == next + j);
        assert((j + m) % m == j);
    } else {
        assert((next + j) % m == next + j - m);
        assert((next + j - m - next + m) % m == j);
    }
}

/// The state after frame `f` arrives: it is held unless its index is out of
/// range, behind the expected one, or already held.
pub open spec fn after_receive(v: ReceivedView, f: FrameView) -> ReceivedView {
    if f.order_index < INDEX_LIMIT && is_ahead(v.next, f.order_index) && !v.pending.contains_key(
        f.order_index,
    ) {
        ReceivedView { next: v.next, pending: v.pending.insert(f.order_index, f) }
    } else {
        v
    }
}

/// The order indices of the first `n` frames released from `next` on.
pub open spec fn released_keys(next: u32, n: int) -> Set<u32> {
    Set::new(|k: u32| exists|j: int| 0 <= j < n && k == #[trigger] index_after(next, j))
}

/// Releasing from `v` hands out `out` and leaves `w`: the held frames with
/// the expected index and the ones after it, up to the first index that is
/// not held.
pub open spec fn releases(v: ReceivedView, out: Seq<FrameView>, w: ReceivedView) -> bool {
    &&& forall|j: int| 0 <= j < out.len() ==> v.pending.contains_key(#[trigger] index_after(v.next, j))
        && out[j] == v.pending[index_after(v.next, j)]
    &&& !v.pending.contains_key(index_after(v.next, out.len() as int))
    &&& w.next == index_after(v.next, out.len() as int)
    &&& w.pending == v.pending.remove_keys(released_keys(v.next, out.len() as int))
}

/// How many held frames follow one another from `next` on, counting from
/// the `j`-th; the count stops at the window.
pub open spec fn run_from(pending: Map<u32, FrameView>, next: u32, j: nat) -> nat
    decreases ORDER_WINDOW - j,
{
    if j < ORDER_WINDOW && pending.contains_key(index_after(next, j as int)) {
        run_from(pending, next, j + 1)
    } else {
        j
    }
}

/// Number of frames a release hands out.
pub open spec fn release_count(v: ReceivedView) -> nat {
    run_from(v.pending, v.next, 0)
}

/// The frames a release hands out, in order.
pub open spec fn release_out(v: ReceivedView) -> Seq<FrameView> {
    Seq::new(release_count(v), |j: int| v.pending[index_after(v.next, j)])
}

/// The state a release leaves.
pub open spec fn release_state(v: ReceivedView) -> ReceivedView {
    ReceivedView {
        next: index_after(v.next, release_count(v) as int),
        pending: v.pending.remove_keys(released_keys(v.next, release_count(v) as int)),
    }
}

pub proof fn lemma_run_from(pending: Map<u32, FrameView>, next: u32, j: nat, n: nat)
    requires
        j <= n <= ORDER_WINDOW,
        forall|i: int| j <= i < n ==> pending.contains_key(#[trigger] index_after(next, i)),
        n < ORDER_WINDOW ==> !pending.contains_key(index_after(next, n as int)),
    ensures
        run_from(pending, next, j) == n,
    decreases n - j,
{
    if j < n {
        lemma_run_from(pending, next, j + 1, n);
    }
}

/// A release is determined by the state it starts from.
pub proof fn lemma_release_unique(v: ReceivedView, out: Seq<FrameView>, w: ReceivedView)
    requires
        received_wf(v),
        releases(v, out, w),
    ensures
        out == release_out(v),
        w == release_state(v),
{
    let n = out.len();
    if n > 0 {
        lemma_distance_after(v.next, 0);
        let k = index_after(v.next, n - 1);
        assert(v.pending.contains_key(k));
        if n - 1 < INDEX_LIMIT {
            lemma_distance_after(v.next, n - 1);
        }
    }
    assert(n <= ORDER_WINDOW) by {
        if n > ORDER_WINDOW {
            let k = index_after(v.next, ORDER_WINDOW as int);
            assert(v.pending.contains_key(k));
            lemma_distance_after(v.next, ORDER_WINDOW as int);
        }
    }
    lemma_run_from(v.pending, v.next, 0, n);
    assert(out =~= release_out(v));
}

/// The expected index and the held ones are 24-bit, and the held ones lie
/// ahead of the expected one, within the window.
pub open spec fn received_wf(v: ReceivedView) -> bool {
    &&& v.next < INDEX_LIMIT
    &&& forall|k: u32| #[trigger] v.pending.contains_key(k) ==> k < INDEX_LIMIT && is_ahead(v.next, k)
}

/// Two frames with consecutive order indices reach the embedder in index
/// order, whichever of them arrives first: from a state that expects the
/// first and holds nothing, the releases that follow the two arrivals hand
/// out the first frame and then the second, in either arrival order.
pub proof fn lemma_consecutive_in_order(
    v: ReceivedView,
    a: FrameView,
    b: FrameView,
    out1: Seq<FrameView>,
    w1: ReceivedView,
    out2: Seq<FrameView>,
    w2: ReceivedView,
    a_first: bool,
)
    requires
        received_wf(v),
        v.pending == Map::<u32, FrameView>::empty(),
        a.order_index == v.next,
        b.order_index == index_after(v.next, 1),
        a_first ==> releases(after_receive(v, a), out1, w1) && releases(after_receive(w1, b), out2, w2),
        !a_first ==> releases(after_receive(v, b), out1, w1) && releases(after_receive(w1, a), out2, w2),
    ensures
        out1 + out2 == seq![a, b],
{
    let k = v.next;
    assert(index_after(k, 0) == k);
    assert(index_after(k, 1) != k);
    assert(index_after(k, 2) != k && index_after(k, 2) != index_after(k, 1));
    if a_first {
        let v1 = after_receive(v, a);
        assert(v1.pending == Map::<u32, FrameView>::empty().insert(k, a));
        if out1.len() > 1 {
            assert(v1.pending.contains_key(index_after(k, 1)));
        }
        assert(out1.len() == 1);
        assert(out1[0] == a);
        assert(w1.next == index_after(k, 1));
        assert(w1.pending =~= Map::<u32, FrameView>::empty()) by {
            assert(released_keys(k, 1).contains(k)) by {
                assert(k == index_after(k, 0));
            }
        }
        let v2 = after_receive(w1, b);
        assert(is_ahead(w1.next, b.order_index));
        assert(v2.pending == Map::<u32, FrameView>::empty().insert(index_after(k, 1), b));
        if out2.len() > 1 {
            assert(v2.pending.contains_key(index_after(w1.next, 1)));
            assert(index_after(w1.next, 1) == index_after(k, 2));
        }
        assert(out2.len() == 1);
        assert(index_after(w1.next, 0) == index_after(k, 1));
        assert(out2[0] == b);
        assert(out1 + out2 =~= seq![a, b]);
    } else {
        let v1 = after_receive(v, b);
        assert(is_ahead(k, b.order_index));
        assert(v1.pending == Map::<u32, FrameView>::empty().insert(index_after(k, 1), b));
        if out1.len() > 0 {
            assert(v1.pending.contains_key(index_after(k, 0)));
        }
        assert(out1.len() == 0);
        assert(w1.next == k);
        assert(w1.pending =~= v1.pending) by {
            assert(released_keys(k, 0) =~= Set::<u32>::empty());
        }
        let v2 = after_receive(w1, a);
        assert(v2.pending == v1.pending.insert(k, a));
        assert(v2.pending.contains_key(index_after(k, 0)));
        assert(v2.pending.contains_key(index_after(k, 1)));
        if out2.len() > 2 {
            assert(v2.pending.contains_key(index_after(k, 2)));
        }
        if out2.len() < 2 {
            assert(!v2.pending.contains_key(index_after(k, out2.len() as int)));
        }
        assert(out2.len() == 2);
        assert(out2[0] == a);
        assert(out2[1] == b);
        assert(out1 + out2 =~= seq![a, b]);
    }
}

/// Two 24-bit indices at the same distance from `next` are equal.
pub proof fn lemma_distance_injective(next: u32, k1: u32, k2: u32)
    requires
        next < INDEX_LIMIT,
        k1 < INDEX_LIMIT,
        k2 < INDEX_LIMIT,
        order_distance(next, k1) == order_distance(next, k2),
    ensures
        k1 == k2,
{
    let m = INDEX_LIMIT as int;
    if k1 >= next {
        assert((k1 - next + m) % m == k1 - next);
    } else {
        assert((k1 - next + m) % m == k1 - next + m);
    }
    if k2 >= next {
        assert((k2 - next + m) % m == k2 - next);
    } else {
        assert((k2 - next + m) % m == k2 - next + m);
    }
}

/// Moving the expected index `n` places forward brings a later index `n`
/// places closer.
pub proof fn lemma_distance_shift(next: u32, n: int, k: u32)
    requires
        next < INDEX_LIMIT,
        k < INDEX_LIMIT,
        0 <= n <= order_distance(next, k),
    ensures
        order_distance(index_after(next, n), k) == order_distance(next, k) - n,
{
    let m = INDEX_LIMIT as int;
    let d = order_distance(next, k);
    if k >= next {
        assert((k - next + m) % m == k - next);
    } else {
        assert((k - next + m) % m == k - next + m);
    }
    let w = index_after(next, n);
    if next + n < m {
        assert((next + n) % m == next + n);
    } else {
        assert((next + n) % m == next + n - m);
    }
    if k >= w {
        assert((k - w + m) % m == k - w);
    } else {
        assert((k - w + m) % m == k - w + m);
    }
}

/// Frames of the sequenced and ordered channels waiting for their turn.
pub struct ReceivedQueue {
    next: u32,
    pending: HashMap<u32, Frame>,
}

impl View for ReceivedQueue {
    type V = ReceivedView;

    closed spec fn view(&self) -> ReceivedView {
        ReceivedView { next: self.next, pending: self.pending@.map_values(|f: Frame| f@) }
    }
}

impl ReceivedQueue {
    pub fn new() -> (r: Self)
        ensures
            received_wf(r@),
            r@ == (ReceivedView { next: 0, pending: Map::empty() }),
    {
        let r = ReceivedQueue { next: 0, pending: HashMap::new() };
        assert(r@.pending =~= Map::<u32, FrameView>::empty());
        r
    }

    /// Holds `frame` until its turn, unless it is stale or a repeat.
    pub fn add(&mut self, frame: Frame)
        requires
            received_wf(old(self)@),
        ensures
            received_wf(final(self)@),
            final(self)@ == after_receive(old(self)@, frame@),
    {
        let k = frame.order_index;
        if k < INDEX_LIMIT && (k + INDEX_LIMIT - self.next) % INDEX_LIMIT < ORDER_WINDOW
            && !self.pending.contains_key(&k) {
            let ghost f = frame@;
            self.pending.insert(k, frame);
            assert(self@.pending =~= old(self)@.pending.insert(k, f));
        }
    }

    /// Hands out the held frames from the expected order index on, up to the
    /// first gap.
    pub fn get_all(&mut self) -> (r: Vec<Frame>)
        requires
            received_wf(old(self)@),
        ensures
            received_wf(final(self)@),
            releases(old(self)@, r@.map_values(|f: Frame| f@), final(self)@),
            r@.map_values(|f: Frame| f@) == release_out(old(self)@),
            final(self)@ == release_state(old(self)@),
    {
        let ghost v = self@;
        let mut out: Vec<Frame> = Vec::new();
        loop
            invariant
                received_wf(v),
                self.next < INDEX_LIMIT,
                out@.len() <= ORDER_WINDOW,
                self.next == index_after(v.next, out@.len() as int),
                self@.pending == v.pending.remove_keys(released_keys(v.next, out@.len() as int)),
                forall|k: u32| #[trigger] self@.pending.contains_key(k) ==> order_distance(v.next, k) >= out@.len(),
                forall|j: int| 0 <= j < out@.len() ==> v.pending.contains_key(#[trigger] index_after(v.next, j))
                    && out@[j]@ == v.pending[index_after(v.next, j)],
            ensures
                received_wf(self@),
                releases(v, out@.map_values(|f: Frame| f@), self@),
            decreases self.pending@.len(),
        {
            let key = self.next;
            let ghost n = out@.len() as int;
            proof {
                lemma_distance_after(v.next, n);
                assert(!released_keys(v.next, n).contains(key)) by {
                    if released_keys(v.next, n).contains(key) {
                        let j = choose|j: int| 0 <= j < n && key == #[trigger] index_after(v.next, j);
                        lemma_distance_after(v.next, j);
                    }
                }
            }
            let ghost raw = self.pending@;
            let ghost pre = self@.pending;
            match self.pending.remove(&key) {
                Some(f) => {
                    assert(raw.contains_key(key) && raw[key] == f);
                    assert(pre.contains_key(key) && pre[key] == f@);
                    assert(v.pending.contains_key(key) && v.pending[key] == f@);
                    assert(self@.pending =~= pre.remove(key));
                    assert(n < ORDER_WINDOW);
                    out.push(f);
                    self.next = (self.next + 1) % INDEX_LIMIT;
                    assert(self.next == index_after(v.next, n + 1));
                    assert(released_keys(v.next, n + 1) =~= released_keys(v.next, n).insert(key)) by {
                        assert(key == index_after(v.next, n));
                        assert forall|k: u32| released_keys(v.next, n + 1).contains(k) implies released_keys(v.next, n).insert(key).contains(k) by {
                            let j = choose|j: int| 0 <= j < n + 1 && k == #[trigger] index_after(v.next, j);
                            if j < n {
                                assert(released_keys(v.next, n).contains(k));
                            }
                        }
                    }
                    assert(self@.pending =~= v.pending.remove_keys(released_keys(v.next, n + 1)));
                    assert forall|j: int| 0 <= j < out@.len() implies v.pending.contains_key(#[trigger] index_after(v.next, j))
                        && out@[j]@ == v.pending[index_after(v.next, j)] by {
                        if j == n {
                            assert(index_after(v.next, j) == key);
                        }
                    }
                },
                None => {
                    assert(!raw.contains_key(key));
                    assert(!pre.contains_key(key));
                    assert(!v.pending.contains_key(key));
                    let ghost w = self@;
                    assert(w.pending =~= pre);
                    assert forall|k: u32| #[trigger] w.pending.contains_key(k) implies k < INDEX_LIMIT && is_ahead(w.next, k) by {
                        assert(v.pending.remove_keys(released_keys(v.next, n)).contains_key(k));
                        assert(v.pending.contains_key(k));
                        let d = order_distance(v.next, k);
                        assert(d != n) by {
                            if d == n {
                                lemma_distance_after(v.next, n);
                                assert(k < INDEX_LIMIT);
                                lemma_distance_injective(v.next, k, key);
                            }
                        }
                        lemma_distance_shift(v.next, n, k);
                    }
                    assert(out@.map_values(|f: Frame| f@).len() == out@.len());
                    break;
                },
            }
        }
        proof {
            lemma_release_unique(v, out@.map_values(|f: Frame| f@), self@);
        }
        out
    }
}

} // verus!
