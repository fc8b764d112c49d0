//! Reassembly of messages that arrive as fragments.
use vstd::prelude::*;
use vstd::set_lib::lemma_subset_equality;
use std::collections::HashMap;
use crate::frame::{Frame, FrameView, Reliability};

verus! {

broadcast use vstd::std_specs::hash::group_hash_axioms;

/// The state of one fragmented message: how many fragments it has, the class
/// and order index of the whole, and the payloads received so far by index.
pub struct SplitView {
    pub split_size: u32,
    pub reliability: Reliability,
    pub order_index: u32,
    pub parts: Map<u32, Seq<u8>>,
}

/// Only indices below the fragment count are held.
pub open spec fn split_wf(v: SplitView) -> bool {
    &&& v.parts.dom().finite()
    &&& forall|i: u32| #[trigger] v.parts.dom().contains(i) ==> i < v.split_size
}

/// As many distinct fragments as the message has are present.
pub open spec fn split_full(v: SplitView) -> bool {
    v.parts.dom().len() == v.split_size
}

/// Every fragment index of the message is present.
pub open spec fn split_complete(v: SplitView) -> bool {
    forall|i: u32| i < v.split_size ==> #[trigger] v.parts.dom().contains(i)
}

/// The state after fragment `index` with `payload` arrives; an index beyond
/// the count is ignored.
pub open spec fn with_part(v: SplitView, index: u32, payload: Seq<u8>) -> SplitView {
    if index < v.split_size {
        SplitView {
            split_size: v.split_size,
            reliability: v.reliability,
            order_index: v.order_index,
            parts: v.parts.insert(index, payload),
        }
    } else {
        v
    }
}

/// The payloads of fragments `0 .. n` joined in index order.
pub open spec fn joined(parts: Map<u32, Seq<u8>>, n: nat) -> Seq<u8>
    decreases n,
{
    if n == 0 {
        Seq::empty()
    } else {
        joined(parts, (n - 1) as nat) + parts[(n - 1) as u32]
    }
}

/// The first `n` payloads of `ps` joined in order.
pub open spec fn joined_seq(ps: Seq<Seq<u8>>, n: nat) -> Seq<u8>
    decreases n,
{
    if n == 0 {
        Seq::empty()
    } else {
        joined_seq(ps, (n - 1) as nat) + ps[n - 1]
    }
}

/// The numbers below `n`.
pub open spec fn below(n: u32) -> Set<u32> {
    Set::new(|i: u32| i < n)
}

pub proof fn lemma_below_len(n: u32)
    ensures
        below(n).finite(),
        below(n).len() == n,
    decreases n,
{
    if n == 0 {
        assert(below(0) =~= Set::empty());
    } else {
        lemma_below_len((n - 1) as u32);
        assert(below((n - 1) as u32).insert((n - 1) as u32) =~= below(n));
    }
}

/// For a well-formed fragment set, holding as many fragments as the count
/// is the same as holding every index below it.
pub proof fn lemma_full_iff_complete(v: SplitView)
    requires
        split_wf(v),
    ensures
        split_full(v) <==> split_complete(v),
{
    lemma_below_len(v.split_size);
    let d = v.parts.dom();
    assert(d.subset_of(below(v.split_size)));
    if split_complete(v) {
        assert(d =~= below(v.split_size));
    }
    if split_full(v) {
        lemma_subset_equality(d, below(v.split_size));
        assert forall|i: u32| i < v.split_size implies #[trigger] d.contains(i) by {
            assert(below(v.split_size).contains(i));
        }
    }
}

/// One message's fragments gathered so far.
pub struct SplitPacket {
    split_size: u32,
    data: HashMap<u32, Frame>,
    reliability: Reliability,
    order_index: u32,
}

impl View for SplitPacket {
    type V = SplitView;

    closed spec fn view(&self) -> SplitView {
        SplitView {
            split_size: self.split_size,
            reliability: self.reliability,
            order_index: self.order_index,
            parts: self.data@.map_values(|f: Frame| f.data@),
        }
    }
}

/// Appends `bytes` to `out`.
fn append(out: &mut Vec<u8>, bytes: &Vec<u8>)
    ensures
        final(out)@ == old(out)@ + bytes@,
{
    let ghost start = out@;
    let mut i: usize = 0;
    while i < bytes.len()
        invariant
            i <= bytes@.len(),
            out@ == start + bytes@.subrange(0, i as int),
        decreases bytes@.len() - i,
    {
        out.push(bytes[i]);
        i = i + 1;
        assert(out@ =~= start + bytes@.subrange(0, i as int));
    }
    assert(bytes@.subrange(0, bytes@.len() as int) =~= bytes@);
}

impl SplitPacket {
    pub fn new(split_size: u32, order_index: u32, reliability: Reliability) -> (r: Self)
        ensures
            split_wf(r@),
            r@ == (SplitView { split_size, reliability, order_index, parts: Map::empty() }),
    {
        let r = SplitPacket { split_size, data: HashMap::new(), reliability, order_index };
        assert(r@.parts =~= Map::<u32, Seq<u8>>::empty());
        r
    }

    /// Stores fragment `index`; an index beyond the count is ignored.
    pub fn add(&mut self, index: u32, payload: Frame)
        requires
            split_wf(old(self)@),
        ensures
            split_wf(final(self)@),
            final(self)@ == with_part(old(self)@, index, payload.data@),
    {
        if index < self.split_size {
            let ghost d = payload.data@;
            self.data.insert(index, payload);
            assert(self@.parts =~= old(self)@.parts.insert(index, d));
        }
    }

    /// All fragments have arrived.
    pub fn is_full(&self) -> (r: bool)
        requires
            split_wf(self@),
        ensures
            r == split_full(self@),
            r == split_complete(self@),
    {
        proof {
            lemma_full_iff_complete(self@);
            assert(self@.parts.dom() =~= self.data@.dom());
        }
        self.data.len() as u64 == self.split_size as u64
    }

    /// The fragments' payloads joined in index order.
    pub fn get_all(&self) -> (r: Vec<u8>)
        requires
            split_wf(self@),
            split_full(self@),
        ensures
            r@ == joined(self@.parts, self@.split_size as nat),
    {
        proof {
            lemma_full_iff_complete(self@);
        }
        let mut ret: Vec<u8> = Vec::new();
        let mut index: u32 = 0;
        while index < self.split_size
            invariant
                index <= self.split_size,
                split_complete(self@),
                ret@ == joined(self@.parts, index as nat),
            decreases self.split_size - index,
        {
            assert(self@.parts.dom().contains(index));
            let part = self.data.get(&index);
            match part {
                Some(f) => {
                    append(&mut ret, &f.data);
                },
                None => {
                    assert(false);
                },
            }
            index = index + 1;
        }
        ret
    }

    /// The reassembled message as one frame with the class and order index
    /// of its fragments.
    pub fn get_frame(&self) -> (r: Frame)
        requires
            split_wf(self@),
            split_full(self@),
        ensures
            r@ == (FrameView {
                reliability: self@.reliability,
                message_index: 0,
                sequence_index: 0,
                order_index: self@.order_index,
                split: false,
                split_count: 0,
                split_index: 0,
                split_id: 0,
                data: joined(self@.parts, self@.split_size as nat),
            }),
    {
        let mut frame = Frame::new(self.reliability, self.get_all());
        frame.order_index = self.order_index;
        frame
    }
}


/// The fragment set that the frames `order[0..]` leave, fragment `i` carrying
/// `payloads[i]`, starting from `v`.
pub open spec fn add_all(v: SplitView, order: Seq<u32>, payloads: Seq<Seq<u8>>) -> SplitView
    decreases order.len(),
{
    if order.len() == 0 {
        v
    } else {
        with_part(add_all(v, order.drop_last(), payloads), order.last(), payloads[order.last() as int])
    }
}

/// Whatever order the `n` distinct fragments of a message arrive in, the
/// set is then full and reassembles to the payloads joined in index order.
pub proof fn lemma_reassembly(start: SplitView, order: Seq<u32>, payloads: Seq<Seq<u8>>)
    requires
        start.parts == Map::<u32, Seq<u8>>::empty(),
        order.len() == start.split_size,
        payloads.len() == start.split_size,
        forall|j: int| 0 <= j < order.len() ==> #[trigger] order[j] < start.split_size,
        forall|j: int, k: int| 0 <= j < k < order.len() ==> order[j] != order[k],
    ensures
        split_wf(add_all(start, order, payloads)),
        split_full(add_all(start, order, payloads)),
        joined(add_all(start, order, payloads).parts, start.split_size as nat) == joined_seq(
            payloads,
            start.split_size as nat,
        ),
{
    lemma_add_all(start, order, payloads);
    let v = add_all(start, order, payloads);
    lemma_full_iff_complete(v);
    lemma_joined(v.parts, payloads, start.split_size as nat);
}

proof fn lemma_add_all(start: SplitView, order: Seq<u32>, payloads: Seq<Seq<u8>>)
    requires
        start.parts == Map::<u32, Seq<u8>>::empty(),
        payloads.len() == start.split_size,
        order.len() <= start.split_size,
        forall|j: int| 0 <= j < order.len() ==> #[trigger] order[j] < start.split_size,
        forall|j: int, k: int| 0 <= j < k < order.len() ==> order[j] != order[k],
    ensures
        ({
            let v = add_all(start, order, payloads);
            &&& split_wf(v)
            &&& v.split_size == start.split_size
            &&& v.parts.dom().len() == order.len()
            &&& forall|i: u32| #[trigger] v.parts.dom().contains(i) ==> v.parts[i] == payloads[i as int]
            &&& forall|j: int| 0 <= j < order.len() ==> v.parts.dom().contains(#[trigger] order[j])
            &&& forall|i: u32| #[trigger] v.parts.dom().contains(i) ==> exists|j: int| 0 <= j < order.len() && order[j] == i
        }),
    decreases order.len(),
{
    if order.len() > 0 {
        let rest = order.drop_last();
        lemma_add_all(start, rest, payloads);
        let u = add_all(start, rest, payloads);
        let x = order.last();
        assert(!u.parts.dom().contains(x)) by {
            if u.parts.dom().contains(x) {
                let j = choose|j: int| 0 <= j < rest.len() && rest[j] == x;
                assert(rest[j] == order[j]);
                assert(order[j] == order[order.len() - 1]);
            }
        }
        let v = add_all(start, order, payloads);
        assert forall|i: u32| #[trigger] v.parts.dom().contains(i) implies exists|j: int| 0 <= j < order.len() && order[j] == i by {
            if i == x {
                assert(order[order.len() - 1] == i);
            } else {
                let j = choose|j: int| 0 <= j < rest.len() && rest[j] == i;
                assert(order[j] == i);
            }
        }
        assert forall|j: int| 0 <= j < order.len() implies add_all(start, order, payloads).parts.dom().contains(
            #[trigger] order[j],
        ) by {
            if j < rest.len() {
                assert(rest[j] == order[j]);
            }
        }
    } else {
        assert(start.parts.dom() =~= Set::<u32>::empty());
    }
}

proof fn lemma_joined(parts: Map<u32, Seq<u8>>, payloads: Seq<Seq<u8>>, n: nat)
    requires
        n <= payloads.len(),
        n <= u32::MAX,
        forall|i: u32| i < n ==> #[trigger] parts.dom().contains(i),
        forall|i: u32| #[trigger] parts.dom().contains(i) ==> parts[i] == payloads[i as int],
    ensures
        joined(parts, n) == joined_seq(payloads, n),
    decreases n,
{
    if n > 0 {
        lemma_joined(parts, payloads, (n - 1) as nat);
        assert(parts.dom().contains((n - 1) as u32));
    }
}

/// The fragment sets of the messages being reassembled, in the order their
/// first fragments arrived, each under its split id.
pub struct SplitPacketQueue {
    pool: Vec<(u16, SplitPacket)>,
}

/// The fragment set that a queue holds under `id`, if any.
pub open spec fn find_split(q: Seq<(u16, SplitView)>, id: u16) -> Option<int> {
    if exists|k: int| 0 <= k < q.len() && #[trigger] q[k].0 == id {
        Some(choose|k: int| 0 <= k < q.len() && #[trigger] q[k].0 == id)
    } else {
        None
    }
}

/// The queue after fragment `f` arrives: it joins the set of its split id,
/// which is created from the fragment's count, class and order index when
/// it is the first of its message.
pub open spec fn queue_after_add(q: Seq<(u16, SplitView)>, f: FrameView) -> Seq<(u16, SplitView)> {
    match find_split(q, f.split_id) {
        Some(k) => q.update(k, (f.split_id, with_part(q[k].1, f.split_index, f.data))),
        None => q.push(
            (
                f.split_id,
                with_part(
                    SplitView {
                        split_size: f.split_count,
                        reliability: f.reliability,
                        order_index: f.order_index,
                        parts: Map::empty(),
                    },
                    f.split_index,
                    f.data,
                ),
            ),
        ),
    }
}

/// The complete fragment sets of `q`, in order.
pub open spec fn full_splits(q: Seq<(u16, SplitView)>) -> Seq<SplitView>
    decreases q.len(),
{
    if q.len() == 0 {
        Seq::empty()
    } else if split_full(q.last().1) {
        full_splits(q.drop_last()).push(q.last().1)
    } else {
        full_splits(q.drop_last())
    }
}

/// Every fragment set that [`full_splits`] lists is full.
pub proof fn lemma_full_splits_full(q: Seq<(u16, SplitView)>)
    ensures
        forall|k: int| 0 <= k < full_splits(q).len() ==> split_full(#[trigger] full_splits(q)[k]),
    decreases q.len(),
{
    if q.len() > 0 {
        lemma_full_splits_full(q.drop_last());
        let r = full_splits(q.drop_last());
        assert forall|k: int| 0 <= k < full_splits(q).len() implies split_full(#[trigger] full_splits(q)[k]) by {
            if k < r.len() {
                assert(full_splits(q)[k] == r[k]);
            }
        }
    }
}

/// The incomplete fragment sets of `q`, in order.
pub open spec fn open_splits(q: Seq<(u16, SplitView)>) -> Seq<(u16, SplitView)>
    decreases q.len(),
{
    if q.len() == 0 {
        Seq::empty()
    } else if split_full(q.last().1) {
        open_splits(q.drop_last())
    } else {
        open_splits(q.drop_last()).push(q.last())
    }
}

/// Split ids are distinct and each fragment set is well formed.
pub open spec fn split_queue_wf(q: Seq<(u16, SplitView)>) -> bool {
    &&& forall|j: int, k: int| 0 <= j < k < q.len() ==> q[j].0 != q[k].0
    &&& forall|k: int| 0 <= k < q.len() ==> split_wf(#[trigger] q[k].1)
}

proof fn lemma_open_splits_wf(q: Seq<(u16, SplitView)>)
    requires
        split_queue_wf(q),
    ensures
        split_queue_wf(open_splits(q)),
        forall|k: int| 0 <= k < open_splits(q).len() ==> exists|j: int| 0 <= j < q.len() && q[j] == #[trigger] open_splits(q)[k],
    decreases q.len(),
{
    if q.len() > 0 {
        let r = q.drop_last();
        assert(split_queue_wf(r)) by {
            assert forall|k: int| 0 <= k < r.len() implies split_wf(#[trigger] r[k].1) by {
                assert(r[k] == q[k]);
            }
        }
        lemma_open_splits_wf(r);
        let o = open_splits(r);
        assert forall|k: int| 0 <= k < o.len() implies exists|j: int| 0 <= j < q.len() && q[j] == #[trigger] o[k] by {
            let j = choose|j: int| 0 <= j < r.len() && r[j] == o[k];
            assert(q[j] == o[k]);
        }
        if !split_full(q.last().1) {
            let n = open_splits(q);
            assert forall|j: int, k: int| 0 <= j < k < n.len() implies n[j].0 != n[k].0 by {
                if k == n.len() - 1 {
                    let i = choose|i: int| 0 <= i < r.len() && r[i] == o[j];
                    assert(q[i] == o[j]);
                }
            }
            assert forall|k: int| 0 <= k < n.len() implies exists|j: int| 0 <= j < q.len() && q[j] == #[trigger] n[k] by {
                if k == n.len() - 1 {
                    assert(q[q.len() - 1] == n[k]);
                } else {
                    assert(n[k] == o[k]);
                }
            }
        }
    }
}

impl View for SplitPacketQueue {
    type V = Seq<(u16, SplitView)>;

    closed spec fn view(&self) -> Seq<(u16, SplitView)> {
        self.pool@.map_values(|e: (u16, SplitPacket)| (e.0, e.1@))
    }
}

impl Default for SplitPacketQueue {
    fn default() -> (r: Self)
        ensures
            r@ == Seq::<(u16, SplitView)>::empty(),
    {
        Self::new()
    }
}

impl SplitPacketQueue {
    pub fn new() -> (r: Self)
        ensures
            r@ == Seq::<(u16, SplitView)>::empty(),
    {
        let r = SplitPacketQueue { pool: Vec::new() };
        assert(r@ =~= Seq::<(u16, SplitView)>::empty());
        r
    }

    /// Files a fragment under its split id.
    pub fn add(&mut self, frame: Frame)
        requires
            split_queue_wf(old(self)@),
        ensures
            split_queue_wf(final(self)@),
            final(self)@ == queue_after_add(old(self)@, frame@),
    {
        let ghost q = self@;
        let ghost f = frame@;
        let mut k: usize = 0;
        let mut found = false;
        while k < self.pool.len() && !found
            invariant
                self@ == q,
                k <= self.pool@.len(),
                found ==> k < self.pool@.len() && q[k as int].0 == f.split_id,
                !found ==> forall|j: int| 0 <= j < k ==> #[trigger] q[j].0 != f.split_id,
                f == frame@,
            decreases self.pool@.len() - k + (if found {
                0int
            } else {
                1int
            }),
        {
            if self.pool[k].0 == frame.split_id {
                found = true;
            } else {
                k = k + 1;
            }
        }
        if found {
            assert(q[k as int].0 == f.split_id);
            assert(find_split(q, f.split_id) == Some(k as int)) by {
                let c = choose|c: int| 0 <= c < q.len() && #[trigger] q[c].0 == f.split_id;
                assert(c == k as int);
            }
            assert(split_wf(q[k as int].1));
            let mut entry = self.pool.remove(k);
            assert((entry.0, entry.1@) == q[k as int]);
            let ghost before = entry.1@;
            entry.1.add(frame.split_index, frame);
            self.pool.insert(k, entry);
            assert(self@ =~= q.update(k as int, (f.split_id, with_part(before, f.split_index, f.data))));
        } else {
            assert(find_split(q, f.split_id) is None);
            let mut bucket = SplitPacket::new(frame.split_count, frame.order_index, frame.reliability);
            let id = frame.split_id;
            bucket.add(frame.split_index, frame);
            self.pool.push((id, bucket));
            assert(self@ =~= queue_after_add(q, f));
        }
    }

    /// Takes out the fragment sets that are complete, in arrival order.
    pub fn get_and_clear(&mut self) -> (r: Vec<SplitPacket>)
        requires
            split_queue_wf(old(self)@),
        ensures
            split_queue_wf(final(self)@),
            r@.map_values(|p: SplitPacket| p@) == full_splits(old(self)@),
            forall|k: int| 0 <= k < r@.len() ==> split_wf(#[trigger] r@[k]@),
            final(self)@ == open_splits(old(self)@),
    {
        let ghost q = self@;
        let mut ret: Vec<SplitPacket> = Vec::new();
        let mut keep: Vec<(u16, SplitPacket)> = Vec::new();
        let mut old_pool: Vec<(u16, SplitPacket)> = Vec::new();
        std::mem::swap(&mut old_pool, &mut self.pool);
        let ghost total = q.len();
        assert(old_pool@.map_values(|e: (u16, SplitPacket)| (e.0, e.1@)) =~= q.subrange(0, total as int));
        while old_pool.len() > 0
            invariant
                split_queue_wf(q),
                old_pool@.len() <= total,
                total == q.len(),
                old_pool@.map_values(|e: (u16, SplitPacket)| (e.0, e.1@)) == q.subrange(total - old_pool@.len(), total as int),
                ret@.map_values(|p: SplitPacket| p@) == full_splits(q.subrange(0, total - old_pool@.len())),
                keep@.map_values(|e: (u16, SplitPacket)| (e.0, e.1@)) == open_splits(q.subrange(0, total - old_pool@.len())),
                forall|k: int| 0 <= k < ret@.len() ==> split_wf(#[trigger] ret@[k]@),
            decreases old_pool@.len(),
        {
            let ghost i = total - old_pool@.len();
            let ghost before = old_pool@;
            let e = old_pool.remove(0);
            assert((e.0, e.1@) == q[i]) by {
                assert(before.map_values(|e: (u16, SplitPacket)| (e.0, e.1@))[0] == q.subrange(i, total as int)[0]);
            }
            assert(split_wf(q[i].1));
            assert(q.subrange(0, i + 1).drop_last() =~= q.subrange(0, i));
            assert(q.subrange(0, i + 1).last() == q[i]);
            let ghost ret_before = ret@.map_values(|p: SplitPacket| p@);
            let ghost keep_before = keep@.map_values(|e: (u16, SplitPacket)| (e.0, e.1@));
            if e.1.is_full() {
                ret.push(e.1);
                assert(ret@.map_values(|p: SplitPacket| p@) =~= ret_before.push(q[i].1));
                assert(keep@.map_values(|e: (u16, SplitPacket)| (e.0, e.1@)) =~= keep_before);
            } else {
                keep.push(e);
                assert(keep@.map_values(|e: (u16, SplitPacket)| (e.0, e.1@)) =~= keep_before.push(q[i]));
                assert(ret@.map_values(|p: SplitPacket| p@) =~= ret_before);
            }
            assert(old_pool@ =~= before.subrange(1, before.len() as int));
            assert forall|j: int| 0 <= j < old_pool@.len() implies (old_pool@[j].0, old_pool@[j].1@) == q[i + 1 + j] by {
                assert(old_pool@[j] == before[j + 1]);
                assert(before.map_values(|e: (u16, SplitPacket)| (e.0, e.1@))[j + 1] == q.subrange(i, total as int)[j + 1]);
            }
            assert(old_pool@.map_values(|e: (u16, SplitPacket)| (e.0, e.1@)) =~= q.subrange(total - old_pool@.len(), total as int));
        }
        assert(q.subrange(0, total as int) =~= q);
        proof {
            lemma_open_splits_wf(q);
        }
        self.pool = keep;
        ret
    }
}

} // verus!
