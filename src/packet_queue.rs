//! The outbound pipeline: batching frames into frame sets, numbering them,
//! and keeping each reliable frame set until it is acknowledged, with a
//! retransmission timer.
use vstd::prelude::*;
use crate::frame::{
    frame_header_len, frame_set_wf, frame_views, frame_wf, Frame, FrameSet, FrameSetView, FrameView,
    INDEX_LIMIT,
};

verus! {

/// Marks a datagram that carries frames.
pub const DATAGRAM_FLAG: u8 = 0x80;

/// Set on every frame set that this side sends.
pub const NEEDS_B_AND_AS_FLAG: u8 = 0x04;

/// Set on a frame set that carries a fragment.
pub const CONTINUOUS_SEND_FLAG: u8 = 0x08;

/// Space of a datagram taken up by everything but the frames.
pub const DATAGRAM_OVERHEAD: u16 = 42;

/// Milliseconds after which an unacknowledged frame set goes out again.
pub const RESEND_AFTER_MS: u64 = 1000;

/// A stored frame set: its sequence number, its content, when its timer
/// started (milliseconds) and whether it has been handed out since.
pub struct EntryView {
    pub seq: u32,
    pub set: FrameSetView,
    pub sent_at: u64,
    pub dispatched: bool,
}

/// The queue's state.
pub struct QueueView {
    pub entries: Seq<EntryView>,
    pub max: u32,
    pub resend: Seq<u32>,
    pub batch: Seq<FrameView>,
    pub batch_size: nat,
    pub mtu: u16,
}

/// Room for frames in one datagram.
pub open spec fn batch_limit(mtu: u16) -> nat {
    if mtu > DATAGRAM_OVERHEAD {
        (mtu - DATAGRAM_OVERHEAD) as nat
    } else {
        0
    }
}

/// The next sequence number after `n`, modulo 2^24.
pub open spec fn next_seq(n: u32) -> u32 {
    ((n + 1) % (INDEX_LIMIT as int)) as u32
}

/// Stores `set` under the next sequence number, its timer started at `now`.
pub open spec fn store(q: QueueView, header: u8, frames: Seq<FrameView>, now: u64) -> QueueView {
    QueueView {
        entries: q.entries.push(
            EntryView {
                seq: q.max,
                set: FrameSetView { header, sequence_number: q.max, frames },
                sent_at: now,
                dispatched: false,
            },
        ),
        max: next_seq(q.max),
        ..q
    }
}

/// Turns the pending batch, if any, into a stored frame set.
pub open spec fn seal(q: QueueView, now: u64) -> QueueView {
    if q.batch.len() == 0 {
        q
    } else {
        QueueView {
            batch: Seq::empty(),
            batch_size: 0,
            ..store(q, DATAGRAM_FLAG | NEEDS_B_AND_AS_FLAG, q.batch, now)
        }
    }
}

/// Where frame set `key` is stored, or -1.
pub open spec fn entry_index(s: Seq<EntryView>, key: u32) -> int
    decreases s.len(),
{
    if s.len() == 0 {
        -1
    } else if s.last().seq == key {
        s.len() - 1
    } else {
        entry_index(s.drop_last(), key)
    }
}

/// The queue after frame `f` is queued at `now`: a small frame joins the
/// batch; a fragment, or a frame that would overflow the batch, goes alone
/// into a frame set of its own, after the batch is sealed.
pub open spec fn after_add_frame(q: QueueView, f: FrameView, len: nat, now: u64) -> QueueView {
    if q.batch_size + len < batch_limit(q.mtu) && !f.split {
        QueueView { batch: q.batch.push(f), batch_size: q.batch_size + len, ..q }
    } else {
        store(
            seal(q, now),
            if f.split {
                DATAGRAM_FLAG | NEEDS_B_AND_AS_FLAG | CONTINUOUS_SEND_FLAG
            } else {
                DATAGRAM_FLAG | NEEDS_B_AND_AS_FLAG
            },
            seq![f],
            now,
        )
    }
}

/// The queue after frame set `key` is acknowledged: it is dropped.
pub open spec fn after_ack(q: QueueView, key: u32) -> QueueView {
    let k = entry_index(q.entries, key);
    if k >= 0 {
        QueueView { entries: q.entries.remove(k), ..q }
    } else {
        q
    }
}

/// The queue after frame set `key` is queued for sending again at `now`:
/// it moves to the next sequence number with a fresh timer. Nothing
/// happens when it is no longer stored.
pub open spec fn after_move(q: QueueView, key: u32, now: u64) -> QueueView {
    let k = entry_index(q.entries, key);
    if k >= 0 {
        let e = q.entries[k];
        QueueView {
            entries: q.entries.remove(k).push(
                EntryView {
                    seq: q.max,
                    set: FrameSetView { sequence_number: q.max, ..e.set },
                    sent_at: now,
                    dispatched: false,
                },
            ),
            max: next_seq(q.max),
            ..q
        }
    } else {
        q
    }
}

/// Moving each of `keys` in turn.
pub open spec fn after_moves(q: QueueView, keys: Seq<u32>, now: u64) -> QueueView
    decreases keys.len(),
{
    if keys.len() == 0 {
        q
    } else {
        after_move(after_moves(q, keys.drop_last(), now), keys.last(), now)
    }
}

/// Moving frame sets keeps the MTU.
pub proof fn lemma_moves_keep_mtu(q: QueueView, keys: Seq<u32>, now: u64)
    ensures
        after_moves(q, keys, now).mtu == q.mtu,
    decreases keys.len(),
{
    if keys.len() > 0 {
        lemma_moves_keep_mtu(q, keys.drop_last(), now);
    }
}

/// The stored frame sets whose timer has run out at `now`: handed out, and
/// started more than [`RESEND_AFTER_MS`] before.
pub open spec fn due(s: Seq<EntryView>, now: u64) -> Seq<u32>
    decreases s.len(),
{
    if s.len() == 0 {
        Seq::empty()
    } else if s.last().dispatched && now - s.last().sent_at > RESEND_AFTER_MS {
        due(s.drop_last(), now).push(s.last().seq)
    } else {
        due(s.drop_last(), now)
    }
}

/// The queue after a timer tick at `now`: the batch is sealed and the
/// frame sets whose timer ran out are listed for sending again.
pub open spec fn after_tick(q: QueueView, now: u64) -> QueueView {
    let r = seal(q, now);
    QueueView { resend: r.resend + due(r.entries, now), ..r }
}

/// The stored frame sets not yet handed out, in order.
pub open spec fn undispatched(s: Seq<EntryView>) -> Seq<FrameSetView>
    decreases s.len(),
{
    if s.len() == 0 {
        Seq::empty()
    } else if !s.last().dispatched {
        undispatched(s.drop_last()).push(s.last().set)
    } else {
        undispatched(s.drop_last())
    }
}

/// Every stored frame set marked as handed out; the ones not handed out
/// before start their timer at `now`.
pub open spec fn dispatch_all(s: Seq<EntryView>, now: u64) -> Seq<EntryView> {
    s.map_values(
        |e: EntryView|
            if e.dispatched {
                e
            } else {
                EntryView { dispatched: true, sent_at: now, ..e }
            },
    )
}

/// The frame sets and the batch are well formed and numbers are 24-bit.
pub open spec fn queue_wf(q: QueueView) -> bool {
    &&& q.max < INDEX_LIMIT
    &&& q.batch_size < 0x1_0000
    &&& forall|i: int| 0 <= i < q.entries.len() ==> frame_set_wf(#[trigger] q.entries[i].set)
    &&& forall|i: int| 0 <= i < q.batch.len() ==> frame_wf(#[trigger] q.batch[i])
}

/// An acknowledged frame set is never sent again: once acknowledged it is
/// no longer stored, so no later timer lists it and moving it does nothing.
pub proof fn lemma_acked_not_resent(q: QueueView, key: u32, now: u64)
    requires
        forall|i: int, j: int| 0 <= i < j < q.entries.len() ==> q.entries[i].seq != q.entries[j].seq,
    ensures
        entry_index(after_ack(q, key).entries, key) == -1,
        after_move(after_ack(q, key), key, now) == after_ack(q, key),
        !due(after_ack(q, key).entries, now).contains(key),
{
    lemma_entry_index(q.entries, key);
    let a = after_ack(q, key).entries;
    let k = entry_index(q.entries, key);
    assert forall|i: int| 0 <= i < a.len() implies #[trigger] a[i].seq != key by {
        if k >= 0 {
            if i < k {
                assert(a[i] == q.entries[i]);
            } else {
                assert(a[i] == q.entries[i + 1]);
            }
        }
    }
    lemma_absent_index(a, key);
    lemma_due_members(a, now);
}

/// A frame set is listed for sending again only when it was handed out and
/// its timer started more than [`RESEND_AFTER_MS`] before; sending it again
/// restarts the timer, so it goes out at most once per that period.
pub proof fn lemma_due_spacing(s: Seq<EntryView>, now: u64)
    ensures
        forall|i: int| 0 <= i < due(s, now).len() ==> exists|k: int| 0 <= k < s.len() && s[k].seq == #[trigger] due(s, now)[i]
            && s[k].dispatched && now - s[k].sent_at > RESEND_AFTER_MS,
    decreases s.len(),
{
    if s.len() > 0 {
        lemma_due_spacing(s.drop_last(), now);
        let d = due(s, now);
        let r = due(s.drop_last(), now);
        assert forall|i: int| 0 <= i < d.len() implies exists|k: int| 0 <= k < s.len() && s[k].seq == #[trigger] d[i]
            && s[k].dispatched && now - s[k].sent_at > RESEND_AFTER_MS by {
            if i < r.len() {
                let k = choose|k: int| 0 <= k < s.drop_last().len() && s.drop_last()[k].seq == #[trigger] r[i]
                    && s.drop_last()[k].dispatched && now - s.drop_last()[k].sent_at > RESEND_AFTER_MS;
                assert(s[k] == s.drop_last()[k]);
            } else {
                assert(s[s.len() - 1].seq == d[i]);
            }
        }
    }
}

/// A frame set handed out at `t0` is not listed for sending again before
/// [`RESEND_AFTER_MS`] have passed since: the timer of every frame set that
/// a hand-out marks starts at that moment.
pub proof fn lemma_no_early_resend(s: Seq<EntryView>, t0: u64, now: u64)
    requires
        forall|i: int, j: int| 0 <= i < j < s.len() ==> s[i].seq != s[j].seq,
        t0 <= now,
        now - t0 <= RESEND_AFTER_MS,
    ensures
        forall|i: int| 0 <= i < s.len() && !s[i].dispatched ==> !due(dispatch_all(s, t0), now).contains(
            #[trigger] s[i].seq,
        ),
{
    let d = dispatch_all(s, t0);
    lemma_due_spacing(d, now);
    assert forall|i: int| 0 <= i < s.len() && !s[i].dispatched implies !due(d, now).contains(#[trigger] s[i].seq) by {
        if due(d, now).contains(s[i].seq) {
            let x = choose|x: int| 0 <= x < due(d, now).len() && due(d, now)[x] == s[i].seq;
            let k = choose|k: int| 0 <= k < d.len() && d[k].seq == #[trigger] due(d, now)[x] && d[k].dispatched
                && now - d[k].sent_at > RESEND_AFTER_MS;
            assert(d[k].seq == s[k].seq);
            assert(k == i);
        }
    }
}

proof fn lemma_due_members(s: Seq<EntryView>, now: u64)
    ensures
        forall|x: u32| #[trigger] due(s, now).contains(x) ==> exists|k: int| 0 <= k < s.len() && s[k].seq == x,
    decreases s.len(),
{
    if s.len() > 0 {
        lemma_due_members(s.drop_last(), now);
        assert forall|x: u32| #[trigger] due(s, now).contains(x) implies exists|k: int| 0 <= k < s.len() && s[k].seq == x by {
            let d = due(s, now);
            let i = choose|i: int| 0 <= i < d.len() && d[i] == x;
            let r = due(s.drop_last(), now);
            if i < r.len() {
                assert(r.contains(x));
                let k = choose|k: int| 0 <= k < s.drop_last().len() && s.drop_last()[k].seq == x;
                assert(s[k] == s.drop_last()[k]);
            } else {
                assert(s[s.len() - 1].seq == x);
            }
        }
    }
}

proof fn lemma_entry_index(s: Seq<EntryView>, key: u32)
    ensures
        -1 <= entry_index(s, key) < s.len(),
        entry_index(s, key) >= 0 ==> s[entry_index(s, key)].seq == key,
        entry_index(s, key) == -1 ==> forall|i: int| 0 <= i < s.len() ==> #[trigger] s[i].seq != key,
    decreases s.len(),
{
    if s.len() > 0 {
        lemma_entry_index(s.drop_last(), key);
        if s.last().seq != key {
            assert forall|i: int| 0 <= i < s.len() && entry_index(s, key) == -1 implies #[trigger] s[i].seq != key by {
                if i < s.len() - 1 {
                    assert(s[i] == s.drop_last()[i]);
                }
            }
        }
    }
}

proof fn lemma_absent_index(s: Seq<EntryView>, key: u32)
    requires
        forall|i: int| 0 <= i < s.len() ==> #[trigger] s[i].seq != key,
    ensures
        entry_index(s, key) == -1,
    decreases s.len(),
{
    if s.len() > 0 {
        assert(s[s.len() - 1].seq != key);
        assert forall|i: int| 0 <= i < s.drop_last().len() implies #[trigger] s.drop_last()[i].seq != key by {
            assert(s.drop_last()[i] == s[i]);
        }
        lemma_absent_index(s.drop_last(), key);
    }
}


/// A stored frame set with its timer.
struct Pending {
    sequence: u32,
    set: FrameSet,
    sent_at: u64,
    dispatched: bool,
}

spec fn entry_view(p: Pending) -> EntryView {
    EntryView { seq: p.sequence, set: p.set@, sent_at: p.sent_at, dispatched: p.dispatched }
}

spec fn entry_views(s: Seq<Pending>) -> Seq<EntryView> {
    s.map_values(|p: Pending| entry_view(p))
}

/// Outbound frame sets awaiting acknowledgement, and the batch of frames
/// that will make up the next one.
pub struct PacketQueue {
    entries: Vec<Pending>,
    max: u32,
    resend: Vec<u32>,
    set_size: usize,
    set_queue: Vec<Frame>,
    mtu: u16,
}

impl View for PacketQueue {
    type V = QueueView;

    closed spec fn view(&self) -> QueueView {
        QueueView {
            entries: entry_views(self.entries@),
            max: self.max,
            resend: self.resend@,
            batch: frame_views(self.set_queue@),
            batch_size: self.set_size as nat,
            mtu: self.mtu,
        }
    }
}

impl PacketQueue {
    pub fn new(mtu: u16) -> (r: Self)
        ensures
            queue_wf(r@),
            r@ == (QueueView {
                entries: Seq::empty(),
                max: 0,
                resend: Seq::empty(),
                batch: Seq::empty(),
                batch_size: 0,
                mtu,
            }),
    {
        let r = PacketQueue {
            entries: Vec::new(),
            max: 0,
            resend: Vec::new(),
            set_size: 0,
            set_queue: Vec::new(),
            mtu,
        };
        assert(r@.entries =~= Seq::<EntryView>::empty());
        assert(r@.batch =~= Seq::<FrameView>::empty());
        r
    }

    /// Stores frames as a frame set under the next sequence number.
    fn store(&mut self, header: u8, datas: Vec<Frame>, now: u64)
        requires
            queue_wf(old(self)@),
            forall|i: int| 0 <= i < datas@.len() ==> frame_wf(#[trigger] frame_views(datas@)[i]),
        ensures
            queue_wf(final(self)@),
            final(self)@ == store(old(self)@, header, frame_views(datas@), now),
    {
        let ghost frames = frame_views(datas@);
        let set = FrameSet { header, sequence_number: self.max, datas };
        assert(set@.frames == frames);
        assert forall|j: int| 0 <= j < frames.len() implies frame_wf(#[trigger] frames[j]) by {
            assert(frame_wf(frame_views(datas@)[j]));
        }
        self.add(set, now);
    }

    /// Stores a frame set that carries the next sequence number; any other
    /// frame set is ignored.
    pub fn add(&mut self, frame_set: FrameSet, now: u64)
        requires
            queue_wf(old(self)@),
            frame_set_wf(frame_set@),
        ensures
            queue_wf(final(self)@),
            frame_set.sequence_number == old(self)@.max ==> final(self)@ == (QueueView {
                entries: old(self)@.entries.push(
                    EntryView { seq: old(self)@.max, set: frame_set@, sent_at: now, dispatched: false },
                ),
                max: next_seq(old(self)@.max),
                ..old(self)@
            }),
            frame_set.sequence_number != old(self)@.max ==> final(self)@ == old(self)@,
    {
        if frame_set.sequence_number == self.max {
            let ghost before = entry_views(self.entries@);
            let ghost v = frame_set@;
            self.entries.push(Pending { sequence: self.max, set: frame_set, sent_at: now, dispatched: false });
            self.max = (self.max + 1) % INDEX_LIMIT;
            assert(entry_views(self.entries@) =~= before.push(
                EntryView { seq: old(self)@.max, set: v, sent_at: now, dispatched: false },
            ));
            assert forall|i: int| 0 <= i < self@.entries.len() implies frame_set_wf(#[trigger] self@.entries[i].set) by {
                if i < before.len() {
                    assert(self@.entries[i] == old(self)@.entries[i]);
                }
            }
        }
    }

    /// Seals the batch, if any, into a stored frame set.
    fn seal(&mut self, now: u64)
        requires
            queue_wf(old(self)@),
        ensures
            queue_wf(final(self)@),
            final(self)@ == seal(old(self)@, now),
    {
        if self.set_queue.len() > 0 {
            let mut batch: Vec<Frame> = Vec::new();
            std::mem::swap(&mut batch, &mut self.set_queue);
            self.set_size = 0;
            assert(self@.batch =~= Seq::<FrameView>::empty());
            assert(self.entries@ == old(self).entries@);
            assert(self@.entries == old(self)@.entries);
            assert(self@.max == old(self)@.max);
            assert(queue_wf(self@));
            assert(frame_views(batch@) == old(self)@.batch);
            self.store(DATAGRAM_FLAG | NEEDS_B_AND_AS_FLAG, batch, now);
            assert(self@.batch =~= Seq::<FrameView>::empty());
        }
    }

    /// Queues a frame at time `now` (milliseconds).
    pub fn add_frame(&mut self, frame: Frame, now: u64)
        requires
            queue_wf(old(self)@),
            frame_wf(frame@),
        ensures
            queue_wf(final(self)@),
            final(self)@ == after_add_frame(
                old(self)@,
                frame@,
                (frame_header_len(frame.reliability, frame.split) + frame@.data.len()) as nat,
                now,
            ),
    {
        let len = frame.length();
        let limit: usize = if self.mtu > DATAGRAM_OVERHEAD {
            (self.mtu - DATAGRAM_OVERHEAD) as usize
        } else {
            0
        };
        if self.set_size + len < limit && !frame.split {
            let ghost before = frame_views(self.set_queue@);
            let ghost f = frame@;
            self.set_size = self.set_size + len;
            self.set_queue.push(frame);
            assert(frame_views(self.set_queue@) =~= before.push(f));
        } else {
            let header = if frame.split {
                DATAGRAM_FLAG | NEEDS_B_AND_AS_FLAG | CONTINUOUS_SEND_FLAG
            } else {
                DATAGRAM_FLAG | NEEDS_B_AND_AS_FLAG
            };
            self.seal(now);
            let mut single: Vec<Frame> = Vec::new();
            let ghost f = frame@;
            single.push(frame);
            assert(frame_views(single@) =~= seq![f]);
            self.store(header, single, now);
        }
    }

    /// Where frame set `key` is stored.
    fn find(&self, key: u32) -> (r: Option<usize>)
        ensures
            match r {
                Some(k) => k == entry_index(self@.entries, key),
                None => entry_index(self@.entries, key) == -1,
            },
    {
        let mut i: usize = self.entries.len();
        assert(self@.entries.take(i as int) =~= self@.entries);
        while i > 0
            invariant
                i <= self.entries@.len(),
                entry_index(self@.entries, key) == entry_index(self@.entries.take(i as int), key),
            decreases i,
        {
            let ghost t = self@.entries.take(i as int);
            if self.entries[i - 1].sequence == key {
                assert(t.last().seq == key);
                return Some(i - 1);
            }
            assert(t.drop_last() =~= self@.entries.take(i - 1));
            i = i - 1;
        }
        None
    }

    /// Acknowledgement of frame set `sequence`: it is dropped.
    pub fn received(&mut self, sequence: u32)
        requires
            queue_wf(old(self)@),
        ensures
            queue_wf(final(self)@),
            final(self)@ == after_ack(old(self)@, sequence),
    {
        proof {
            lemma_entry_index(self@.entries, sequence);
        }
        match self.find(sequence) {
            Some(k) => {
                let ghost before = entry_views(self.entries@);
                self.entries.remove(k);
                assert(entry_views(self.entries@) =~= before.remove(k as int));
                assert forall|i: int| 0 <= i < self@.entries.len() implies frame_set_wf(#[trigger] self@.entries[i].set) by {
                    if i < k {
                        assert(self@.entries[i] == before[i]);
                    } else {
                        assert(self@.entries[i] == before[i + 1]);
                    }
                }
                assert(self@.batch == old(self)@.batch);
            },
            None => {},
        }
    }

    /// Moves frame set `key`, if still stored, to the next sequence number
    /// with its timer restarted at `now`.
    fn move_to_end(&mut self, key: u32, now: u64)
        requires
            queue_wf(old(self)@),
        ensures
            queue_wf(final(self)@),
            final(self)@ == after_move(old(self)@, key, now),
    {
        proof {
            lemma_entry_index(self@.entries, key);
        }
        match self.find(key) {
            Some(k) => {
                let ghost before = entry_views(self.entries@);
                let ghost e = before[k as int];
                assert(frame_set_wf(e.set));
                let mut p = self.entries.remove(k);
                p.set.sequence_number = self.max;
                p.sequence = self.max;
                p.sent_at = now;
                p.dispatched = false;
                let ghost pv = entry_view(p);
                self.entries.push(p);
                self.max = (self.max + 1) % INDEX_LIMIT;
                assert(entry_views(self.entries@) =~= before.remove(k as int).push(pv));
                assert forall|i: int| 0 <= i < self@.entries.len() implies frame_set_wf(#[trigger] self@.entries[i].set) by {
                    if i < k {
                        assert(self@.entries[i] == before[i]);
                    } else if i < before.len() - 1 {
                        assert(self@.entries[i] == before[i + 1]);
                    } else {
                        assert(self@.entries[i] == pv);
                        assert(pv.set.frames == e.set.frames);
                        assert(forall|j: int| 0 <= j < e.set.frames.len() ==> frame_wf(#[trigger] e.set.frames[j]));
                    }
                }
                assert(self@.batch == old(self)@.batch);
            },
            None => {},
        }
    }

    /// Negative acknowledgement of frame set `index`: it goes out again
    /// under the next sequence number.
    pub fn resend(&mut self, index: u32, now: u64)
        requires
            queue_wf(old(self)@),
        ensures
            queue_wf(final(self)@),
            final(self)@ == after_move(old(self)@, index, now),
    {
        self.move_to_end(index, now);
    }

    /// Timer tick at `now`: seals the batch and lists the frame sets whose
    /// timer ran out.
    pub fn tick(&mut self, now: u64)
        requires
            queue_wf(old(self)@),
        ensures
            queue_wf(final(self)@),
            final(self)@ == after_tick(old(self)@, now),
    {
        self.seal(now);
        let ghost start = self@;
        let mut i: usize = 0;
        while i < self.entries.len()
            invariant
                queue_wf(self@),
                i <= self.entries@.len(),
                self@.entries == start.entries,
                self@.max == start.max,
                self@.batch == start.batch,
                self@.batch_size == start.batch_size,
                self@.mtu == start.mtu,
                self@.resend == start.resend + due(start.entries.take(i as int), now),
            decreases self.entries@.len() - i,
        {
            let ghost t = start.entries.take(i + 1);
            assert(t.drop_last() =~= start.entries.take(i as int));
            assert(t.last() == start.entries[i as int]);
            if self.entries[i].dispatched && now >= self.entries[i].sent_at && now - self.entries[i].sent_at > RESEND_AFTER_MS {
                let key = self.entries[i].sequence;
                self.resend.push(key);
                assert(self@.resend =~= start.resend + due(t, now));
            } else {
                assert(self@.resend =~= start.resend + due(t, now));
            }
            i = i + 1;
        }
        assert(start.entries.take(self.entries@.len() as int) =~= start.entries);
    }

    /// Moves every frame set listed by the timer to a new sequence number.
    pub fn readd(&mut self, now: u64)
        requires
            queue_wf(old(self)@),
        ensures
            queue_wf(final(self)@),
            final(self)@ == (QueueView {
                resend: Seq::empty(),
                ..after_moves(old(self)@, old(self)@.resend, now)
            }),
    {
        let mut keys: Vec<u32> = Vec::new();
        std::mem::swap(&mut keys, &mut self.resend);
        let ghost q0 = QueueView { resend: Seq::empty(), ..old(self)@ };
        assert(self@ == q0);
        let mut i: usize = 0;
        while i < keys.len()
            invariant
                queue_wf(self@),
                i <= keys@.len(),
                keys@ == old(self)@.resend,
                self@ == (QueueView { resend: Seq::empty(), ..after_moves(old(self)@, keys@.take(i as int), now) }),
            decreases keys@.len() - i,
        {
            let ghost t = keys@.take(i + 1);
            assert(t.drop_last() =~= keys@.take(i as int));
            self.move_to_end(keys[i], now);
            i = i + 1;
        }
        assert(keys@.take(keys@.len() as int) =~= keys@);
    }

    /// Runs the timer at `now`, moves the frame sets it lists, and hands out
    /// every frame set not handed out yet, in order, marking them handed out
    /// and starting their timer at `now`.
    pub fn get_packet(&mut self, now: u64) -> (r: Vec<FrameSet>)
        requires
            queue_wf(old(self)@),
        ensures
            queue_wf(final(self)@),
            ({
                let t = after_tick(old(self)@, now);
                let m = after_moves(t, t.resend, now);
                &&& r@.map_values(|s: FrameSet| s@) == undispatched(m.entries)
                &&& final(self)@ == (QueueView { entries: dispatch_all(m.entries, now), resend: Seq::empty(), ..m })
            }),
            forall|i: int| 0 <= i < r@.len() ==> frame_set_wf(#[trigger] r@[i]@),
    {
        self.tick(now);
        self.readd(now);
        let ghost m = self@;
        let mut rest: Vec<Pending> = Vec::new();
        std::mem::swap(&mut rest, &mut self.entries);
        let ghost total = m.entries.len();
        assert(entry_views(rest@) =~= m.entries.subrange(0, total as int));
        let mut out: Vec<FrameSet> = Vec::new();
        while rest.len() > 0
            invariant
                queue_wf(m),
                total == m.entries.len(),
                rest@.len() <= total,
                entry_views(rest@) == m.entries.subrange(total - rest@.len(), total as int),
                entry_views(self.entries@) == dispatch_all(m.entries.subrange(0, total - rest@.len()), now),
                out@.map_values(|s: FrameSet| s@) == undispatched(m.entries.subrange(0, total - rest@.len())),
                forall|i: int| 0 <= i < out@.len() ==> frame_set_wf(#[trigger] out@[i]@),
                self.max == m.max,
                self.resend@ == m.resend,
                frame_views(self.set_queue@) == m.batch,
                self.set_size == m.batch_size,
                self.mtu == m.mtu,
            decreases rest@.len(),
        {
            let ghost i = total - rest@.len();
            let ghost before = rest@;
            let mut p = rest.remove(0);
            assert(entry_view(p) == m.entries[i]) by {
                assert(entry_views(before)[0] == m.entries.subrange(i, total as int)[0]);
            }
            assert(frame_set_wf(m.entries[i].set));
            assert(m.entries.subrange(0, i + 1).drop_last() =~= m.entries.subrange(0, i));
            assert(m.entries.subrange(0, i + 1).last() == m.entries[i]);
            let ghost out_before = out@.map_values(|s: FrameSet| s@);
            if !p.dispatched {
                let copy = p.set.duplicate();
                out.push(copy);
                p.sent_at = now;
                assert(out@.map_values(|s: FrameSet| s@) =~= out_before.push(m.entries[i].set));
            } else {
                assert(out@.map_values(|s: FrameSet| s@) =~= out_before);
            }
            p.dispatched = true;
            let ghost done_before = entry_views(self.entries@);
            self.entries.push(p);
            assert(entry_views(self.entries@) =~= done_before.push(entry_view(p)));
            assert(dispatch_all(m.entries.subrange(0, i + 1), now) =~= dispatch_all(m.entries.subrange(0, i), now).push(entry_view(p)));
            assert(rest@ =~= before.subrange(1, before.len() as int));
            assert forall|j: int| 0 <= j < rest@.len() implies entry_view(rest@[j]) == m.entries[i + 1 + j] by {
                assert(rest@[j] == before[j + 1]);
                assert(entry_views(before)[j + 1] == m.entries.subrange(i, total as int)[j + 1]);
            }
            assert(entry_views(rest@) =~= m.entries.subrange(total - rest@.len(), total as int));
        }
        assert(m.entries.subrange(0, total as int) =~= m.entries);
        assert forall|i: int| 0 <= i < self@.entries.len() implies frame_set_wf(#[trigger] self@.entries[i].set) by {
            assert(self@.entries[i].set == m.entries[i].set);
        }
        out
    }
}

} // verus!
