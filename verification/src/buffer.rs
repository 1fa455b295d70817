use std::collections::VecDeque;
use vstd::prelude::*;

verus! {

broadcast use vstd::std_specs::vecdeque::group_vec_dequeue_axioms;

/// A buffered frame with its receive timestamp (unix seconds).
pub struct BufferedFrame {
    pub timestamp: u64,
    pub data: Vec<u8>,
}

impl BufferedFrame {
    /// The frame as a pair of its timestamp and its bytes.
    pub open spec fn view(&self) -> (u64, Seq<u8>) {
        (self.timestamp, self.data@)
    }
}

/// Bounded ring buffer of recent frames, kept for catch-up.
///
/// It holds at most `capacity` frames (one, when the capacity is zero);
/// a push into a full buffer evicts the oldest frame.
pub struct RingBuffer {
    frames: VecDeque<BufferedFrame>,
    capacity: usize,
}

/// Whether a buffered frame is newer than `timestamp`.
pub open spec fn newer_than(timestamp: u64) -> spec_fn((u64, Seq<u8>)) -> bool {
    |f: (u64, Seq<u8>)| f.0 > timestamp
}

/// The most frames a buffer of the given capacity ever holds.
pub open spec fn max_frames(capacity: usize) -> nat {
    if capacity == 0 { 1 } else { capacity as nat }
}

/// The buffer contents after pushing `frame` into `frames` with the given capacity.
pub open spec fn pushed(frames: Seq<(u64, Seq<u8>)>, capacity: usize, frame: (u64, Seq<u8>)) -> Seq<(u64, Seq<u8>)> {
    if frames.len() >= capacity && frames.len() > 0 {
        frames.drop_first().push(frame)
    } else {
        frames.push(frame)
    }
}

/// A buffer never holds more than its capacity allows (one frame when the
/// capacity is zero).
pub proof fn law_buffer_bounded(buf: &RingBuffer)
    requires
        buf.wf(),
    ensures
        buf@.len() <= max_frames(buf.capacity()),
{
}

/// A push keeps the newest frames: the old contents with the new frame
/// appended, less the oldest frame exactly when the buffer was full; the new
/// frame is always kept, last.
pub proof fn law_push_keeps_newest(frames: Seq<(u64, Seq<u8>)>, capacity: usize, frame: (u64, Seq<u8>))
    ensures
        pushed(frames, capacity, frame) == frames.push(frame).skip(
            if frames.len() >= capacity && frames.len() > 0 { 1 } else { 0 },
        ),
        pushed(frames, capacity, frame).last() == frame,
        frames.len() <= max_frames(capacity) ==> pushed(frames, capacity, frame).len() <= max_frames(capacity),
{
    if frames.len() >= capacity && frames.len() > 0 {
        assert(frames.drop_first().push(frame) =~= frames.push(frame).skip(1));
    } else {
        assert(frames.push(frame) =~= frames.push(frame).skip(0));
    }
}

/// A frame pushed with a timestamp newer than `since` is the last frame that a
/// catch-up from `since` returns.
pub proof fn law_catchup_sees_latest(frames: Seq<(u64, Seq<u8>)>, capacity: usize, timestamp: u64, data: Seq<u8>, since: u64)
    requires
        timestamp > since,
    ensures
        pushed(frames, capacity, (timestamp, data)).filter(newer_than(since)).len() > 0,
        pushed(frames, capacity, (timestamp, data)).filter(newer_than(since)).last() == (timestamp, data),
{
    let rest = if frames.len() >= capacity && frames.len() > 0 { frames.drop_first() } else { frames };
    rest.lemma_filter_push((timestamp, data), newer_than(since));
}

/// The buffer contents after pushing each of `items`, in order, into `frames`.
pub open spec fn pushed_all(frames: Seq<(u64, Seq<u8>)>, capacity: usize, items: Seq<(u64, Seq<u8>)>) -> Seq<(u64, Seq<u8>)>
    decreases items.len(),
{
    if items.len() == 0 {
        frames
    } else {
        pushed(pushed_all(frames, capacity, items.drop_last()), capacity, items.last())
    }
}

/// After `n` pushes into an empty buffer it holds `min(n, capacity)` frames
/// (`min(n, 1)` when the capacity is zero).
pub proof fn law_len_after_pushes(capacity: usize, items: Seq<(u64, Seq<u8>)>)
    ensures
        pushed_all(Seq::empty(), capacity, items).len() == if items.len() < max_frames(capacity) {
            items.len()
        } else {
            max_frames(capacity)
        },
    decreases items.len(),
{
    if items.len() > 0 {
        law_len_after_pushes(capacity, items.drop_last());
    }
}

/// Pushing frames one by one into an empty buffer keeps the last
/// `min(n, capacity)` of them (the last one when the capacity is zero), in the
/// order they were pushed; the first of those is the oldest frame held.
pub proof fn law_pushes_keep_last(capacity: usize, items: Seq<(u64, Seq<u8>)>)
    ensures
        pushed_all(Seq::empty(), capacity, items) == items.skip(
            items.len() - if items.len() < max_frames(capacity) { items.len() } else { max_frames(capacity) },
        ),
        items.len() > 0 ==> pushed_all(Seq::empty(), capacity, items)[0] == items[items.len() - if items.len()
            < max_frames(capacity) {
            items.len() as int
        } else {
            max_frames(capacity) as int
        }],
    decreases items.len(),
{
    let n = items.len();
    let m = max_frames(capacity);
    if n > 0 {
        let s = items.drop_last();
        law_pushes_keep_last(capacity, s);
        let k = if s.len() < m { s.len() } else { m };
        let p = pushed_all(Seq::empty(), capacity, s);
        assert(p == s.skip(s.len() - k));
        assert(p.len() == k);
        if p.len() >= capacity && p.len() > 0 {
            assert(p.drop_first().push(items.last()) =~= items.skip(n - m));
        } else {
            assert(s.len() < m);
            assert(p.push(items.last()) =~= items.skip(0));
        }
    } else {
        assert(items.skip(0) =~= Seq::<(u64, Seq<u8>)>::empty());
    }
}

/// A catch-up from `timestamp` returns exactly the buffered frames stamped
/// after it, in buffer order: every frame returned is stamped after
/// `timestamp`, and every buffered frame stamped after it is returned.
pub proof fn law_since_is_newer(frames: Seq<(u64, Seq<u8>)>, timestamp: u64)
    ensures
        frames.filter(newer_than(timestamp)) == frames.filter(|f: (u64, Seq<u8>)| f.0 > timestamp),
        forall|i: int|
            0 <= i < frames.filter(newer_than(timestamp)).len() ==> #[trigger] frames.filter(newer_than(timestamp))[i].0
                > timestamp,
        forall|i: int|
            0 <= i < frames.len() && frames[i].0 > timestamp ==> frames.filter(newer_than(timestamp)).contains(
                #[trigger] frames[i],
            ),
{
    assert(newer_than(timestamp) =~= (|f: (u64, Seq<u8>)| f.0 > timestamp));
    assert forall|i: int| 0 <= i < frames.filter(newer_than(timestamp)).len() implies #[trigger] frames.filter(
        newer_than(timestamp),
    )[i].0 > timestamp by {
        frames.lemma_filter_pred(newer_than(timestamp), i);
    }
    assert forall|i: int| 0 <= i < frames.len() && frames[i].0 > timestamp implies frames.filter(
        newer_than(timestamp),
    ).contains(#[trigger] frames[i]) by {
        frames.lemma_filter_contains(newer_than(timestamp), i);
    }
}

impl RingBuffer {
    /// The buffered frames, oldest first.
    pub closed spec fn view(&self) -> Seq<(u64, Seq<u8>)> {
        self.frames@.map_values(|f: BufferedFrame| f@)
    }

    /// The capacity the buffer was made with.
    pub closed spec fn capacity(&self) -> usize {
        self.capacity
    }

    /// Well-formedness: the buffer never holds more than `max_frames(capacity)` frames.
    pub closed spec fn wf(&self) -> bool {
        self.frames@.len() <= max_frames(self.capacity)
    }

    /// Timestamp of the oldest buffered frame, or 0 if empty.
    pub open spec fn spec_oldest_timestamp(&self) -> u64 {
        if self@.len() == 0 { 0 } else { self@[0].0 }
    }

    /// Creates an empty buffer that keeps at most `capacity` frames.
    pub fn new(capacity: usize) -> (buf: Self)
        ensures
            buf@ == Seq::<(u64, Seq<u8>)>::empty(),
            buf.capacity() == capacity,
            buf.wf(),
    {
        let hint = if capacity < 1024 { capacity } else { 1024 };
        let buf = RingBuffer { frames: VecDeque::with_capacity(hint), capacity };
        assert(buf@ =~= Seq::<(u64, Seq<u8>)>::empty());
        buf
    }

    /// Pushes a frame into the buffer, evicting the oldest if full.
    pub fn push(&mut self, data: Vec<u8>, timestamp: u64)
        requires
            old(self).wf(),
        ensures
            final(self).wf(),
            final(self)@ == pushed(old(self)@, old(self).capacity(), (timestamp, data@)),
            final(self).capacity() == old(self).capacity(),
    {
        let ghost before = self@;
        if self.frames.len() >= self.capacity {
            let _ = self.frames.pop_front();
            proof {
                if before.len() > 0 {
                    assert(self@ =~= before.drop_first());
                }
            }
        }
        let ghost mid = self@;
        self.frames.push_back(BufferedFrame { timestamp, data });
        assert(self@ =~= mid.push((timestamp, data@)));
    }

    /// The frames newer than the given timestamp, oldest first.
    pub fn since(&self, timestamp: u64) -> (frames: Vec<&BufferedFrame>)
        ensures
            frames@.map_values(|f: &BufferedFrame| f@) == self@.filter(newer_than(timestamp)),
    {
        let n = self.frames.len();
        let mut out: Vec<&BufferedFrame> = Vec::new();
        let ghost all = self@;
        for i in 0..n
            invariant
                n == self.frames@.len(),
                all == self@,
                out@.map_values(|f: &BufferedFrame| f@) == all.take(i as int).filter(newer_than(timestamp)),
        {
            reveal_with_fuel(Seq::filter, 1);
            let f = &self.frames[i];
            let ghost prev = out@;
            if f.timestamp > timestamp {
                out.push(f);
                assert(out@.map_values(|f: &BufferedFrame| f@) =~= prev.map_values(|f: &BufferedFrame| f@).push(f@));
            }
            assert(all.take(i + 1).drop_last() =~= all.take(i as int));
        }
        assert(all.take(n as int) =~= all);
        out
    }

    /// Timestamp of the oldest buffered frame, or 0 if empty.
    pub fn oldest_timestamp(&self) -> (ts: u64)
        ensures
            ts == self.spec_oldest_timestamp(),
    {
        if self.frames.len() == 0 {
            0
        } else {
            self.frames[0].timestamp
        }
    }

    /// The number of buffered frames.
    pub fn len(&self) -> (n: usize)
        ensures
            n == self@.len(),
    {
        self.frames.len()
    }
}

} // verus!
