use crate::layout::{block_window, offset_of, BlockWindow, BLOCK_WIDTH, WIDTH};
use crate::store::{block_record, lemma_block_inside_file, DbError};
use vstd::prelude::*;

verus! {

/// A read that was handed to the ring and has not completed yet.
#[derive(Clone, Copy, Debug, PartialEq, Eq, Structural)]
pub struct InFlight {
    /// The caller's correlation tag.
    pub tag: u64,
    /// The key whose record is read.
    pub key: u64,
    /// The block that is read and the record's place in it.
    pub window: BlockWindow,
}

/// What the caller hands to the ring for one submitted read: read `len` bytes
/// at `offset` into the buffer of `slot`, and mark the request with `slot`.
#[derive(Clone, Copy, Debug, PartialEq, Eq, Structural)]
pub struct ReadDescriptor {
    pub slot: u64,
    pub offset: u64,
    pub len: u64,
}

/// A harvested read: the request's tag and key, and what the read gave.
#[derive(Clone, Copy, Debug)]
pub struct Completion {
    pub tag: u64,
    pub key: u64,
    pub value: Result<u64, DbError>,
}

/// The number of occupied slots.
pub open spec fn count_in_flight(s: Seq<Option<InFlight>>) -> nat
    decreases s.len(),
{
    if s.len() == 0 {
        0
    } else {
        count_in_flight(s.drop_last()) + if s.last() is Some {
            1nat
        } else {
            0nat
        }
    }
}

/// The slots after the completion of the request in `slot`.
pub open spec fn release(s: Seq<Option<InFlight>>, slot: int) -> Seq<Option<InFlight>> {
    s.update(slot, None)
}

/// The slots after the completions of the requests in `order`, in that order.
pub open spec fn release_all(s: Seq<Option<InFlight>>, order: Seq<int>) -> Seq<Option<InFlight>>
    decreases order.len(),
{
    if order.len() == 0 {
        s
    } else {
        release(release_all(s, order.drop_last()), order.last())
    }
}

/// The request that a read of `key` with `tag` places in a slot.
pub open spec fn request_of(tag: u64, key: u64) -> InFlight {
    InFlight { tag, key, window: BlockWindow::of_offset(offset_of(key as int)) }
}

/// Tracks the reads in flight on a completion ring of fixed depth. Each slot
/// owns one block buffer of the caller's, and a slot holds at most one request
/// from submission to completion, so no buffer is reused while the kernel may
/// still write into it.
pub struct RingDriver {
    slots: Vec<Option<InFlight>>,
    outstanding: usize,
    records: u64,
}

impl View for RingDriver {
    type V = Seq<Option<InFlight>>;

    closed spec fn view(&self) -> Seq<Option<InFlight>> {
        self.slots@
    }
}

impl RingDriver {
    /// The number of records in the file that the ring reads.
    pub closed spec fn spec_records(&self) -> u64 {
        self.records
    }

    pub closed spec fn wf(&self) -> bool {
        &&& self.outstanding == count_in_flight(self.slots@)
        &&& self.records * WIDTH <= u64::MAX
        &&& (self.records * WIDTH) % BLOCK_WIDTH as int == 0
        &&& forall|j: int|
            0 <= j < self.slots@.len() && #[trigger] self.slots@[j] is Some ==> {
                &&& self.slots@[j]->Some_0.window.is_aligned()
                &&& self.slots@[j]->Some_0.key < self.records
            }
    }

    /// A ring of `depth` empty slots over a file of `file_len` bytes; the
    /// length must be a whole number of blocks.
    pub fn new(depth: usize, file_len: u64) -> (r: Result<RingDriver, DbError>)
        ensures
            file_len % BLOCK_WIDTH == 0 <==> r is Ok,
            r matches Ok(d) ==> d.wf() && d@ == Seq::new(depth as nat, |i: int| None::<InFlight>)
                && d.spec_records() == file_len / WIDTH,
            file_len % BLOCK_WIDTH != 0 ==> r == Err::<RingDriver, DbError>(
                DbError::Misaligned { len: file_len },
            ),
    {
        if file_len % BLOCK_WIDTH != 0 {
            return Err(DbError::Misaligned { len: file_len });
        }
        let mut slots: Vec<Option<InFlight>> = Vec::with_capacity(depth);
        let mut i: usize = 0;
        while i < depth
            invariant
                i <= depth,
                slots@ == Seq::new(i as nat, |j: int| None::<InFlight>),
                count_in_flight(slots@) == 0,
            decreases depth - i,
        {
            let ghost before = slots@;
            slots.push(None);
            proof {
                assert(slots@.drop_last() =~= before);
            }
            i = i + 1;
            assert(slots@ =~= Seq::new(i as nat, |j: int| None::<InFlight>));
        }
        Ok(RingDriver { slots, outstanding: 0, records: file_len / WIDTH })
    }

    /// The queue depth: the number of slots.
    pub fn depth(&self) -> (r: usize)
        ensures
            r == self@.len(),
    {
        self.slots.len()
    }

    /// The number of reads submitted and not yet completed.
    pub fn in_flight(&self) -> (r: usize)
        requires
            self.wf(),
        ensures
            r == count_in_flight(self@),
    {
        self.outstanding
    }

    /// No read is outstanding: the buffers may be released and the file closed.
    pub fn is_idle(&self) -> (r: bool)
        requires
            self.wf(),
        ensures
            r == (count_in_flight(self@) == 0),
    {
        self.outstanding == 0
    }

    /// Places a read of `key` marked with `tag` in the lowest free slot and
    /// returns what to hand to the ring. A key past the file's end is a range
    /// error; a ring whose slots are all taken refuses with a capacity error
    /// and stays as it was.
    pub fn submit(&mut self, tag: u64, key: u64) -> (r: Result<ReadDescriptor, DbError>)
        requires
            old(self).wf(),
        ensures
            final(self).wf(),
            final(self).spec_records() == old(self).spec_records(),
            key >= old(self).spec_records() ==> r == Err::<ReadDescriptor, DbError>(
                DbError::OutOfRange { key, records: old(self).spec_records() },
            ),
            key < old(self).spec_records() && count_in_flight(old(self)@) == old(self)@.len()
                ==> r == Err::<ReadDescriptor, DbError>(
                DbError::Capacity { depth: old(self)@.len() as u64 },
            ),
            r is Err ==> final(self)@ == old(self)@,
            key < old(self).spec_records() && count_in_flight(old(self)@) < old(self)@.len()
                ==> r is Ok,
            r matches Ok(d) ==> {
                &&& 0 <= d.slot < old(self)@.len()
                &&& old(self)@[d.slot as int] is None
                &&& forall|j: int| 0 <= j < d.slot ==> #[trigger] old(self)@[j] is Some
                &&& final(self)@ == old(self)@.update(d.slot as int, Some(request_of(tag, key)))
                &&& count_in_flight(final(self)@) == count_in_flight(old(self)@) + 1
                &&& d.offset == request_of(tag, key).window.block_offset
                &&& d.len == BLOCK_WIDTH
                &&& d.offset % BLOCK_WIDTH == 0
                &&& d.offset + BLOCK_WIDTH <= old(self).spec_records() * WIDTH
            },
    {
        if key >= self.records {
            return Err(DbError::OutOfRange { key, records: self.records });
        }
        let n: usize = self.slots.len();
        if self.outstanding == n {
            return Err(DbError::Capacity { depth: n as u64 });
        }
        let mut i: usize = 0;
        while i < n && self.slots[i].is_some()
            invariant
                i <= n,
                n == self.slots@.len(),
                forall|j: int| 0 <= j < i ==> #[trigger] self.slots@[j] is Some,
            decreases n - i,
        {
            i = i + 1;
        }
        if i == n {
            proof {
                lemma_all_occupied(self.slots@);
            }
        }
        let window = block_window(key);
        proof {
            lemma_block_inside_file(self.records as int, key as int);
            lemma_count_update(self.slots@, i as int, Some(request_of(tag, key)));
            lemma_count_bounds(self.slots@);
        }
        let req = InFlight { tag, key, window };
        self.slots.set(i, Some(req));
        self.outstanding = self.outstanding + 1;
        Ok(ReadDescriptor { slot: i as u64, offset: window.block_offset, len: BLOCK_WIDTH })
    }

    /// Submits a read for each `(tag, key)` of `requests`, in order, and
    /// returns the descriptors to hand to the ring. It stops at the first
    /// request that is refused, and returns that refusal beside the
    /// descriptors of the requests before it, which stay in flight. The whole
    /// batch is accepted exactly when every key is in range and the free slots
    /// suffice; the requests then occupy distinct slots that were free, and no
    /// other slot changes.
    pub fn submit_batch(&mut self, requests: &Vec<(u64, u64)>) -> (r: (
        Vec<ReadDescriptor>,
        Result<(), DbError>,
    ))
        requires
            old(self).wf(),
        ensures
            final(self).wf(),
            final(self).spec_records() == old(self).spec_records(),
            final(self)@.len() == old(self)@.len(),
            r.0@.len() <= requests@.len(),
            r.1 is Ok <==> r.0@.len() == requests@.len(),
            r.1 is Ok <==> (forall|i: int|
                0 <= i < requests@.len() ==> #[trigger] requests@[i].1 < old(self).spec_records())
                && count_in_flight(old(self)@) + requests@.len() <= old(self)@.len(),
            count_in_flight(final(self)@) == count_in_flight(old(self)@) + r.0@.len(),
            forall|i: int|
                0 <= i < r.0@.len() ==> {
                    &&& 0 <= #[trigger] r.0@[i].slot < old(self)@.len()
                    &&& old(self)@[r.0@[i].slot as int] is None
                    &&& final(self)@[r.0@[i].slot as int] == Some(
                        request_of(requests@[i].0, requests@[i].1),
                    )
                    &&& r.0@[i].offset == request_of(
                        requests@[i].0,
                        requests@[i].1,
                    ).window.block_offset
                    &&& r.0@[i].len == BLOCK_WIDTH
                },
            forall|i: int, j: int|
                0 <= i < j < r.0@.len() ==> #[trigger] r.0@[i].slot != #[trigger] r.0@[j].slot,
            forall|j: int|
                0 <= j < old(self)@.len() && (forall|i: int|
                    0 <= i < r.0@.len() ==> #[trigger] r.0@[i].slot != j) ==> final(self)@[j]
                    == old(self)@[j],
            r.1 matches Err(e) ==> {
                let (tag, key) = requests@[r.0@.len() as int];
                ||| key >= old(self).spec_records() && e == DbError::OutOfRange {
                    key,
                    records: old(self).spec_records(),
                }
                ||| key < old(self).spec_records() && count_in_flight(final(self)@)
                    == old(self)@.len() && e == DbError::Capacity { depth: old(self)@.len() as u64 }
            },
    {
        let ghost start = self@;
        let mut descs: Vec<ReadDescriptor> = Vec::new();
        let mut k: usize = 0;
        while k < requests.len()
            invariant
                self.wf(),
                self.spec_records() == old(self).spec_records(),
                self@.len() == start.len(),
                start == old(self)@,
                k <= requests@.len(),
                descs@.len() == k,
                count_in_flight(self@) == count_in_flight(start) + k,
                forall|i: int| 0 <= i < k ==> #[trigger] requests@[i].1 < old(self).spec_records(),
                forall|i: int|
                    0 <= i < k ==> {
                        &&& 0 <= #[trigger] descs@[i].slot < start.len()
                        &&& start[descs@[i].slot as int] is None
                        &&& self@[descs@[i].slot as int] == Some(
                            request_of(requests@[i].0, requests@[i].1),
                        )
                        &&& descs@[i].offset == request_of(
                            requests@[i].0,
                            requests@[i].1,
                        ).window.block_offset
                        &&& descs@[i].len == BLOCK_WIDTH
                    },
                forall|i: int, j: int|
                    0 <= i < j < k ==> #[trigger] descs@[i].slot != #[trigger] descs@[j].slot,
                forall|j: int|
                    0 <= j < start.len() && (forall|i: int|
                        0 <= i < k ==> #[trigger] descs@[i].slot != j) ==> self@[j] == start[j],
            decreases requests@.len() - k,
        {
            let (tag, key) = requests[k];
            let ghost before = self@;
            match self.submit(tag, key) {
                Ok(d) => {
                    proof {
                        assert forall|i: int| 0 <= i < k implies descs@[i].slot != d.slot by {
                            assert(before[descs@[i].slot as int] is Some);
                        }
                        assert(start[d.slot as int] is None) by {
                            if exists|i: int| 0 <= i < k && descs@[i].slot == d.slot {
                                let i = choose|i: int| 0 <= i < k && descs@[i].slot == d.slot;
                                assert(before[descs@[i].slot as int] is Some);
                            }
                        }
                    }
                    let ghost prev = descs@;
                    descs.push(d);
                    k = k + 1;
                    proof {
                        assert forall|j: int|
                            0 <= j < start.len() && (forall|i: int|
                                0 <= i < k ==> #[trigger] descs@[i].slot != j) implies self@[j]
                            == start[j] by {
                            assert(descs@[k - 1].slot != j);
                            assert forall|i: int| 0 <= i < k - 1 implies #[trigger] prev[i].slot
                                != j by {
                                assert(prev[i] == descs@[i]);
                                assert(descs@[i].slot != j);
                            }
                            assert(before[j] == start[j]);
                        }
                    }
                },
                Err(e) => {
                    proof {
                        lemma_count_bounds(self@);
                        if key < old(self).spec_records() {
                            assert(count_in_flight(self@) == start.len());
                            assert(requests@.len() > k);
                        }
                    }
                    return (descs, Err(e));
                },
            }
        }
        proof {
            lemma_count_bounds(self@);
        }
        (descs, Ok(()))
    }

    /// Harvests the completion marked with `slot`, whose read returned
    /// `result` (bytes transferred, or a negated error code) into `block`, the
    /// slot's buffer. The completion is matched to its request by the slot
    /// alone, whatever order completions arrive in, and the slot is freed. A
    /// mark that names no outstanding request is refused and changes nothing.
    pub fn complete(&mut self, slot: u64, result: i32, block: &[u8]) -> (r: Result<
        Completion,
        DbError,
    >)
        requires
            old(self).wf(),
            block@.len() == BLOCK_WIDTH,
        ensures
            final(self).wf(),
            final(self).spec_records() == old(self).spec_records(),
            (slot >= old(self)@.len() || old(self)@[slot as int] is None) ==> r == Err::<
                Completion,
                DbError,
            >(DbError::UnknownCompletion { slot }) && final(self)@ == old(self)@,
            (slot < old(self)@.len() && old(self)@[slot as int] is Some) ==> {
                let req = old(self)@[slot as int]->Some_0;
                &&& r == Ok::<Completion, DbError>(
                    Completion {
                        tag: req.tag,
                        key: req.key,
                        value: if result < 0 {
                            Err(DbError::Io { code: (-result) as i64 })
                        } else {
                            block_record(block@, req.window, result as int)
                        },
                    },
                )
                &&& final(self)@ == release(old(self)@, slot as int)
                &&& count_in_flight(final(self)@) + 1 == count_in_flight(old(self)@)
            },
    {
        let n: usize = self.slots.len();
        if slot >= n as u64 {
            return Err(DbError::UnknownCompletion { slot });
        }
        let s: usize = slot as usize;
        match self.slots[s] {
            None => Err(DbError::UnknownCompletion { slot }),
            Some(req) => {
                proof {
                    lemma_count_update(self.slots@, s as int, None);
                }
                self.slots.set(s, None);
                self.outstanding = self.outstanding - 1;
                let value = if result < 0 {
                    Err(DbError::Io { code: -(result as i64) })
                } else {
                    crate::store::decode_block(block, req.window, result as usize)
                };
                Ok(Completion { tag: req.tag, key: req.key, value })
            },
        }
    }
}

/// When every slot is occupied, the count of outstanding requests is the depth.
pub proof fn lemma_all_occupied(s: Seq<Option<InFlight>>)
    requires
        forall|j: int| 0 <= j < s.len() ==> #[trigger] s[j] is Some,
    ensures
        count_in_flight(s) == s.len(),
    decreases s.len(),
{
    if s.len() > 0 {
        let t = s.drop_last();
        assert forall|j: int| 0 <= j < t.len() implies #[trigger] t[j] is Some by {
            assert(s[j] is Some);
        }
        lemma_all_occupied(t);
    }
}

/// The outstanding requests never outnumber the slots.
pub proof fn lemma_count_bounds(s: Seq<Option<InFlight>>)
    ensures
        count_in_flight(s) <= s.len(),
    decreases s.len(),
{
    if s.len() > 0 {
        lemma_count_bounds(s.drop_last());
    }
}

/// Filling a free slot adds one outstanding request; freeing an occupied one
/// removes one.
pub proof fn lemma_count_update(s: Seq<Option<InFlight>>, i: int, x: Option<InFlight>)
    requires
        0 <= i < s.len(),
    ensures
        count_in_flight(s.update(i, x)) + (if s[i] is Some {
            1int
        } else {
            0int
        }) == count_in_flight(s) + (if x is Some {
            1int
        } else {
            0int
        }),
    decreases s.len(),
{
    let u = s.update(i, x);
    if i < s.len() - 1 {
        assert(u.drop_last() =~= s.drop_last().update(i, x));
        lemma_count_update(s.drop_last(), i, x);
    } else {
        assert(u.drop_last() =~= s.drop_last());
    }
}

/// After the completions of the slots in `order`, exactly those slots are
/// free and every other slot is as it was.
pub proof fn lemma_release_all_frees(s: Seq<Option<InFlight>>, order: Seq<int>)
    requires
        forall|i: int| 0 <= i < order.len() ==> 0 <= #[trigger] order[i] < s.len(),
    ensures
        release_all(s, order).len() == s.len(),
        forall|j: int|
            0 <= j < s.len() ==> #[trigger] release_all(s, order)[j] == (if order.contains(j) {
                None
            } else {
                s[j]
            }),
    decreases order.len(),
{
    if order.len() > 0 {
        let rest = order.drop_last();
        assert forall|i: int| 0 <= i < rest.len() implies 0 <= #[trigger] rest[i] < s.len() by {
            assert(rest[i] == order[i]);
        }
        lemma_release_all_frees(s, rest);
        assert forall|j: int| 0 <= j < s.len() implies #[trigger] release_all(s, order)[j] == (
        if order.contains(j) {
            None
        } else {
            s[j]
        }) by {
            if j == order.last() {
                assert(order.contains(j));
            } else {
                if rest.contains(j) {
                    let k = choose|k: int| 0 <= k < rest.len() && rest[k] == j;
                    assert(order[k] == j);
                }
                if order.contains(j) {
                    let k = choose|k: int| 0 <= k < order.len() && order[k] == j;
                    assert(k != order.len() - 1);
                    assert(rest[k] == j);
                }
            }
        }
    }
}

/// Completions are matched to their requests by slot, not by the order they
/// arrive in: whatever order the slots in `order` complete in, each completion
/// finds the very request that was placed in its slot, and afterwards exactly
/// those slots are free.
pub proof fn lemma_any_completion_order(s: Seq<Option<InFlight>>, order: Seq<int>)
    requires
        order.no_duplicates(),
        forall|i: int| 0 <= i < order.len() ==> 0 <= #[trigger] order[i] < s.len(),
    ensures
        forall|i: int|
            0 <= i < order.len() ==> #[trigger] release_all(s, order.take(i))[order[i]]
                == s[order[i]],
        forall|j: int|
            0 <= j < s.len() ==> #[trigger] release_all(s, order)[j] == (if order.contains(j) {
                None
            } else {
                s[j]
            }),
{
    lemma_release_all_frees(s, order);
    assert forall|i: int| 0 <= i < order.len() implies #[trigger] release_all(
        s,
        order.take(i),
    )[order[i]] == s[order[i]] by {
        let prefix = order.take(i);
        assert forall|m: int| 0 <= m < prefix.len() implies 0 <= #[trigger] prefix[m] < s.len() by {
            assert(prefix[m] == order[m]);
        }
        lemma_release_all_frees(s, prefix);
        if prefix.contains(order[i]) {
            let k = choose|k: int| 0 <= k < prefix.len() && prefix[k] == order[i];
            assert(order[k] == order[i]);
        }
    }
}

/// A ring with as many outstanding requests as slots has no free slot: each
/// buffer is owned by a request still in flight, so another submission has to
/// be refused rather than handed a buffer in use.
pub proof fn lemma_full_ring_has_no_free_slot(s: Seq<Option<InFlight>>)
    requires
        count_in_flight(s) == s.len(),
    ensures
        forall|j: int| 0 <= j < s.len() ==> #[trigger] s[j] is Some,
    decreases s.len(),
{
    if s.len() > 0 {
        let t = s.drop_last();
        lemma_count_bounds(t);
        lemma_full_ring_has_no_free_slot(t);
        assert forall|j: int| 0 <= j < s.len() implies #[trigger] s[j] is Some by {
            if j < t.len() {
                assert(t[j] == s[j]);
            }
        }
    }
}

} // verus!
