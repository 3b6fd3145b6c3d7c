//! Bookkeeping of the speculative prefetcher: which byte ranges have
//! already been announced to the kernel, most recently used first, in a
//! bounded history that evicts the least recently used entry.

use vstd::prelude::*;

use std::collections::VecDeque;

use crate::float_bits::{eq_bits_f64, f64_eq, f64_is_nan};

verus! {

/// A speculative read-ahead request. The target times are the bit patterns
/// of `f64` values.
#[derive(Debug, Clone, Copy)]
pub struct PrefetchRequest {
    pub offset_bytes: usize,
    pub length_bytes: usize,
    pub target_time_start: u64,
    pub target_time_end: u64,
}

/// Two requests are equal when their ranges are equal and their target
/// times are equal as `f64` values.
pub open spec fn request_eq(a: PrefetchRequest, b: PrefetchRequest) -> bool {
    &&& a.offset_bytes == b.offset_bytes
    &&& a.length_bytes == b.length_bytes
    &&& f64_eq(a.target_time_start, b.target_time_start)
    &&& f64_eq(a.target_time_end, b.target_time_end)
}

impl PartialEq for PrefetchRequest {
    /// Field-wise equality, the target times compared as `f64` values.
    fn eq(&self, other: &Self) -> (r: bool) {
        self.offset_bytes == other.offset_bytes && self.length_bytes == other.length_bytes
            && eq_bits_f64(self.target_time_start, other.target_time_start) && eq_bits_f64(
            self.target_time_end,
            other.target_time_end,
        )
    }
}

impl vstd::std_specs::cmp::PartialEqSpecImpl for PrefetchRequest {
    open spec fn obeys_eq_spec() -> bool {
        true
    }

    open spec fn eq_spec(&self, other: &Self) -> bool {
        request_eq(*self, *other)
    }
}

/// History of the requests announced to the kernel, most recently used
/// first, holding at most `capacity` entries (or one, for a capacity of zero).
pub struct PrefetchHistory {
    capacity: usize,
    entries: VecDeque<PrefetchRequest>,
}

/// The history after recording `req`: it goes in front, and when the
/// history was full its oldest entry leaves.
pub open spec fn history_after_record(
    entries: Seq<PrefetchRequest>,
    capacity: nat,
    req: PrefetchRequest,
) -> Seq<PrefetchRequest> {
    if entries.len() >= capacity && entries.len() > 0 {
        seq![req] + entries.drop_last()
    } else {
        seq![req] + entries
    }
}

/// `i` is the first position of `entries` holding a request equal to `req`.
pub open spec fn first_match(entries: Seq<PrefetchRequest>, req: PrefetchRequest, i: int) -> bool {
    &&& 0 <= i < entries.len()
    &&& request_eq(entries[i], req)
    &&& forall|j: int| 0 <= j < i ==> !request_eq(#[trigger] entries[j], req)
}

/// The history after using its entry at `i` again: that entry moves to the
/// front, the others keep their order.
pub open spec fn history_after_touch(entries: Seq<PrefetchRequest>, i: int) -> Seq<PrefetchRequest> {
    seq![entries[i]] + entries.remove(i)
}

impl PrefetchHistory {
    /// The recorded requests, most recently used first.
    pub closed spec fn entries(&self) -> Seq<PrefetchRequest> {
        self.entries@
    }

    /// Number of entries kept before the oldest one is dropped.
    pub closed spec fn spec_capacity(&self) -> nat {
        self.capacity as nat
    }

    /// An empty history of the given capacity.
    pub fn new(capacity: usize) -> (r: Self)
        ensures
            r.entries() == Seq::<PrefetchRequest>::empty(),
            r.spec_capacity() == capacity,
    {
        Self { capacity, entries: VecDeque::new() }
    }

    /// Number of entries kept before the oldest one is dropped.
    pub fn capacity(&self) -> (r: usize)
        ensures
            r == self.spec_capacity(),
    {
        self.capacity
    }

    /// Number of recorded requests.
    pub fn len(&self) -> (r: usize)
        ensures
            r == self.entries().len(),
    {
        self.entries.len()
    }

    /// Whether a request equal to `req` has been recorded.
    pub fn contains(&self, req: &PrefetchRequest) -> (r: bool)
        ensures
            r == (exists|i: int|
                0 <= i < self.entries().len() && request_eq(#[trigger] self.entries()[i], *req)),
    {
        let n = self.entries.len();
        let mut i: usize = 0;
        while i < n
            invariant
                n == self.entries@.len(),
                i <= n,
                forall|j: int| 0 <= j < i ==> !request_eq(#[trigger] self.entries@[j], *req),
            decreases n - i,
        {
            let e = self.entries[i];
            if e.offset_bytes == req.offset_bytes && e.length_bytes == req.length_bytes
                && eq_bits_f64(e.target_time_start, req.target_time_start) && eq_bits_f64(
                e.target_time_end,
                req.target_time_end,
            ) {
                assert(request_eq(self.entries()[i as int], *req));
                return true;
            }
            i = i + 1;
        }
        false
    }

    /// When a request equal to `req` has been recorded, moves the first such
    /// entry to the front, as the most recently used, and returns `true`;
    /// otherwise leaves the history as it is and returns `false`.
    pub fn touch(&mut self, req: &PrefetchRequest) -> (found: bool)
        ensures
            final(self).spec_capacity() == old(self).spec_capacity(),
            found == (exists|i: int|
                0 <= i < old(self).entries().len() && request_eq(
                    #[trigger] old(self).entries()[i],
                    *req,
                )),
            !found ==> final(self).entries() == old(self).entries(),
            found ==> exists|i: int|
                first_match(old(self).entries(), *req, i) && final(self).entries()
                    == #[trigger] history_after_touch(old(self).entries(), i),
    {
        let n = self.entries.len();
        let mut i: usize = 0;
        while i < n
            invariant
                n == self.entries@.len(),
                i <= n,
                self.capacity == old(self).capacity,
                self.entries@ == old(self).entries@,
                forall|j: int| 0 <= j < i ==> !request_eq(#[trigger] self.entries@[j], *req),
            decreases n - i,
        {
            let e = self.entries[i];
            if e.offset_bytes == req.offset_bytes && e.length_bytes == req.length_bytes
                && eq_bits_f64(e.target_time_start, req.target_time_start) && eq_bits_f64(
                e.target_time_end,
                req.target_time_end,
            ) {
                let ghost before = self.entries@;
                assert(request_eq(old(self).entries()[i as int], *req));
                assert(first_match(before, *req, i as int));
                match self.entries.remove(i) {
                    Some(hit) => {
                        self.entries.push_front(hit);
                    },
                    None => {},
                }
                assert(self.entries@ =~= history_after_touch(before, i as int));
                return true;
            }
            i = i + 1;
        }
        false
    }

    /// Records `req` as the most recently used request, dropping the least
    /// recently used one first when the history is full.
    pub fn record(&mut self, req: PrefetchRequest)
        ensures
            final(self).spec_capacity() == old(self).spec_capacity(),
            final(self).entries() == history_after_record(
                old(self).entries(),
                old(self).spec_capacity(),
                req,
            ),
            final(self).entries().len() == (if old(self).entries().len() >= old(self).spec_capacity()
                && old(self).entries().len() > 0 {
                old(self).entries().len()
            } else {
                old(self).entries().len() + 1
            }),
            final(self).entries()[0] == req,
            forall|i: int|
                0 <= i < final(self).entries().len() - 1 ==> #[trigger] final(self).entries()[i + 1]
                    == old(self).entries()[i],
    {
        if self.entries.len() >= self.capacity {
            let _ = self.entries.pop_back();
        }
        self.entries.push_front(req);
    }
}

/// A request whose target times are numbers is found in the history right
/// after it is recorded.
pub proof fn lemma_recorded_request_is_found(
    entries: Seq<PrefetchRequest>,
    capacity: nat,
    req: PrefetchRequest,
)
    requires
        !f64_is_nan(req.target_time_start),
        !f64_is_nan(req.target_time_end),
    ensures
        exists|i: int|
            0 <= i < history_after_record(entries, capacity, req).len() && request_eq(
                #[trigger] history_after_record(entries, capacity, req)[i],
                req,
            ),
{
    assert(history_after_record(entries, capacity, req)[0] == req);
}

/// Using an entry again keeps the history's length, puts that entry in
/// front and keeps every other entry, in order.
pub proof fn lemma_touch_keeps_entries(entries: Seq<PrefetchRequest>, i: int)
    requires
        0 <= i < entries.len(),
    ensures
        history_after_touch(entries, i).len() == entries.len(),
        history_after_touch(entries, i)[0] == entries[i],
        forall|j: int| 0 <= j < i ==> #[trigger] history_after_touch(entries, i)[j + 1] == entries[j],
        forall|j: int| i < j < entries.len() ==> #[trigger] history_after_touch(entries, i)[j] == entries[j],
{
}

/// Recording keeps the history within its capacity (or within one entry
/// for a capacity of zero), keeps the newer entries in order, and drops at
/// most the oldest one.
pub proof fn lemma_history_bounded(entries: Seq<PrefetchRequest>, capacity: nat, req: PrefetchRequest)
    requires
        entries.len() <= (if capacity == 0 { 1 } else { capacity }),
    ensures
        history_after_record(entries, capacity, req).len() <= (if capacity == 0 {
            1
        } else {
            capacity
        }),
        history_after_record(entries, capacity, req)[0] == req,
        forall|i: int|
            0 <= i < history_after_record(entries, capacity, req).len() - 1 ==> #[trigger] history_after_record(
                entries,
                capacity,
                req,
            )[i + 1] == entries[i],
{
}


/// No two entries of `entries` are equal requests.
pub open spec fn distinct_requests(entries: Seq<PrefetchRequest>) -> bool {
    forall|i: int, j: int|
        0 <= i < j < entries.len() ==> !request_eq(#[trigger] entries[i], #[trigger] entries[j])
}

/// The history never holds the same request twice: recording a request
/// that is not in a history free of repeats, or using one of its entries
/// again, leaves it free of repeats and within its bound.
pub proof fn lemma_history_stays_distinct(
    entries: Seq<PrefetchRequest>,
    capacity: nat,
    req: PrefetchRequest,
    i: int,
)
    requires
        distinct_requests(entries),
        entries.len() <= (if capacity == 0 { 1 } else { capacity }),
    ensures
        (forall|k: int| 0 <= k < entries.len() ==> !request_eq(#[trigger] entries[k], req)) ==> {
            &&& distinct_requests(history_after_record(entries, capacity, req))
            &&& history_after_record(entries, capacity, req).len() <= (if capacity == 0 {
                1
            } else {
                capacity
            })
        },
        0 <= i < entries.len() ==> {
            &&& distinct_requests(history_after_touch(entries, i))
            &&& history_after_touch(entries, i).len() == entries.len()
        },
{
    if forall|k: int| 0 <= k < entries.len() ==> !request_eq(#[trigger] entries[k], req) {
        let h = history_after_record(entries, capacity, req);
        assert forall|a: int, b: int| 0 <= a < b < h.len() implies !request_eq(
            #[trigger] h[a],
            #[trigger] h[b],
        ) by {
            assert(h[b] == entries[b - 1]);
            if a > 0 {
                assert(h[a] == entries[a - 1]);
            } else {
                assert(!request_eq(entries[b - 1], req));
            }
        }
    }
    if 0 <= i < entries.len() {
        let h = history_after_touch(entries, i);
        let rest = entries.remove(i);
        assert forall|a: int, b: int| 0 <= a < b < h.len() implies !request_eq(
            #[trigger] h[a],
            #[trigger] h[b],
        ) by {
            let ib = if b - 1 < i { b - 1 } else { b };
            assert(h[b] == rest[b - 1]);
            assert(rest[b - 1] == entries[ib]);
            if a > 0 {
                let ia = if a - 1 < i { a - 1 } else { a };
                assert(h[a] == entries[ia]);
                assert(ia < ib);
            } else {
                assert(h[a] == entries[i]);
                assert(ib != i);
                if ib < i {
                    assert(!request_eq(entries[ib], entries[i]));
                } else {
                    assert(!request_eq(entries[i], entries[ib]));
                }
            }
        }
    }
}

/// Recording drops only the least recently used entry, and only when the
/// history is full: from a history within its bound `max(capacity, 1)`,
/// recording leaves `min(old length + 1, max(capacity, 1))` entries, the new
/// request first and then the old entries in order, so a full history loses
/// exactly its last entry and nothing else.
pub proof fn lemma_record_drops_only_oldest(entries: Seq<PrefetchRequest>, capacity: nat, req: PrefetchRequest)
    requires
        entries.len() <= (if capacity == 0 { 1 } else { capacity }),
    ensures
        ({
            let bound = if capacity == 0 { 1 } else { capacity };
            let h = history_after_record(entries, capacity, req);
            &&& h.len() == (if entries.len() + 1 <= bound { entries.len() + 1 } else { bound })
            &&& h[0] == req
            &&& forall|i: int| 0 <= i < h.len() - 1 ==> #[trigger] h[i + 1] == entries[i]
            &&& entries.len() == bound ==> h.drop_first() == entries.drop_last()
        }),
{
    let h = history_after_record(entries, capacity, req);
    if entries.len() == (if capacity == 0 { 1 } else { capacity }) {
        assert(h.drop_first() =~= entries.drop_last());
    }
}

} // verus!
