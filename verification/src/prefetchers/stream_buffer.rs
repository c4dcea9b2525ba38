//! A PC-keyed stride prefetcher.

use vstd::prelude::*;
use crate::config::PrefetchSettings;
use crate::error::AsterError;
use crate::prefetch::Prefetcher;
use crate::seqs::{first_where, is_first_where, lemma_first_where_found, lemma_first_where_none};

verus! {

/// Tunables for [`StreamBuffer`]; every field has a default.
#[derive(Clone, Copy, Debug, PartialEq, Eq)]
pub struct StreamBufferSettings {
    pub degree: usize,
    pub num_streams: usize,
}

/// Default number of blocks predicted ahead.
pub fn default_degree() -> (r: usize)
    ensures
        r == 3,
{
    3
}

/// Default number of tracked streams.
pub fn default_num_streams() -> (r: usize)
    ensures
        r == 8,
{
    8
}

/// One stream slot: the instruction that drives it, the last address it
/// touched, the stride seen between its last two accesses (in blocks),
/// whether that stride has repeated, and whether the slot tracks a stream
/// at all (a slot is idle until a stream is first placed in it).
#[derive(Clone, Copy, Debug, PartialEq, Eq)]
pub struct StreamEntry {
    pub pc: u64,
    pub last_addr: u64,
    pub stride: Option<i64>,
    pub confirmed: bool,
    pub active: bool,
}

/// A slot that tracks no stream yet.
pub open spec fn idle_entry() -> StreamEntry {
    StreamEntry { pc: 0, last_addr: 0, stride: None, confirmed: false, active: false }
}

/// Stream-buffer prefetcher: `capacity` stream slots keyed by PC; a new
/// stream takes the slots in turn, round robin, so once every slot is in use
/// it replaces the oldest.
pub struct StreamBuffer {
    streams: Vec<StreamEntry>,
    capacity: usize,
    degree: usize,
    block_size: usize,
    next_evict: usize,
}

/// The state of a [`StreamBuffer`].
pub struct StreamBufferView {
    pub streams: Seq<StreamEntry>,
    pub capacity: nat,
    pub degree: nat,
    pub block_size: nat,
    pub next_evict: nat,
}

/// Whether a slot tracks a stream driven by `pc`.
pub open spec fn has_pc(pc: u64) -> spec_fn(StreamEntry) -> bool {
    |e: StreamEntry| e.active && e.pc == pc
}

/// The block number of `addr` as the prefetcher reads it: the quotient by
/// the block size, reinterpreted as a signed 64-bit number.
pub open spec fn block_number(addr: u64, block_size: nat) -> i64 {
    ((addr as nat / block_size) as u64) as i64
}

/// The `k`-th predicted block (counting from 1) lies in the signed 64-bit
/// range, and so does the stride times `k` on the way there, and the
/// address of that block fits in 64 bits.
pub open spec fn prediction_fits(block: i64, stride: i64, k: int, block_size: nat) -> bool {
    &&& i64::MIN <= stride * k <= i64::MAX
    &&& i64::MIN <= block + stride * k <= i64::MAX
    &&& (((block + stride * k) as i64) as u64) * block_size <= u64::MAX
}

/// The address of the `k`-th predicted block (counting from 1).
pub open spec fn prediction(block: i64, stride: i64, k: int, block_size: nat) -> u64 {
    ((((block + stride * k) as i64) as u64) * block_size) as u64
}

/// The number of predictions a stream makes: the degree read as a signed
/// 64-bit count (none when that count is not positive).
pub open spec fn prediction_count(degree: nat) -> nat {
    let n = (degree as usize) as i64;
    if n > 0 {
        n as nat
    } else {
        0
    }
}

/// The `degree` block addresses ahead of `block` along `stride`, nearest first.
pub open spec fn predictions(block: i64, stride: i64, degree: nat, block_size: nat) -> Seq<u64> {
    Seq::new(prediction_count(degree), |k: int| prediction(block, stride, k + 1, block_size))
}

/// Every prediction can be computed without overflow.
pub open spec fn predictions_fit(block: i64, stride: i64, degree: nat, block_size: nat) -> bool {
    forall|k: int|
        1 <= k <= prediction_count(degree) ==> #[trigger] prediction_fits(block, stride, k, block_size)
}

/// A fresh stream buffer: `capacity` idle slots, the cursor at the first.
pub open spec fn fresh_view(capacity: nat, degree: nat, block_size: nat) -> StreamBufferView {
    StreamBufferView {
        streams: Seq::new(capacity, |k: int| idle_entry()),
        capacity,
        degree,
        block_size,
        next_evict: 0,
    }
}

impl StreamBufferView {
    /// There is one slot per stream the buffer can track, and the
    /// round-robin cursor stays inside them.
    pub open spec fn inv(self) -> bool {
        &&& self.streams.len() == self.capacity
        &&& (self.next_evict < self.capacity || (self.capacity == 0 && self.next_evict == 0))
        &&& self.capacity <= usize::MAX
        &&& self.degree <= usize::MAX
        &&& self.block_size <= usize::MAX
    }

    /// The prefetcher after seeing a demand access to `addr` by `pc`, and the
    /// block addresses it predicts. `None` where the step would overflow or
    /// index past its slots.
    pub open spec fn observe(self, addr: u64, pc: u64) -> Option<(StreamBufferView, Seq<u64>)> {
        let bs = self.block_size;
        if bs == 0 {
            None
        } else {
            let block = block_number(addr, bs);
            match first_where(self.streams, has_pc(pc)) {
                Some(i) => {
                    let e = self.streams[i];
                    let cand = block - block_number(e.last_addr, bs);
                    if cand < i64::MIN || cand > i64::MAX {
                        None
                    } else {
                        let c = cand as i64;
                        match e.stride {
                            None => Some(
                                (
                                    StreamBufferView {
                                        streams: self.streams.update(
                                            i,
                                            StreamEntry { stride: Some(c), last_addr: addr, ..e },
                                        ),
                                        ..self
                                    },
                                    Seq::empty(),
                                ),
                            ),
                            Some(s) => if c == s {
                                let next = StreamBufferView {
                                    streams: self.streams.update(
                                        i,
                                        StreamEntry { confirmed: true, last_addr: addr, ..e },
                                    ),
                                    ..self
                                };
                                if predictions_fit(block, s, self.degree, bs) {
                                    Some((next, predictions(block, s, self.degree, bs)))
                                } else {
                                    None
                                }
                            } else {
                                Some(
                                    (
                                        StreamBufferView {
                                            streams: self.streams.update(
                                                i,
                                                StreamEntry {
                                                    stride: Some(c),
                                                    confirmed: false,
                                                    last_addr: addr,
                                                    ..e
                                                },
                                            ),
                                            ..self
                                        },
                                        Seq::empty(),
                                    ),
                                )
                            },
                        }
                    }
                },
                None => {
                    let fresh = StreamEntry {
                        pc,
                        last_addr: addr,
                        stride: None,
                        confirmed: false,
                        active: true,
                    };
                    if self.capacity == 0 {
                        None
                    } else {
                        Some(
                            (
                                StreamBufferView {
                                    streams: self.streams.update(self.next_evict as int, fresh),
                                    next_evict: (self.next_evict + 1) % self.capacity,
                                    ..self
                                },
                                Seq::empty(),
                            ),
                        )
                    }
                },
            }
        }
    }
}

/// Observing keeps the prefetcher well formed and its settings unchanged.
pub proof fn lemma_observe_keeps_inv(v: StreamBufferView, addr: u64, pc: u64)
    requires
        v.inv(),
        v.observe(addr, pc) is Some,
    ensures
        (v.observe(addr, pc)->0).0.inv(),
        (v.observe(addr, pc)->0).0.capacity == v.capacity,
        (v.observe(addr, pc)->0).0.degree == v.degree,
        (v.observe(addr, pc)->0).0.block_size == v.block_size,
{
}

/// A stream predicts only when its stride repeats: whatever predicts comes
/// from a stream of `pc` that had learned a stride, which the new access
/// repeats; the predictions step along that stride, and the stream is then
/// confirmed.
pub proof fn lemma_prediction_needs_repeated_stride(v: StreamBufferView, addr: u64, pc: u64)
    requires
        v.inv(),
        v.observe(addr, pc) is Some,
        (v.observe(addr, pc)->0).1.len() > 0,
    ensures
        first_where(v.streams, has_pc(pc)) is Some,
        ({
            let i = first_where(v.streams, has_pc(pc))->0;
            let e = v.streams[i];
            &&& e.stride is Some
            &&& (v.observe(addr, pc)->0).0.streams[i].confirmed
            &&& e.stride->0 == block_number(addr, v.block_size) - block_number(e.last_addr, v.block_size)
            &&& (v.observe(addr, pc)->0).1 == predictions(
                block_number(addr, v.block_size),
                e.stride->0,
                v.degree,
                v.block_size,
            )
        }),
{
}

/// A stream whose stride the new access repeats predicts `degree` blocks
/// ahead along that stride (where the predictions can be computed).
pub proof fn lemma_repeated_stride_predicts(v: StreamBufferView, addr: u64, pc: u64, i: int)
    requires
        v.inv(),
        v.block_size > 0,
        is_first_where(v.streams, has_pc(pc), i),
        v.streams[i].stride == Some(
            (block_number(addr, v.block_size) - block_number(v.streams[i].last_addr, v.block_size)) as i64,
        ),
        i64::MIN <= block_number(addr, v.block_size) - block_number(v.streams[i].last_addr, v.block_size)
            <= i64::MAX,
        predictions_fit(
            block_number(addr, v.block_size),
            v.streams[i].stride->0,
            v.degree,
            v.block_size,
        ),
    ensures
        v.observe(addr, pc) is Some,
        (v.observe(addr, pc)->0).1 == predictions(
            block_number(addr, v.block_size),
            v.streams[i].stride->0,
            v.degree,
            v.block_size,
        ),
        (v.observe(addr, pc)->0).0.streams[i].confirmed,
{
    lemma_first_where_found(v.streams, has_pc(pc), i);
}

/// A new instruction's first access starts a stream and its second learns
/// the stride, neither predicting; a third access that repeats the stride
/// predicts `degree` blocks ahead of it along the stride.
pub proof fn lemma_third_access_predicts(
    v: StreamBufferView,
    pc: u64,
    a0: u64,
    a1: u64,
    a2: u64,
)
    requires
        v.inv(),
        v.capacity > 0,
        v.block_size > 0,
        forall|j: int| 0 <= j < v.streams.len() ==> !(has_pc(pc))(#[trigger] v.streams[j]),
        i64::MIN <= block_number(a1, v.block_size) - block_number(a0, v.block_size) <= i64::MAX,
        block_number(a2, v.block_size) - block_number(a1, v.block_size) == block_number(
            a1,
            v.block_size,
        ) - block_number(a0, v.block_size),
        predictions_fit(
            block_number(a2, v.block_size),
            (block_number(a1, v.block_size) - block_number(a0, v.block_size)) as i64,
            v.degree,
            v.block_size,
        ),
    ensures
        v.observe(a0, pc) is Some,
        (v.observe(a0, pc)->0).1.len() == 0,
        (v.observe(a0, pc)->0).0.observe(a1, pc) is Some,
        ((v.observe(a0, pc)->0).0.observe(a1, pc)->0).1.len() == 0,
        ((v.observe(a0, pc)->0).0.observe(a1, pc)->0).0.observe(a2, pc) is Some,
        (((v.observe(a0, pc)->0).0.observe(a1, pc)->0).0.observe(a2, pc)->0).1 == predictions(
            block_number(a2, v.block_size),
            (block_number(a1, v.block_size) - block_number(a0, v.block_size)) as i64,
            v.degree,
            v.block_size,
        ),
{
    let ne = v.next_evict as int;
    lemma_first_where_none(v.streams, has_pc(pc));
    let v1 = (v.observe(a0, pc)->0).0;
    assert(is_first_where(v1.streams, has_pc(pc), ne));
    lemma_first_where_found(v1.streams, has_pc(pc), ne);
    lemma_observe_keeps_inv(v, a0, pc);
    let v2 = (v1.observe(a1, pc)->0).0;
    assert(is_first_where(v2.streams, has_pc(pc), ne));
    lemma_observe_keeps_inv(v1, a1, pc);
    lemma_repeated_stride_predicts(v2, a2, pc, ne);
}

impl View for StreamBuffer {
    type V = StreamBufferView;

    closed spec fn view(&self) -> StreamBufferView {
        StreamBufferView {
            streams: self.streams@,
            capacity: self.capacity as nat,
            degree: self.degree as nat,
            block_size: self.block_size as nat,
            next_evict: self.next_evict as nat,
        }
    }
}

/// The predictions of a confirmed stream.
fn predict(block: i64, stride: i64, degree: usize, block_size: usize) -> (r: Vec<u64>)
    requires
        predictions_fit(block, stride, degree as nat, block_size as nat),
    ensures
        r@ == predictions(block, stride, degree as nat, block_size as nat),
{
    let n = degree as i64;
    let mut out: Vec<u64> = Vec::new();
    if n <= 0 {
        proof {
            assert(out@ =~= predictions(block, stride, degree as nat, block_size as nat));
        }
        return out;
    }
    let count = n as usize;
    let mut k: usize = 0;
    while k < count
        invariant
            n == (degree as usize) as i64,
            n > 0,
            count == n,
            k <= count,
            out.len() == k,
            predictions_fit(block, stride, degree as nat, block_size as nat),
            forall|j: int|
                0 <= j < out.len() ==> #[trigger] out[j] == prediction(
                    block,
                    stride,
                    j + 1,
                    block_size as nat,
                ),
        decreases count - k,
    {
        let i = (k + 1) as i64;
        assert(prediction_fits(block, stride, i as int, block_size as nat));
        let m = stride * i;
        let b = block + m;
        let a = (b as u64) * (block_size as u64);
        out.push(a);
        k = k + 1;
    }
    proof {
        assert(out@ =~= predictions(block, stride, degree as nat, block_size as nat));
    }
    out
}

/// Whether every prediction of a stream can be computed (see
/// [`predictions_fit`]).
fn predictions_fit_exec(block: i64, stride: i64, degree: usize, block_size: usize) -> (r: bool)
    ensures
        r == predictions_fit(block, stride, degree as nat, block_size as nat),
{
    let n = degree as i64;
    if n <= 0 {
        return true;
    }
    let mut k0: i64 = 0;
    while k0 < n
        invariant
            0 <= k0 <= n,
            n == (degree as usize) as i64,
            n > 0,
            forall|j: int| 1 <= j <= k0 ==> #[trigger] prediction_fits(block, stride, j, block_size as nat),
        decreases n - k0,
    {
        let k = k0 + 1;
        let m = match stride.checked_mul(k) {
            Some(m) => m,
            None => {
                assert(!prediction_fits(block, stride, k as int, block_size as nat));
                return false;
            },
        };
        let b = match block.checked_add(m) {
            Some(b) => b,
            None => {
                assert(!prediction_fits(block, stride, k as int, block_size as nat));
                return false;
            },
        };
        match (b as u64).checked_mul(block_size as u64) {
            Some(_) => {},
            None => {
                assert(!prediction_fits(block, stride, k as int, block_size as nat));
                return false;
            },
        }
        assert(prediction_fits(block, stride, k as int, block_size as nat));
        k0 = k;
    }
    true
}

impl StreamBuffer {
    /// Builds a stream buffer for blocks of `block_size` bytes, taking its
    /// tunables from `settings`.
    ///
    /// # Errors
    /// Returns [`AsterError::InvalidPolicyConfig`] if the settings could not
    /// be read.
    pub fn new(block_size: usize, settings: &PrefetchSettings) -> (r: Result<Self, AsterError>)
        ensures
            match settings.stream_buffer {
                Err(m) => r matches Err(AsterError::InvalidPolicyConfig(e)) && e@ == m@,
                Ok(s) => r matches Ok(p) && p@ == fresh_view(
                    s.num_streams as nat,
                    s.degree as nat,
                    block_size as nat,
                ),
            },
            r matches Ok(p) ==> p@.inv(),
    {
        let s: StreamBufferSettings = match &settings.stream_buffer {
            Ok(s) => *s,
            Err(m) => {
                return Err(AsterError::InvalidPolicyConfig(m.clone()));
            },
        };
        let mut streams: Vec<StreamEntry> = Vec::with_capacity(s.num_streams);
        let mut k: usize = 0;
        while k < s.num_streams
            invariant
                k <= s.num_streams,
                streams@ == Seq::new(k as nat, |j: int| idle_entry()),
            decreases s.num_streams - k,
        {
            streams.push(StreamEntry { pc: 0, last_addr: 0, stride: None, confirmed: false, active: false });
            proof {
                assert(streams@ =~= Seq::new((k + 1) as nat, |j: int| idle_entry()));
            }
            k = k + 1;
        }
        Ok(
            Self {
                streams,
                capacity: s.num_streams,
                degree: s.degree,
                block_size,
                next_evict: 0,
            },
        )
    }

    /// Whether observing an access to `addr` by `pc` is defined (see
    /// [`StreamBufferView::observe`]): the block size is not zero, the
    /// stride and the predictions fit 64 bits, and a new stream has a slot.
    pub fn observe_ok(&self, addr: u64, pc: u64) -> (r: bool)
        requires
            self@.inv(),
        ensures
            r == (self@.observe(addr, pc) is Some),
    {
        let ghost start = self@;
        if self.block_size == 0 {
            return false;
        }
        let bs = self.block_size as u64;
        let block = #[verifier::truncate] ((addr / bs) as i64);
        let n = self.streams.len();
        let mut i: usize = 0;
        while i < n && !(self.streams[i].active && self.streams[i].pc == pc)
            invariant
                i <= n,
                n == self.streams.len(),
                self@ == start,
                forall|j: int| 0 <= j < i ==> !(has_pc(pc))(#[trigger] self.streams@[j]),
            decreases n - i,
        {
            i = i + 1;
        }
        if i < n {
            proof {
                assert(is_first_where(start.streams, has_pc(pc), i as int));
                lemma_first_where_found(start.streams, has_pc(pc), i as int);
            }
            let e = self.streams[i];
            let last_block = #[verifier::truncate] ((e.last_addr / bs) as i64);
            match block.checked_sub(last_block) {
                None => false,
                Some(c) => match e.stride {
                    None => true,
                    Some(st) => if c == st {
                        predictions_fit_exec(block, st, self.degree, self.block_size)
                    } else {
                        true
                    },
                },
            }
        } else {
            proof {
                lemma_first_where_none(start.streams, has_pc(pc));
            }
            self.capacity > 0
        }
    }

    /// The stream slots, in slot order (a slot not yet used is idle).
    pub fn streams(&self) -> (r: &Vec<StreamEntry>)
        ensures
            r@ == self@.streams,
    {
        &self.streams
    }

    /// The slot the next new stream replaces once every slot is in use.
    pub fn next_evict(&self) -> (r: usize)
        ensures
            r == self@.next_evict,
    {
        self.next_evict
    }

    /// The number of blocks predicted ahead.
    pub fn degree(&self) -> (r: usize)
        ensures
            r == self@.degree,
    {
        self.degree
    }
}

impl Prefetcher for StreamBuffer {
    open spec fn inv(&self) -> bool {
        self@.inv()
    }

    open spec fn can_observe(&self, addr: u64, pc: u64) -> bool {
        self@.observe(addr, pc) is Some
    }

    fn observe(&mut self, addr: u64, pc: u64, _hit: bool) -> (r: Vec<u64>)
        ensures
            old(self)@.observe(addr, pc) == Some((final(self)@, r@)),
    {
        let ghost start = self@;
        proof {
            lemma_observe_keeps_inv(start, addr, pc);
        }
        let bs = self.block_size as u64;
        let block = #[verifier::truncate] ((addr / bs) as i64);

        let n = self.streams.len();
        let mut i: usize = 0;
        while i < n && !(self.streams[i].active && self.streams[i].pc == pc)
            invariant
                i <= n,
                n == self.streams.len(),
                self@ == start,
                forall|j: int| 0 <= j < i ==> !(has_pc(pc))(#[trigger] self.streams@[j]),
            decreases n - i,
        {
            i = i + 1;
        }
        if i < n {
            proof {
                assert(is_first_where(start.streams, has_pc(pc), i as int));
                lemma_first_where_found(start.streams, has_pc(pc), i as int);
            }
            let e = self.streams[i];
            let last_block = #[verifier::truncate] ((e.last_addr / bs) as i64);
            let candidate_stride = block - last_block;
            let result = match e.stride {
                None => {
                    self.streams[i] = StreamEntry { stride: Some(candidate_stride), last_addr: addr, ..e };
                    Vec::new()
                },
                Some(s) => {
                    if candidate_stride == s {
                        self.streams[i] = StreamEntry { confirmed: true, last_addr: addr, ..e };
                        predict(block, s, self.degree, self.block_size)
                    } else {
                        self.streams[i] = StreamEntry {
                            stride: Some(candidate_stride),
                            confirmed: false,
                            last_addr: addr,
                            ..e
                        };
                        Vec::new()
                    }
                },
            };
            proof {
                assert(self@.streams =~= (start.observe(addr, pc)->0).0.streams);
                assert(result@ =~= (start.observe(addr, pc)->0).1);
            }
            return result;
        }
        proof {
            lemma_first_where_none(start.streams, has_pc(pc));
        }
        let new_entry = StreamEntry { pc, last_addr: addr, stride: None, confirmed: false, active: true };
        self.streams[self.next_evict] = new_entry;
        self.next_evict = (self.next_evict + 1) % self.capacity;
        proof {
            assert(self@.streams =~= (start.observe(addr, pc)->0).0.streams);
        }
        let empty: Vec<u64> = Vec::new();
        proof {
            assert(empty@ =~= (start.observe(addr, pc)->0).1);
        }
        empty
    }
}

} // verus!
