//! The probe for the batch size: start small, double while the device copes, stop at the cap or
//! when a batch takes more than 500 MB.

use vstd::arithmetic::power2;
use vstd::prelude::*;

verus! {

/// The batch size to start with where the exponent is too large.
pub const DEFAULT_START: usize = 65536;

/// The largest batch size where the exponent is too large.
pub const DEFAULT_CAP: usize = 268435456;

/// The bytes of device memory that a candidate takes: 24 for its twelve indices, and 4 for the
/// place in the list of those that pass.
pub const BYTES_PER_CAND_TOTAL: usize = 28;

/// A batch of more bytes than this, 500 MB of 1024 * 1024 bytes each, is large: with it the transfer
/// takes most of the time.
pub const LARGE_BATCH_BYTES: usize = 524288000;

/// The batch takes more than 500 MB.
pub open spec fn is_large(batch: nat) -> bool {
    batch * BYTES_PER_CAND_TOTAL > LARGE_BATCH_BYTES
}

/// The bytes of device memory that a batch takes, as far as a `usize` counts.
pub fn batch_bytes(batch: usize) -> (bytes: usize)
    ensures
        bytes == (batch * BYTES_PER_CAND_TOTAL) % (usize::MAX + 1),
        batch <= usize::MAX / 28 ==> bytes == 28 * batch,
{
    batch.wrapping_mul(BYTES_PER_CAND_TOTAL)
}

/// Two to the power of `exp`, or `otherwise` where a `usize` does not hold it.
pub open spec fn batch_of(exp: u32, otherwise: usize) -> nat {
    if exp < usize::BITS {
        power2::pow2(exp as nat)
    } else {
        otherwise as nat
    }
}

fn batch_size(exp: u32, otherwise: usize) -> (size: usize)
    ensures
        size == batch_of(exp, otherwise),
{
    if exp < usize::BITS {
        proof {
            vstd::bits::lemma_usize_pow2_no_overflow(exp as nat);
            vstd::bits::lemma_usize_shl_is_mul(1, exp as usize);
        }
        1usize << (exp as usize)
    } else {
        otherwise
    }
}

/// Where a probe stands.
pub struct ProbeState {
    /// The batch size that is tried next, or was tried last.
    pub batch: nat,
    /// The batch size to use as things stand.
    pub last_ok: nat,
    /// No batch is larger.
    pub cap: nat,
    /// Nothing more is tried.
    pub done: bool,
}

/// A probe at its start: the batch size of the first exponent, unless the cap is smaller.
pub open spec fn started(min_exp: u32, max_exp: u32) -> ProbeState {
    let start = batch_of(min_exp, DEFAULT_START);
    let cap = batch_of(max_exp, DEFAULT_CAP);
    let batch = if start <= cap {
        start
    } else {
        cap
    };
    ProbeState { batch, last_ok: batch, cap, done: false }
}

/// A probe after a batch was tried: on success that batch size is the one to use, and twice as
/// many are tried next, unless that exceeds the cap or the batch is large already; a failure ends
/// the probe.
pub open spec fn tried(state: ProbeState, ok: bool) -> ProbeState {
    if state.done {
        state
    } else if !ok {
        ProbeState { done: true, ..state }
    } else if 2 * state.batch > state.cap || is_large(state.batch) {
        ProbeState { last_ok: state.batch, done: true, ..state }
    } else {
        ProbeState { last_ok: state.batch, batch: 2 * state.batch, ..state }
    }
}

/// A probe after a number of tries.
pub open spec fn tried_all(state: ProbeState, outcomes: Seq<bool>) -> ProbeState
    decreases outcomes.len(),
{
    if outcomes.len() == 0 {
        state
    } else {
        tried(tried_all(state, outcomes.drop_last()), outcomes.last())
    }
}

/// What a try led to.
#[derive(Debug, Clone, Copy, PartialEq, Eq, Structural)]
pub enum Progress {
    /// A larger batch is tried next.
    Growing,
    /// The cap is reached.
    Capped,
    /// The batch is large already.
    Large,
    /// The device failed.
    Failed,
}

/// A probe for the batch size.
pub struct BatchProbe {
    batch: usize,
    last_ok: usize,
    cap: usize,
    done: bool,
}

impl View for BatchProbe {
    type V = ProbeState;

    closed spec fn view(&self) -> ProbeState {
        ProbeState {
            batch: self.batch as nat,
            last_ok: self.last_ok as nat,
            cap: self.cap as nat,
            done: self.done,
        }
    }
}

impl BatchProbe {
    /// No batch exceeds the cap, and none is empty.
    pub closed spec fn wf(&self) -> bool {
        0 < self.batch <= self.cap && 0 < self.last_ok <= self.cap
    }

    /// Starts at two to the power of `min_exp`, with the cap at two to the power of `max_exp`.
    pub fn new(min_exp: u32, max_exp: u32) -> (probe: Self)
        ensures
            probe.wf(),
            probe@ == started(min_exp, max_exp),
    {
        let start: usize = batch_size(min_exp, DEFAULT_START);
        let cap: usize = batch_size(max_exp, DEFAULT_CAP);
        let batch: usize = if start <= cap {
            start
        } else {
            cap
        };
        proof {
            power2::lemma_pow2_pos(min_exp as nat);
            power2::lemma_pow2_pos(max_exp as nat);
        }
        BatchProbe { batch, last_ok: batch, cap, done: false }
    }

    /// The batch size to try next, or `None` at the end of the probe.
    pub fn next_batch(&self) -> (batch: Option<usize>)
        requires
            self.wf(),
        ensures
            batch is None <==> self@.done,
            batch matches Some(b) ==> b == self@.batch && 0 < b <= self@.cap,
    {
        if self.done {
            None
        } else {
            Some(self.batch)
        }
    }

    /// Takes the outcome of a try of the batch.
    pub fn report(&mut self, ok: bool) -> (progress: Progress)
        requires
            old(self).wf(),
            !old(self)@.done,
        ensures
            final(self).wf(),
            final(self)@ == tried(old(self)@, ok),
            progress == (if !ok {
                Progress::Failed
            } else if 2 * old(self)@.batch > old(self)@.cap {
                Progress::Capped
            } else if is_large(old(self)@.batch) {
                Progress::Large
            } else {
                Progress::Growing
            }),
            final(self)@.done || final(self)@.batch > old(self)@.batch,
    {
        if !ok {
            self.done = true;
            return Progress::Failed;
        }
        self.last_ok = self.batch;
        if self.batch > self.cap - self.batch {
            self.done = true;
            Progress::Capped
        } else if self.batch > LARGE_BATCH_BYTES / BYTES_PER_CAND_TOTAL {
            self.done = true;
            Progress::Large
        } else {
            self.batch = self.batch + self.batch;
            Progress::Growing
        }
    }

    /// The batch size to use as things stand.
    pub fn result(&self) -> (batch: usize)
        requires
            self.wf(),
        ensures
            batch == self@.last_ok,
            0 < batch <= self@.cap,
    {
        self.last_ok
    }

    /// The largest batch size.
    pub fn cap(&self) -> (cap: usize)
        ensures
            cap == self@.cap,
    {
        self.cap
    }
}

/// The batch size never exceeds the cap, whatever comes of the tries.
pub proof fn lemma_probe_capped(min_exp: u32, max_exp: u32, outcomes: Seq<bool>)
    ensures
        ({
            let state = tried_all(started(min_exp, max_exp), outcomes);
            &&& state.cap == batch_of(max_exp, DEFAULT_CAP)
            &&& 0 < state.batch <= state.cap
            &&& 0 < state.last_ok <= state.cap
        }),
    decreases outcomes.len(),
{
    if outcomes.len() == 0 {
        power2::lemma_pow2_pos(min_exp as nat);
        power2::lemma_pow2_pos(max_exp as nat);
    } else {
        lemma_probe_capped(min_exp, max_exp, outcomes.drop_last());
    }
}

/// No batch is tried behind a large one: the batch size is the first, or at most twice one that
/// was not large.
pub proof fn lemma_probe_not_too_large(min_exp: u32, max_exp: u32, outcomes: Seq<bool>)
    ensures
        ({
            let start = started(min_exp, max_exp);
            let state = tried_all(start, outcomes);
            &&& state.batch == start.batch || state.batch * BYTES_PER_CAND_TOTAL <= 2
                * LARGE_BATCH_BYTES
            &&& state.last_ok == start.batch || state.last_ok * BYTES_PER_CAND_TOTAL <= 2
                * LARGE_BATCH_BYTES
        }),
    decreases outcomes.len(),
{
    if outcomes.len() > 0 {
        lemma_probe_not_too_large(min_exp, max_exp, outcomes.drop_last());
    }
}

/// Where the first `k` batches, each twice as large as the one before, all succeed and stay within
/// the cap, and none but the last of them is large, that one is the batch size to use. If none
/// succeeds, it is the first. The probe has ended if the next would exceed the cap or the last is
/// large.
pub proof fn lemma_probe_doubles(state: ProbeState, k: nat)
    requires
        !state.done,
        state.last_ok == state.batch,
        state.batch > 0,
        k > 0 ==> state.batch * power2::pow2((k - 1) as nat) <= state.cap,
        k > 1 ==> !is_large(state.batch * power2::pow2((k - 2) as nat)),
    ensures
        ({
            let after = tried_all(state, Seq::new(k, |i: int| true));
            &&& after.cap == state.cap
            &&& after.last_ok == if k == 0 {
                state.batch
            } else {
                state.batch * power2::pow2((k - 1) as nat)
            }
            &&& after.done <==> k > 0 && (state.batch * power2::pow2(k) > state.cap || is_large(
                state.batch * power2::pow2((k - 1) as nat),
            ))
            &&& !after.done ==> after.batch == state.batch * power2::pow2(k)
        }),
    decreases k,
{
    let outcomes = Seq::new(k, |i: int| true);
    power2::lemma2_to64();
    if k == 0 {
        assert(state.batch * 1 == state.batch);
    } else {
        let j = (k - 1) as nat;
        let b = state.batch;
        power2::lemma_pow2_unfold(k);
        let p = power2::pow2(j);
        assert(b * (2 * p) == 2 * (b * p)) by (nonlinear_arith);
        if j > 0 {
            power2::lemma_pow2_unfold(j);
            let q = power2::pow2((j - 1) as nat);
            assert(b * (2 * q) == 2 * (b * q)) by (nonlinear_arith);
            if j > 1 {
                power2::lemma_pow2_unfold((j - 1) as nat);
                let o = power2::pow2((j - 2) as nat);
                assert(b * (2 * o) == 2 * (b * o)) by (nonlinear_arith);
            }
        }
        lemma_probe_doubles(state, j);
        assert(outcomes.drop_last() =~= Seq::new(j, |i: int| true));
    }
}

/// A failure ends the probe with the batch size as it stands, and a probe that has ended stays as
/// it is.
pub proof fn lemma_probe_ends(state: ProbeState, ok: bool)
    ensures
        tried(state, false).done,
        tried(state, false).last_ok == state.last_ok,
        tried(tried(state, false), ok) == tried(state, false),
{
}

/// Batch sizes are powers of two: one more in the exponent is twice as many. Where a `usize` does
/// not hold it, the batch size is the other one.
pub proof fn lemma_batch_of(exp: u32, otherwise: usize)
    ensures
        batch_of(0, otherwise) == 1,
        exp + 1 < usize::BITS ==> batch_of((exp + 1) as u32, otherwise) == 2 * batch_of(
            exp,
            otherwise,
        ),
        exp >= usize::BITS ==> batch_of(exp, otherwise) == otherwise,
{
    power2::lemma2_to64();
    power2::lemma_pow2_unfold((exp + 1) as nat);
}

/// A probe starts with the batch size of the first exponent if the cap allows it, and else with the
/// cap; that is also the batch size to use if nothing succeeds.
pub proof fn lemma_started(min_exp: u32, max_exp: u32)
    ensures
        ({
            let state = started(min_exp, max_exp);
            &&& state.cap == batch_of(max_exp, 268435456)
            &&& state.batch <= state.cap
            &&& state.batch <= batch_of(min_exp, 65536)
            &&& state.batch == state.cap || state.batch == batch_of(min_exp, 65536)
            &&& state.last_ok == state.batch
            &&& !state.done
        }),
{
}

/// A batch that succeeds is the one to use. The probe ends behind it if and only if twice as many
/// exceed the cap or the batch takes more than 500 MB at 28 bytes a candidate; else twice as many are
/// tried next. A batch that fails changes nothing but that the probe ends. The cap stays.
pub proof fn lemma_tried(state: ProbeState)
    requires
        !state.done,
    ensures
        tried(state, true).last_ok == state.batch,
        tried(state, true).done <==> 2 * state.batch > state.cap || 28 * state.batch > 524288000,
        !tried(state, true).done ==> tried(state, true).batch == 2 * state.batch,
        tried(state, true).cap == state.cap,
        tried(state, false).done,
        tried(state, false).last_ok == state.last_ok,
        tried(state, false).cap == state.cap,
{
}

} // verus!
