//! Frame sampling: frames arriving out of order are put back in processing
//! order, and within every second of video the frames nearest to evenly
//! spaced instants are kept.

use vstd::prelude::*;
use vstd::std_specs::btree::increasing_seq;
use vstd::std_specs::iter::IteratorSpec;

use crate::frame::{FrameTime, VideoFrame};
use crate::sink::FrameMetadata;

verus! {

broadcast use vstd::std_specs::btree::group_btree_axioms, vstd::laws_cmp::group_laws_cmp;

/// A time within a second, as the fraction `num / den` of a second.
#[derive(Clone, Copy, Debug, PartialEq, Eq, Structural)]
pub struct Elapsed {
    pub num: u64,
    pub den: u64,
}

/// The `i`-th sampling instant of a second sampled `sps` times, as a
/// fraction of the second: `i / sps`.
pub open spec fn reaches(e: Elapsed, i: nat, sps: nat) -> bool {
    // e.num / e.den + 1/1_000_000 >= i / sps
    (e.num * 1_000_000 + e.den) * sps >= i * e.den * 1_000_000
}

/// The index of the first sampling instant from `next` on that `e` has not
/// reached, at most `slots`.
pub open spec fn consume_to(next: nat, slots: nat, sps: nat, e: Elapsed) -> nat
    decreases slots - next,
{
    if next < slots && reaches(e, next, sps) {
        consume_to(next + 1, slots, sps, e)
    } else {
        next
    }
}

/// Consuming never passes the last instant and never goes back.
pub proof fn lemma_consume_bound(next: nat, slots: nat, sps: nat, e: Elapsed)
    requires
        next <= slots,
    ensures
        next <= consume_to(next, slots, sps, e) <= slots,
    decreases slots - next,
{
    if next < slots && reaches(e, next, sps) {
        lemma_consume_bound(next + 1, slots, sps, e);
    }
}

/// The number of frames written when frames at the times `es` arrive, in
/// order, within a second whose first `next` instants are passed.
pub open spec fn writes_in_second(next: nat, slots: nat, sps: nat, es: Seq<Elapsed>) -> nat
    decreases es.len(),
{
    if es.len() == 0 {
        0
    } else {
        let after = consume_to(next, slots, sps, es[0]);
        (if after > next { 1nat } else { 0nat }) + writes_in_second(after, slots, sps, es.drop_first())
    }
}

/// However many frames arrive within one second, at most one per sampling
/// instant is written: at most `slots - next` more.
pub proof fn lemma_writes_per_second(next: nat, slots: nat, sps: nat, es: Seq<Elapsed>)
    requires
        next <= slots,
    ensures
        writes_in_second(next, slots, sps, es) <= slots - next,
    decreases es.len(),
{
    if es.len() > 0 {
        let after = consume_to(next, slots, sps, es[0]);
        lemma_consume_bound(next, slots, sps, es[0]);
        lemma_writes_per_second(after, slots, sps, es.drop_first());
    }
}

/// Whether `e` reaches the `i`-th instant of a second sampled `sps` times.
fn reaches_exec(e: Elapsed, i: usize, sps: u32) -> (r: bool)
    requires
        i <= u32::MAX,
    ensures
        r == reaches(e, i as nat, sps as nat),
{
    let lhs_base: u128 = (e.num as u128) * 1_000_000 + e.den as u128;
    proof {
        assert(lhs_base <= 0x10_0000_0000_0000_0000_0000) by (nonlinear_arith)
            requires
                lhs_base == e.num * 1_000_000 + e.den,
                e.num <= u64::MAX,
                e.den <= u64::MAX,
        ;
        assert(lhs_base * sps <= 0x10_0000_0000_0000_0000_0000 * 0x1_0000_0000) by (nonlinear_arith)
            requires
                lhs_base <= 0x10_0000_0000_0000_0000_0000,
                sps <= u32::MAX,
        ;
        assert((i as int) * (e.den as int) <= 0x1_0000_0000 * 0x1_0000_0000_0000_0000) by (nonlinear_arith)
            requires
                i <= u32::MAX,
                e.den <= u64::MAX,
        ;
    }
    let lhs = lhs_base * (sps as u128);
    let rhs = (i as u128) * (e.den as u128) * 1_000_000;
    lhs >= rhs
}

/// The sampling instants of one second of video.
#[derive(Clone, Copy, Debug, PartialEq, Eq, Structural)]
pub struct SamplerSecond {
    pub index: u64,
    pub slots: usize,
    pub samples_per_second: u32,
    pub next_target_idx: usize,
}

impl SamplerSecond {
    /// The instants `0, 1/sps, ..., (sps - 1)/sps` of second `index`, none
    /// reached yet; a rate of 0 gives the single instant 0.
    pub fn new(index: u64, samples_per_second: u32) -> (s: Self)
        ensures
            s == (SamplerSecond {
                index,
                slots: if samples_per_second >= 1 { samples_per_second as usize } else { 1 },
                samples_per_second,
                next_target_idx: 0,
            }),
    {
        let slots = if samples_per_second >= 1 { samples_per_second as usize } else { 1 };
        SamplerSecond { index, slots, samples_per_second, next_target_idx: 0 }
    }

    /// Passes every instant that `elapsed` (with a millionth of a second of
    /// tolerance) has reached; true when it passed at least one.
    pub fn consume(&mut self, elapsed: Elapsed) -> (write: bool)
        requires
            elapsed.den > 0,
            old(self).next_target_idx <= old(self).slots,
            old(self).slots == 1 || old(self).slots == old(self).samples_per_second,
        ensures
            *final(self) == (SamplerSecond {
                next_target_idx: consume_to(
                    old(self).next_target_idx as nat,
                    old(self).slots as nat,
                    old(self).samples_per_second as nat,
                    elapsed,
                ) as usize,
                ..*old(self)
            }),
            write == (final(self).next_target_idx > old(self).next_target_idx),
    {
        if self.slots == 0 {
            return false;
        }
        let ghost start = self.next_target_idx;
        let mut write = false;
        while self.next_target_idx < self.slots && reaches_exec(elapsed, self.next_target_idx, self.samples_per_second)
            invariant
                start <= self.next_target_idx <= self.slots,
                self.slots == old(self).slots,
                self.index == old(self).index,
                self.samples_per_second == old(self).samples_per_second,
                start == old(self).next_target_idx,
                consume_to(self.next_target_idx as nat, self.slots as nat, self.samples_per_second as nat, elapsed)
                    == consume_to(start as nat, self.slots as nat, self.samples_per_second as nat, elapsed),
                write == (self.next_target_idx > start),
                self.slots <= u32::MAX,
            decreases self.slots - self.next_target_idx,
        {
            write = true;
            self.next_target_idx = self.next_target_idx + 1;
        }
        write
    }
}

/// The second a frame falls in and its time within that second: from its
/// timestamp when it has one, else from its processing position at
/// `sps` frames per second.
pub open spec fn resolve_second_spec(timestamp: Option<FrameTime>, processed_index: u64, sps: nat) -> (u64, Elapsed) {
    match timestamp {
        Some(t) => (t.secs, Elapsed { num: t.nanos as u64, den: 1_000_000_000 }),
        None => {
            let processed: nat = if processed_index >= 1 { (processed_index - 1) as nat } else { 0 };
            let second: nat = processed / sps;
            let offset: int = processed - second * sps;
            (second as u64, Elapsed { num: offset as u64, den: sps as u64 })
        },
    }
}

/// A frame's time within its second is what its timestamp says: for a
/// timestamped frame the second is the timestamp's and the elapsed fraction
/// is `nanos / 10^9`, so it reaches the `i`-th of `sps` instants of the
/// second exactly when `nanos` (with the microsecond of tolerance) reaches
/// `i / sps` of a second. An untimed frame falls in second
/// `(processed_index - 1) / sps`, at the fraction its position leaves over.
pub proof fn lemma_resolved_time(timestamp: Option<FrameTime>, processed_index: u64, sps: nat, i: nat)
    requires
        1 <= sps <= u64::MAX,
    ensures
        ({
            let (second, e) = resolve_second_spec(timestamp, processed_index, sps);
            &&& e.den > 0
            &&& match timestamp {
                Some(t) => {
                    &&& second == t.secs
                    &&& e.num * 1_000_000_000 == t.nanos * e.den
                    &&& reaches(e, i, sps) <==> (t.nanos + 1000) * sps >= i * 1_000_000_000
                },
                None => {
                    let p: nat = if processed_index >= 1 { (processed_index - 1) as nat } else { 0 };
                    &&& e.den == sps
                    &&& e.num < sps
                    &&& second * sps + e.num == p
                },
            }
        }),
{
    let (second, e) = resolve_second_spec(timestamp, processed_index, sps);
    match timestamp {
        Some(t) => {
            let n = t.nanos as int;
            assert((n * 1_000_000 + 1_000_000_000) * sps == 1_000_000 * ((n + 1000) * sps)) by (nonlinear_arith);
            assert(i * 1_000_000_000 * 1_000_000 == 1_000_000 * (i * 1_000_000_000)) by (nonlinear_arith);
        },
        None => {
            let p: nat = if processed_index >= 1 { (processed_index - 1) as nat } else { 0 };
            vstd::arithmetic::div_mod::lemma_fundamental_div_mod(p as int, sps as int);
            assert(0 <= p % sps < sps) by {
                vstd::arithmetic::div_mod::lemma_mod_pos_bound(p as int, sps as int);
            }
            assert((p / sps) * sps == sps * (p / sps)) by (nonlinear_arith);
            assert(p / sps <= p) by {
                vstd::arithmetic::div_mod::lemma_div_is_ordered_by_denominator(p as int, 1, sps as int);
            }
        },
    }
}

/// The sampling state: the rate, and the second being sampled.
#[derive(Clone, Copy, Debug, PartialEq, Eq, Structural)]
pub struct FrameSampler {
    pub samples_per_second: u32,
    pub current: Option<SamplerSecond>,
}

/// One sampling decision: the sampler after a frame of second `second` at
/// time `e` within it, and whether the frame is kept.
pub open spec fn sample_step(s: FrameSampler, second: u64, e: Elapsed) -> (FrameSampler, bool) {
    let cur = match s.current {
        Some(c) => if c.index == second {
            c
        } else {
            SamplerSecond { index: second, slots: s.samples_per_second as usize, samples_per_second: s.samples_per_second, next_target_idx: 0 }
        },
        None => SamplerSecond { index: second, slots: s.samples_per_second as usize, samples_per_second: s.samples_per_second, next_target_idx: 0 },
    };
    let next = consume_to(cur.next_target_idx as nat, cur.slots as nat, cur.samples_per_second as nat, e);
    (FrameSampler { current: Some(SamplerSecond { next_target_idx: next as usize, ..cur }), ..s }, next > cur.next_target_idx)
}

/// A timestamped frame is kept exactly when its time within its second,
/// `nanos / 10^9` (with a microsecond of tolerance), reaches the first
/// sampling instant of that second not yet taken: instant `next` of `sps`,
/// `next / sps` of a second, where `next` is 0 when the frame opens a new
/// second.
pub proof fn lemma_timed_frame_kept(s: FrameSampler, t: FrameTime, processed_index: u64)
    requires
        sampler_wf(s),
    ensures
        ({
            let sps = s.samples_per_second as nat;
            let next: nat = match s.current {
                Some(c) => if c.index == t.secs { c.next_target_idx as nat } else { 0 },
                None => 0,
            };
            let (second, e) = resolve_second_spec(Some(t), processed_index, sps);
            sample_step(s, second, e).1 <==> next < sps && (t.nanos + 1000) * sps >= next * 1_000_000_000
        }),
{
    let sps = s.samples_per_second as nat;
    let next: nat = match s.current {
        Some(c) => if c.index == t.secs { c.next_target_idx as nat } else { 0 },
        None => 0,
    };
    let (second, e) = resolve_second_spec(Some(t), processed_index, sps);
    lemma_resolved_time(Some(t), processed_index, sps, next);
    let slots = sps;
    if next < slots && reaches(e, next, sps) {
        lemma_consume_bound(next + 1, slots, sps, e);
    }
}

/// The sampler is well formed: a positive rate, and a current second with
/// one instant per sample and a position among them.
pub open spec fn sampler_wf(s: FrameSampler) -> bool {
    &&& s.samples_per_second >= 1
    &&& s.current matches Some(c) ==> c.slots == s.samples_per_second && c.samples_per_second == s.samples_per_second
        && c.next_target_idx <= c.slots
}

impl FrameSampler {
    /// A sampler taking `samples_per_second` frames (at least one) per second.
    pub fn new(samples_per_second: u32) -> (s: Self)
        ensures
            s == (FrameSampler { samples_per_second: if samples_per_second >= 1 { samples_per_second } else { 1 }, current: None }),
            sampler_wf(s),
    {
        FrameSampler { samples_per_second: if samples_per_second >= 1 { samples_per_second } else { 1 }, current: None }
    }

    /// The second a frame falls in and its time within it.
    pub fn resolve_second(&self, timestamp: Option<FrameTime>, processed_index: u64) -> (r: (u64, Elapsed))
        requires
            self.samples_per_second >= 1,
        ensures
            r == resolve_second_spec(timestamp, processed_index, self.samples_per_second as nat),
            r.1.den > 0,
            timestamp matches Some(t) ==> r.0 == t.secs && r.1.num * 1_000_000_000 == t.nanos * r.1.den,
    {
        proof {
            lemma_resolved_time(timestamp, processed_index, self.samples_per_second as nat, 0);
        }
        match timestamp {
            Some(t) => (t.secs, Elapsed { num: t.nanos as u64, den: 1_000_000_000 }),
            None => {
                let samples = self.samples_per_second as u64;
                let processed = if processed_index >= 1 { processed_index - 1 } else { 0 };
                let second = processed / samples;
                proof {
                    assert(second * samples <= processed) by (nonlinear_arith)
                        requires
                            second == processed / samples,
                            samples > 0,
                    ;
                }
                let offset = processed - second * samples;
                (second, Elapsed { num: offset, den: samples })
            },
        }
    }

    /// Decides whether to keep a frame with the given times: the frame is
    /// kept when it reaches a new sampling instant of its second.
    pub fn should_sample(&mut self, metadata: &FrameMetadata, frame_timestamp: Option<FrameTime>) -> (keep: bool)
        requires
            sampler_wf(*old(self)),
        ensures
            sampler_wf(*final(self)),
            ({
                let ts = match metadata.timestamp {
                    Some(t) => Some(t),
                    None => frame_timestamp,
                };
                let (second, e) = resolve_second_spec(ts, metadata.processed_index, old(self).samples_per_second as nat);
                (*final(self), keep) == sample_step(*old(self), second, e)
            }),
    {
        let ts = match metadata.timestamp {
            Some(t) => Some(t),
            None => frame_timestamp,
        };
        let (second, elapsed) = self.resolve_second(ts, metadata.processed_index);
        let renew = match self.current {
            Some(c) => c.index != second,
            None => true,
        };
        if renew {
            self.current = Some(SamplerSecond::new(second, self.samples_per_second));
        }
        match self.current {
            Some(c) => {
                let mut cur = c;
                let keep = cur.consume(elapsed);
                proof {
                    lemma_consume_bound(c.next_target_idx as nat, c.slots as nat, c.samples_per_second as nat, elapsed);
                }
                self.current = Some(cur);
                keep
            },
            None => false,
        }
    }
}

/// A frame kept for processing, with its metadata.
#[derive(Debug)]
pub struct SampledFrame {
    pub frame: VideoFrame,
    pub metadata: FrameMetadata,
}

/// The frames released from `pending` starting at position `next`:
/// consecutive positions, each passed through the sampler, until a position
/// is missing; with the pending frames, the position and the sampler after.
pub open spec fn collect_spec(pending: Map<u64, SampledFrame>, next: u64, s: FrameSampler) -> (Seq<SampledFrame>, Map<u64, SampledFrame>, u64, FrameSampler)
    decreases pending.len(),
    when pending.dom().finite()
{
    if pending.contains_key(next) {
        let f = pending[next];
        let ts = match f.metadata.timestamp {
            Some(t) => Some(t),
            None => f.frame.spec_timestamp(),
        };
        let (second, e) = resolve_second_spec(ts, f.metadata.processed_index, s.samples_per_second as nat);
        let (s2, keep) = sample_step(s, second, e);
        let n2 = if next < u64::MAX { (next + 1) as u64 } else { next };
        let rest = collect_spec(pending.remove(next), n2, s2);
        (if keep { seq![f] + rest.0 } else { rest.0 }, rest.1, rest.2, rest.3)
    } else {
        (Seq::empty(), pending, next, s)
    }
}

/// `k` is the smallest position of `m`.
pub open spec fn is_min_key(m: Map<u64, SampledFrame>, k: u64) -> bool {
    m.contains_key(k) && forall|j: u64| m.contains_key(j) ==> k <= j
}

/// The smallest position of `m`.
pub open spec fn min_key(m: Map<u64, SampledFrame>) -> u64 {
    choose|k: u64| is_min_key(m, k)
}

/// A finite non-empty set of positions has a smallest one.
proof fn lemma_set_min(s: Set<u64>)
    requires
        s.finite(),
        s.len() > 0,
    ensures
        exists|k: u64| s.contains(k) && forall|j: u64| s.contains(j) ==> k <= j,
    decreases s.len(),
{
    let a = s.choose();
    assert(s.contains(a));
    let r = s.remove(a);
    if r.len() == 0 {
        assert forall|j: u64| s.contains(j) implies a <= j by {
            if j != a {
                assert(r.contains(j));
            }
        }
    } else {
        lemma_set_min(r);
        let b = choose|k: u64| r.contains(k) && forall|j: u64| r.contains(j) ==> k <= j;
        let m = if a <= b { a } else { b };
        assert forall|j: u64| s.contains(j) implies m <= j by {
            if j != a {
                assert(r.contains(j));
            }
        }
        assert(s.contains(m));
    }
}

/// In a sequence of keys in increasing order the first is below every later one.
proof fn lemma_increasing_head(sq: Seq<&u64>, t: int)
    requires
        increasing_seq(sq),
        0 < t < sq.len(),
    ensures
        *sq[0] < *sq[t],
{
    assert(vstd::std_specs::cmp::OrdSpec::cmp_spec(&sq[0], &sq[t]) is Less);
}

/// A finite non-empty map of positions has a smallest position.
pub proof fn lemma_min_key(m: Map<u64, SampledFrame>)
    requires
        m.dom().finite(),
        m.len() > 0,
    ensures
        is_min_key(m, min_key(m)),
{
    lemma_set_min(m.dom());
    let k = choose|k: u64| m.dom().contains(k) && forall|j: u64| m.dom().contains(j) ==> k <= j;
    assert(is_min_key(m, k));
}

/// Releasing frames only removes positions, removes the awaited one when
/// it is pending, and stops at a position that is not pending.
pub proof fn lemma_collect_props(pending: Map<u64, SampledFrame>, next: u64, s: FrameSampler)
    requires
        pending.dom().finite(),
    ensures
        collect_spec(pending, next, s).1.dom().finite(),
        collect_spec(pending, next, s).1.len() <= pending.len(),
        pending.contains_key(next) ==> collect_spec(pending, next, s).1.len() < pending.len(),
        !pending.contains_key(next) ==> collect_spec(pending, next, s) == (Seq::<SampledFrame>::empty(), pending, next, s),
        !collect_spec(pending, next, s).1.contains_key(collect_spec(pending, next, s).2),
        collect_spec(pending, next, s).0.len() > 0 ==> pending.contains_key(next),
        forall|k: u64| #[trigger] collect_spec(pending, next, s).1.contains_key(k) ==> pending.contains_key(k),
    decreases pending.len(),
{
    if pending.contains_key(next) {
        let f = pending[next];
        let ts = match f.metadata.timestamp {
            Some(t) => Some(t),
            None => f.frame.spec_timestamp(),
        };
        let (second, e) = resolve_second_spec(ts, f.metadata.processed_index, s.samples_per_second as nat);
        let (s2, keep) = sample_step(s, second, e);
        let n2 = if next < u64::MAX { (next + 1) as u64 } else { next };
        let p2 = pending.remove(next);
        vstd::set::axiom_set_remove_len(pending.dom(), next);
        lemma_collect_props(p2, n2, s2);
    }
}

/// Each pending frame is stored under its own processing position.
pub open spec fn positions_match(pending: Map<u64, SampledFrame>) -> bool {
    forall|k: u64| #[trigger] pending.contains_key(k) ==> pending[k].metadata.processed_index == k
}

/// The frames released in one pass come in strictly increasing processing
/// position, none before the awaited position and none after the position
/// awaited next; what stays pending is still stored under its own position.
pub proof fn lemma_released_in_order(pending: Map<u64, SampledFrame>, next: u64, s: FrameSampler)
    requires
        pending.dom().finite(),
        positions_match(pending),
    ensures
        ({
            let c = collect_spec(pending, next, s);
            &&& forall|i: int| 0 <= i < c.0.len() ==> next <= #[trigger] c.0[i].metadata.processed_index <= c.2
            &&& forall|i: int, j: int| 0 <= i < j < c.0.len() ==> c.0[i].metadata.processed_index < c.0[j].metadata.processed_index
            &&& next <= c.2
            &&& positions_match(c.1)
        }),
    decreases pending.len(),
{
    if pending.contains_key(next) {
        let f = pending[next];
        let ts = match f.metadata.timestamp {
            Some(t) => Some(t),
            None => f.frame.spec_timestamp(),
        };
        let (second, e) = resolve_second_spec(ts, f.metadata.processed_index, s.samples_per_second as nat);
        let (s2, keep) = sample_step(s, second, e);
        let n2 = if next < u64::MAX { (next + 1) as u64 } else { next };
        let p2 = pending.remove(next);
        vstd::set::axiom_set_remove_len(pending.dom(), next);
        assert(positions_match(p2)) by {
            assert forall|k: u64| #[trigger] p2.contains_key(k) implies p2[k].metadata.processed_index == k by {
                assert(pending.contains_key(k));
            }
        }
        lemma_released_in_order(p2, n2, s2);
        lemma_collect_props(p2, n2, s2);
        let rest = collect_spec(p2, n2, s2);
        if next == u64::MAX {
            assert(!p2.contains_key(n2));
            assert(rest.0.len() == 0);
        }
        if keep {
            let out = seq![f] + rest.0;
            assert forall|i: int| 0 <= i < out.len() implies next <= #[trigger] out[i].metadata.processed_index <= rest.2 by {
                if i > 0 {
                    assert(out[i] == rest.0[i - 1]);
                }
            }
            assert forall|i: int, j: int| 0 <= i < j < out.len() implies out[i].metadata.processed_index < out[j].metadata.processed_index by {
                assert(out[j] == rest.0[j - 1]);
                if i > 0 {
                    assert(out[i] == rest.0[i - 1]);
                }
            }
        }
    }
}

/// The frames released by draining `pending` from position `next`: release
/// what is ready; when nothing was released and frames remain, jump to the
/// smallest pending position; repeat until nothing is pending. With the
/// position and the sampler after.
pub open spec fn drain_spec(pending: Map<u64, SampledFrame>, next: u64, s: FrameSampler) -> (Seq<SampledFrame>, u64, FrameSampler)
    decreases 2 * pending.len() + (if pending.contains_key(next) { 0int } else { 1int }),
    when pending.dom().finite()
{
    if pending.len() == 0 {
        (Seq::empty(), next, s)
    } else {
        let c = collect_spec(pending, next, s);
        let next2 = if c.0.len() == 0 && c.1.len() > 0 {
            min_key(c.1)
        } else {
            c.2
        };
        proof {
            lemma_collect_props(pending, next, s);
            if c.0.len() == 0 && c.1.len() > 0 {
                lemma_min_key(c.1);
            }
        }
        let rest = drain_spec(c.1, next2, c.3);
        (c.0 + rest.0, rest.1, rest.2)
    }
}

/// Releasing frames from `next` on takes each released frame from
/// `pending` under its position, leaves the other pending frames as they
/// were, and, when no pending position is below `next`, leaves only
/// positions past the one it stops at.
pub proof fn lemma_collect_keys(pending: Map<u64, SampledFrame>, next: u64, s: FrameSampler)
    requires
        pending.dom().finite(),
        positions_match(pending),
    ensures
        ({
            let c = collect_spec(pending, next, s);
            &&& forall|i: int|
                0 <= i < c.0.len() ==> pending.contains_key(#[trigger] c.0[i].metadata.processed_index) && pending[c.0[i].metadata.processed_index]
                    == c.0[i]
            &&& forall|k: u64| #[trigger] c.1.contains_key(k) ==> pending.contains_key(k) && c.1[k] == pending[k]
            &&& (forall|k: u64| #[trigger] pending.contains_key(k) ==> k >= next) ==> (forall|k: u64| #[trigger] c.1.contains_key(k) ==> k > c.2)
            &&& forall|q: u64| next <= q < c.2 ==> #[trigger] pending.contains_key(q)
            &&& next <= c.2
        }),
    decreases pending.len(),
{
    if pending.contains_key(next) {
        let f = pending[next];
        let ts = match f.metadata.timestamp {
            Some(t) => Some(t),
            None => f.frame.spec_timestamp(),
        };
        let (second, e) = resolve_second_spec(ts, f.metadata.processed_index, s.samples_per_second as nat);
        let (s2, keep) = sample_step(s, second, e);
        let n2 = if next < u64::MAX { (next + 1) as u64 } else { next };
        let p2 = pending.remove(next);
        vstd::set::axiom_set_remove_len(pending.dom(), next);
        assert(positions_match(p2)) by {
            assert forall|k: u64| #[trigger] p2.contains_key(k) implies p2[k].metadata.processed_index == k by {
                assert(pending.contains_key(k));
            }
        }
        lemma_collect_keys(p2, n2, s2);
        lemma_collect_props(p2, n2, s2);
        let rest = collect_spec(p2, n2, s2);
        let c = collect_spec(pending, next, s);
        assert forall|i: int| 0 <= i < c.0.len() implies pending.contains_key(#[trigger] c.0[i].metadata.processed_index)
            && pending[c.0[i].metadata.processed_index] == c.0[i] by {
            if keep {
                if i > 0 {
                    assert(c.0[i] == rest.0[i - 1]);
                }
            } else {
                assert(c.0[i] == rest.0[i]);
            }
        }
        if forall|k: u64| #[trigger] pending.contains_key(k) ==> k >= next {
            assert forall|k: u64| #[trigger] p2.contains_key(k) implies k >= n2 by {
                assert(pending.contains_key(k));
            }
        }
        assert forall|q: u64| next <= q < c.2 implies #[trigger] pending.contains_key(q) by {
            if q != next {
                assert(p2.contains_key(q));
            }
        }
    }
}

/// Draining, when no pending frame lies below the awaited position,
/// releases pending frames, each once, in strictly increasing processing
/// position, none before the awaited one; and draining nothing releases
/// nothing.
pub proof fn lemma_drain_in_order(pending: Map<u64, SampledFrame>, next: u64, s: FrameSampler)
    requires
        pending.dom().finite(),
        positions_match(pending),
        forall|k: u64| #[trigger] pending.contains_key(k) ==> k >= next,
    ensures
        ({
            let d = drain_spec(pending, next, s);
            &&& forall|i: int, j: int| 0 <= i < j < d.0.len() ==> d.0[i].metadata.processed_index < d.0[j].metadata.processed_index
            &&& forall|i: int|
                0 <= i < d.0.len() ==> pending.contains_key(#[trigger] d.0[i].metadata.processed_index) && pending[d.0[i].metadata.processed_index]
                    == d.0[i] && d.0[i].metadata.processed_index >= next
            &&& d.1 >= next
        }),
        drain_spec(Map::<u64, SampledFrame>::empty(), next, s).0.len() == 0,
    decreases 2 * pending.len() + (if pending.contains_key(next) { 0int } else { 1int }),
{
    assert(Map::<u64, SampledFrame>::empty().len() == 0);
    if pending.len() > 0 {
        let c = collect_spec(pending, next, s);
        lemma_collect_props(pending, next, s);
        lemma_collect_keys(pending, next, s);
        lemma_released_in_order(pending, next, s);
        let next2 = if c.0.len() == 0 && c.1.len() > 0 {
            min_key(c.1)
        } else {
            c.2
        };
        if c.0.len() == 0 && c.1.len() > 0 {
            lemma_min_key(c.1);
        }
        assert forall|k: u64| #[trigger] c.1.contains_key(k) implies k >= next2 by {
            if c.0.len() == 0 && c.1.len() > 0 {
                assert(is_min_key(c.1, next2));
            }
        }
        lemma_drain_in_order(c.1, next2, c.3);
        let rest = drain_spec(c.1, next2, c.3);
        let d = drain_spec(pending, next, s);
        assert(d.0 == c.0 + rest.0);
        assert forall|i: int| 0 <= i < d.0.len() implies pending.contains_key(#[trigger] d.0[i].metadata.processed_index)
            && pending[d.0[i].metadata.processed_index] == d.0[i] && d.0[i].metadata.processed_index >= next by {
            if i >= c.0.len() {
                assert(d.0[i] == rest.0[i - c.0.len()]);
                assert(c.1.contains_key(rest.0[i - c.0.len()].metadata.processed_index));
            } else {
                assert(d.0[i] == c.0[i]);
            }
        }
        assert forall|i: int, j: int| 0 <= i < j < d.0.len() implies d.0[i].metadata.processed_index < d.0[j].metadata.processed_index by {
            if j >= c.0.len() {
                let rj = rest.0[j - c.0.len()];
                assert(d.0[j] == rj);
                assert(c.1.contains_key(rj.metadata.processed_index));
                if i >= c.0.len() {
                    assert(d.0[i] == rest.0[i - c.0.len()]);
                } else {
                    assert(d.0[i] == c.0[i]);
                    assert(c.0[i].metadata.processed_index <= c.2);
                }
            } else {
                assert(d.0[i] == c.0[i]);
                assert(d.0[j] == c.0[j]);
            }
        }
    }
}

/// The second a frame without a time at processing position `p` falls in,
/// at `sps` frames per second.
pub open spec fn untimed_second(p: u64, sps: nat) -> int {
    (p - 1) / (sps as int)
}

/// The position of such a frame within its second.
pub open spec fn untimed_offset(p: u64, sps: nat) -> int {
    (p - 1) - untimed_second(p, sps) * sps
}

/// The sampler keeps a frame without a time at position `p`: its second is
/// not the current one, or the current one has not passed its instant.
pub open spec fn ready_for(s: FrameSampler, p: u64) -> bool {
    match s.current {
        None => true,
        Some(c) => c.index != untimed_second(p, s.samples_per_second as nat) || c.next_target_idx <= untimed_offset(
            p,
            s.samples_per_second as nat,
        ),
    }
}

/// A frame without a time.
pub open spec fn untimed(f: SampledFrame) -> bool {
    f.metadata.timestamp is None && f.frame.spec_timestamp() is None
}

/// At fewer than a million frames per second, a frame at offset `o` of its
/// second passes every instant up to its own and no further.
proof fn lemma_consume_to_offset(n: nat, o: nat, sps: nat)
    requires
        n <= o + 1,
        o < sps,
        sps < 1_000_000,
    ensures
        consume_to(n, sps, sps, Elapsed { num: o as u64, den: sps as u64 }) == o + 1,
    decreases o + 1 - n,
{
    let e = Elapsed { num: o as u64, den: sps as u64 };
    if n <= o {
        assert(reaches(e, n, sps)) by (nonlinear_arith)
            requires
                n <= o,
                e.num == o,
                e.den == sps,
                sps > 0,
        ;
        lemma_consume_to_offset(n + 1, o, sps);
    } else if n < sps {
        assert(!reaches(e, n, sps)) by (nonlinear_arith)
            requires
                n == o + 1,
                e.num == o,
                e.den == sps,
                sps > 0,
                sps < 1_000_000,
        ;
    }
}

/// The second and offset of a later untimed frame come after those of an
/// earlier one.
proof fn lemma_untimed_order(p: u64, q: u64, sps: nat)
    requires
        1 <= p < q,
        sps >= 1,
    ensures
        untimed_second(p, sps) <= untimed_second(q, sps),
        untimed_second(p, sps) == untimed_second(q, sps) ==> untimed_offset(p, sps) < untimed_offset(q, sps),
        0 <= untimed_offset(p, sps) < sps,
        0 <= untimed_second(p, sps),
{
    vstd::arithmetic::div_mod::lemma_div_is_ordered((p - 1) as int, (q - 1) as int, sps as int);
    vstd::arithmetic::div_mod::lemma_fundamental_div_mod((p - 1) as int, sps as int);
    vstd::arithmetic::div_mod::lemma_div_pos_is_pos((p - 1) as int, sps as int);
    assert(untimed_second(p, sps) * sps == sps * untimed_second(p, sps)) by (nonlinear_arith);
}

/// The offset of an untimed frame lies within its second.
proof fn lemma_untimed_bounds(p: u64, sps: nat)
    requires
        1 <= p,
        sps >= 1,
    ensures
        0 <= untimed_offset(p, sps) < sps,
        0 <= untimed_second(p, sps),
{
    vstd::arithmetic::div_mod::lemma_fundamental_div_mod((p - 1) as int, sps as int);
    vstd::arithmetic::div_mod::lemma_div_pos_is_pos((p - 1) as int, sps as int);
    assert(untimed_second(p, sps) * sps == sps * untimed_second(p, sps)) by (nonlinear_arith);
}

/// Releasing ready untimed frames keeps every one of them and leaves the
/// sampler ready for the later ones.
proof fn lemma_collect_untimed(pending: Map<u64, SampledFrame>, next: u64, s: FrameSampler)
    requires
        pending.dom().finite(),
        positions_match(pending),
        sampler_wf(s),
        s.samples_per_second < 1_000_000,
        next >= 1,
        forall|k: u64| #[trigger] pending.contains_key(k) ==> k >= next && untimed(pending[k]) && ready_for(s, k),
    ensures
        ({
            let c = collect_spec(pending, next, s);
            &&& c.0.len() + c.1.len() == pending.len()
            &&& sampler_wf(c.3)
            &&& c.3.samples_per_second == s.samples_per_second
            &&& forall|k: u64| #[trigger] c.1.contains_key(k) ==> ready_for(c.3, k)
            &&& (forall|q: u64| next <= q < u64::MAX ==> #[trigger] ready_for(s, q)) ==> (forall|q: u64|
                c.2 <= q < u64::MAX ==> #[trigger] ready_for(c.3, q))
        }),
    decreases pending.len(),
{
    lemma_collect_props(pending, next, s);
    lemma_collect_keys(pending, next, s);
    if pending.contains_key(next) {
        let f = pending[next];
        let sps = s.samples_per_second as nat;
        let ts = match f.metadata.timestamp {
            Some(t) => Some(t),
            None => f.frame.spec_timestamp(),
        };
        assert(ts is None);
        let (second, e) = resolve_second_spec(ts, f.metadata.processed_index, sps);
        assert(f.metadata.processed_index == next);
        lemma_untimed_bounds(next, sps);
        assert(second == untimed_second(next, sps));
        assert(e == Elapsed { num: untimed_offset(next, sps) as u64, den: sps as u64 });
        let (s2, keep) = sample_step(s, second, e);
        let o = untimed_offset(next, sps) as nat;
        let cur = match s.current {
            Some(c) => if c.index == second {
                c
            } else {
                SamplerSecond { index: second, slots: s.samples_per_second as usize, samples_per_second: s.samples_per_second, next_target_idx: 0 }
            },
            None => SamplerSecond { index: second, slots: s.samples_per_second as usize, samples_per_second: s.samples_per_second, next_target_idx: 0 },
        };
        assert(ready_for(s, next));
        assert(cur.next_target_idx <= o);
        lemma_consume_to_offset(cur.next_target_idx as nat, o, sps);
        assert(keep);
        assert(s2.current == Some(SamplerSecond { next_target_idx: (o + 1) as usize, ..cur }));
        let n2 = if next < u64::MAX { (next + 1) as u64 } else { next };
        let p2 = pending.remove(next);
        vstd::set::axiom_set_remove_len(pending.dom(), next);
        assert(positions_match(p2)) by {
            assert forall|k: u64| #[trigger] p2.contains_key(k) implies p2[k].metadata.processed_index == k by {
                assert(pending.contains_key(k));
            }
        }
        assert forall|k: u64| #[trigger] p2.contains_key(k) implies k >= n2 && untimed(p2[k]) && ready_for(s2, k) by {
            assert(pending.contains_key(k));
            assert(k > next);
            lemma_untimed_order(next, k, sps);
        }
        assert forall|q: u64| n2 <= q < u64::MAX implies #[trigger] ready_for(s2, q) by {
            lemma_untimed_order(next, q, sps);
        }
        lemma_collect_untimed(p2, n2, s2);
    }
}

/// Draining frames that carry no time, at fewer than a million frames per
/// second, with no pending frame below the awaited position and a sampler
/// ready for each of them, releases every pending frame.
pub proof fn lemma_drain_keeps_untimed(pending: Map<u64, SampledFrame>, next: u64, s: FrameSampler)
    requires
        pending.dom().finite(),
        positions_match(pending),
        sampler_wf(s),
        s.samples_per_second < 1_000_000,
        next >= 1,
        forall|k: u64| #[trigger] pending.contains_key(k) ==> k >= next && untimed(pending[k]) && ready_for(s, k),
    ensures
        drain_spec(pending, next, s).0.len() == pending.len(),
    decreases 2 * pending.len() + (if pending.contains_key(next) { 0int } else { 1int }),
{
    if pending.len() > 0 {
        let c = collect_spec(pending, next, s);
        lemma_collect_props(pending, next, s);
        lemma_collect_keys(pending, next, s);
        lemma_collect_untimed(pending, next, s);
        let next2 = if c.0.len() == 0 && c.1.len() > 0 {
            min_key(c.1)
        } else {
            c.2
        };
        if c.0.len() == 0 && c.1.len() > 0 {
            lemma_min_key(c.1);
        }
        assert(c.2 >= next) by {
            lemma_released_in_order(pending, next, s);
        }
        assert forall|k: u64| #[trigger] c.1.contains_key(k) implies k >= next2 && untimed(c.1[k]) && ready_for(c.3, k) by {
            if c.0.len() == 0 && c.1.len() > 0 {
                assert(is_min_key(c.1, next2));
            }
            assert(pending.contains_key(k));
        }
        assert(positions_match(c.1)) by {
            lemma_released_in_order(pending, next, s);
        }
        assert(next2 >= 1) by {
            if c.0.len() == 0 && c.1.len() > 0 {
                assert(c.1.contains_key(next2));
                assert(pending.contains_key(next2));
            }
        }
        lemma_drain_keeps_untimed(c.1, next2, c.3);
    }
}

/// Reorders frames by their processing position and samples them.
pub struct FrameSampleCoordinator {
    sampler: FrameSampler,
    pending: std::collections::BTreeMap<u64, SampledFrame>,
    next_processed_index: u64,
    seen: Ghost<Set<u64>>,
}

impl FrameSampleCoordinator {
    pub closed spec fn spec_pending(&self) -> Map<u64, SampledFrame> {
        self.pending@
    }

    pub closed spec fn spec_next(&self) -> u64 {
        self.next_processed_index
    }

    pub closed spec fn spec_sampler(&self) -> FrameSampler {
        self.sampler
    }

    /// The positions handed in so far, and those passed over by a drain.
    pub closed spec fn spec_seen(&self) -> Set<u64> {
        self.seen@
    }

    /// Positions are awaited in order: the awaited one is at least 1, every
    /// position below it was handed in, and every pending frame was handed in
    /// at or after it.
    pub open spec fn in_order(&self) -> bool {
        &&& self.spec_next() >= 1
        &&& forall|k: u64| #[trigger] self.spec_pending().contains_key(k) ==> k >= self.spec_next() && self.spec_seen().contains(k)
        &&& forall|q: u64| 1 <= q < self.spec_next() ==> #[trigger] self.spec_seen().contains(q)
    }

    /// Only frames without a time are pending, below `u64::MAX`, at fewer
    /// than a million frames per second, and the sampler is ready for every
    /// position from the awaited one on.
    pub open spec fn untimed_ready(&self) -> bool {
        &&& self.spec_sampler().samples_per_second < 1_000_000
        &&& forall|k: u64| #[trigger] self.spec_pending().contains_key(k) ==> untimed(self.spec_pending()[k]) && k < u64::MAX
        &&& forall|q: u64| self.spec_next() <= q < u64::MAX ==> #[trigger] ready_for(self.spec_sampler(), q)
    }

    /// The sampler is well formed.
    pub closed spec fn wf(&self) -> bool {
        &&& sampler_wf(self.sampler)
        &&& positions_match(self.pending@)
    }

    /// A coordinator waiting for the frame at position 1, sampling
    /// `samples_per_second` frames (at least one) per second.
    pub fn new(samples_per_second: u32) -> (c: Self)
        ensures
            c.wf(),
            c.spec_pending() == Map::<u64, SampledFrame>::empty(),
            c.spec_next() == 1,
            c.spec_sampler() == (FrameSampler {
                samples_per_second: if samples_per_second >= 1 { samples_per_second } else { 1 },
                current: None,
            }),
            c.spec_seen() == Set::<u64>::empty(),
            c.in_order(),
            samples_per_second < 1_000_000 ==> c.untimed_ready(),
    {
        FrameSampleCoordinator {
            sampler: FrameSampler::new(samples_per_second),
            pending: std::collections::BTreeMap::new(),
            next_processed_index: 1,
            seen: Ghost(Set::empty()),
        }
    }

    /// Releases the frames at the consecutive positions from the awaited
    /// one on, keeping those the sampler keeps.
    fn collect_ready(&mut self) -> (ready: Vec<SampledFrame>)
        requires
            old(self).wf(),
        ensures
            final(self).wf(),
            final(self).spec_seen() == old(self).spec_seen(),
            ({
                let c = collect_spec(old(self).spec_pending(), old(self).spec_next(), old(self).spec_sampler());
                &&& ready@ == c.0
                &&& final(self).spec_pending() == c.1
                &&& final(self).spec_next() == c.2
                &&& final(self).spec_sampler() == c.3
            }),
    {
        let ghost p0 = self.pending@;
        let ghost n0 = self.next_processed_index;
        let ghost s0 = self.sampler;
        let mut ready: Vec<SampledFrame> = Vec::new();
        let mut done = false;
        while !done
            invariant
                self.seen@ == old(self).seen@,
                sampler_wf(self.sampler),
                positions_match(self.pending@),
                self.pending@.dom().finite(),
                p0.dom().finite(),
                ({
                    let whole = collect_spec(p0, n0, s0);
                    let rest = collect_spec(self.pending@, self.next_processed_index, self.sampler);
                    &&& ready@ + rest.0 == whole.0
                    &&& rest.1 == whole.1
                    &&& rest.2 == whole.2
                    &&& rest.3 == whole.3
                }),
                done ==> !self.pending@.contains_key(self.next_processed_index),
            decreases self.pending@.len() + if done { 0int } else { 1int },
        {
            let index = self.next_processed_index;
            let ghost pend = self.pending@;
            let ghost samp = self.sampler;
            match self.pending.remove(&index) {
                Some(frame) => {
                    proof {
                        assert(pend.contains_key(index));
                        assert(self.pending@ == pend.remove(index));
                        assert forall|k: u64| #[trigger] self.pending@.contains_key(k) implies self.pending@[k].metadata.processed_index == k by {
                            assert(pend.contains_key(k));
                        }
                        assert(pend.remove(index).len() < pend.len()) by {
                            vstd::set::axiom_set_remove_len(pend.dom(), index);
                        }
                    }
                    self.next_processed_index = if self.next_processed_index < u64::MAX {
                        self.next_processed_index + 1
                    } else {
                        self.next_processed_index
                    };
                    let ts = frame.frame.timestamp();
                    let keep = self.sampler.should_sample(&frame.metadata, ts);
                    if keep {
                        let ghost before = ready@;
                        ready.push(frame);
                        proof {
                            let rest = collect_spec(self.pending@, self.next_processed_index, self.sampler);
                            assert(before + (seq![frame] + rest.0) == ready@ + rest.0);
                        }
                    }
                },
                None => {
                    done = true;
                },
            }
        }
        proof {
            let rest = collect_spec(self.pending@, self.next_processed_index, self.sampler);
            assert(rest.0 == Seq::<SampledFrame>::empty());
            assert(ready@ + rest.0 == ready@);
        }
        ready
    }

    /// Takes the frame at processing position `metadata.processed_index`
    /// (replacing a pending one there) and releases what is ready.
    pub fn enqueue(&mut self, frame: VideoFrame, metadata: FrameMetadata) -> (ready: Vec<SampledFrame>)
        requires
            old(self).wf(),
        ensures
            final(self).wf(),
            ({
                let p1 = old(self).spec_pending().insert(metadata.processed_index, SampledFrame { frame, metadata });
                let c = collect_spec(p1, old(self).spec_next(), old(self).spec_sampler());
                &&& ready@ == c.0
                &&& final(self).spec_pending() == c.1
                &&& final(self).spec_next() == c.2
                &&& final(self).spec_sampler() == c.3
            }),
            final(self).spec_seen() == old(self).spec_seen().insert(metadata.processed_index),
            old(self).in_order() && metadata.processed_index >= 1 && !old(self).spec_seen().contains(metadata.processed_index)
                ==> final(self).in_order(),
            old(self).in_order() && metadata.processed_index >= 1 && !old(self).spec_seen().contains(metadata.processed_index)
                && old(self).untimed_ready() && untimed(SampledFrame { frame, metadata }) && metadata.processed_index
                < u64::MAX ==> final(self).untimed_ready(),
    {
        let index = metadata.processed_index;
        let ghost old_next = self.next_processed_index;
        let ghost old_sampler = self.sampler;
        let ghost old_seen = self.seen@;
        let ghost was_in_order = self.in_order();
        let ghost was_ready = self.untimed_ready();
        let ghost sf = SampledFrame { frame, metadata };
        self.pending.insert(index, SampledFrame { frame, metadata });
        self.seen = Ghost(self.seen@.insert(index));
        let ghost p1 = self.pending@;
        let ready = self.collect_ready();
        proof {
            assert(p1.dom().finite());
            lemma_collect_keys(p1, old_next, old_sampler);
            let c = collect_spec(p1, old_next, old_sampler);
            if was_in_order && index >= 1 && !old(self).spec_seen().contains(index) {
                assert(index >= old_next) by {
                    if index < old_next {
                        assert(old(self).spec_seen().contains(index));
                    }
                }
                assert(forall|k: u64| #[trigger] p1.contains_key(k) ==> k >= old_next && self.spec_seen().contains(k)) by {
                    assert forall|k: u64| #[trigger] p1.contains_key(k) implies k >= old_next && self.spec_seen().contains(k) by {
                        if k != index {
                            assert(old(self).spec_pending().contains_key(k));
                        }
                    }
                }
                assert forall|q: u64| 1 <= q < c.2 implies #[trigger] self.spec_seen().contains(q) by {
                    if q >= old_next {
                        assert(p1.contains_key(q));
                    } else {
                        assert(old(self).spec_seen().contains(q));
                    }
                }
                assert forall|k: u64| #[trigger] c.1.contains_key(k) implies k >= c.2 && self.spec_seen().contains(k) by {
                    assert(p1.contains_key(k));
                }
                if was_ready && untimed(sf) && index < u64::MAX {
                    assert forall|k: u64| #[trigger] p1.contains_key(k) implies k >= old_next && untimed(p1[k]) && ready_for(
                        old_sampler,
                        k,
                    ) by {
                        if k != index {
                            assert(old(self).spec_pending().contains_key(k));
                        }
                    }
                    lemma_collect_untimed(p1, old_next, old_sampler);
                    assert forall|k: u64| #[trigger] c.1.contains_key(k) implies untimed(c.1[k]) && k < u64::MAX by {
                        assert(p1.contains_key(k));
                        if k != index {
                            assert(old(self).spec_pending().contains_key(k));
                        }
                    }
                }
            }
        }
        ready
    }

    /// The smallest pending position.
    fn first_pending(&self) -> (k: u64)
        requires
            self.pending@.len() > 0,
        ensures
            is_min_key(self.pending@, k),
            k == min_key(self.pending@),
    {
        let ghost m = self.pending@;
        let mut best: Option<u64> = None;
        for k in it: self.pending.keys()
            invariant
                m == self.pending@,
                m.len() > 0,
                it.seq().unref().to_set() == m.dom(),
                it.seq().len() == m.dom().len(),
                increasing_seq(it.seq()),
                it.index() == 0 ==> best is None,
                it.index() > 0 ==> best == Some(*it.seq()[0]),
                it.index() > 0 ==> is_min_key(m, *it.seq()[0]),
                it.index() == it.seq().len() ==> it.index() > 0,
        {
            if best.is_none() {
                best = Some(*k);
            }
            proof {
                let sq = it.seq();
                assert(sq.unref().to_set().contains(*sq[0]));
                assert forall|j: u64| m.contains_key(j) implies *sq[0] <= j by {
                    assert(sq.unref().to_set().contains(j));
                    let t = choose|t: int| 0 <= t < sq.unref().len() && sq.unref()[t] == j;
                    if t > 0 {
                        lemma_increasing_head(sq, t);
                    }
                }
            }
        }
        proof {
            lemma_min_key(m);
        }
        match best {
            Some(b) => b,
            None => 0,
        }
    }

    /// Releases every pending frame: what is ready first, then, whenever
    /// nothing was released, from the smallest pending position on.
    pub fn drain(&mut self) -> (drained: Vec<SampledFrame>)
        requires
            old(self).wf(),
        ensures
            final(self).wf(),
            final(self).spec_pending() == Map::<u64, SampledFrame>::empty(),
            ({
                let d = drain_spec(old(self).spec_pending(), old(self).spec_next(), old(self).spec_sampler());
                &&& drained@ == d.0
                &&& final(self).spec_next() == d.1
                &&& final(self).spec_sampler() == d.2
            }),
            final(self).spec_seen() == old(self).spec_seen().union(Set::new(|q: u64| 1 <= q < final(self).spec_next())),
            old(self).in_order() ==> final(self).in_order(),
    {
        let ghost start_pending = self.pending@;
        let ghost start_next = self.next_processed_index;
        let ghost start_sampler = self.sampler;
        let ghost start_seen = self.seen@;
        let ghost was_in_order = self.in_order();
        let ghost whole = drain_spec(self.pending@, self.next_processed_index, self.sampler);
        let mut drained: Vec<SampledFrame> = Vec::new();
        while !self.pending.is_empty()
            invariant
                sampler_wf(self.sampler),
                positions_match(self.pending@),
                self.pending@.dom().finite(),
                ({
                    let rest = drain_spec(self.pending@, self.next_processed_index, self.sampler);
                    &&& drained@ + rest.0 == whole.0
                    &&& rest.1 == whole.1
                    &&& rest.2 == whole.2
                }),
            decreases 2 * self.pending@.len() + (if self.pending@.contains_key(self.next_processed_index) {
                0int
            } else {
                1int
            }),
        {
            let ghost p0 = self.pending@;
            let ghost n0 = self.next_processed_index;
            let ghost s0 = self.sampler;
            proof {
                lemma_collect_props(p0, n0, s0);
            }
            let ready = self.collect_ready();
            let ghost c = collect_spec(p0, n0, s0);
            if ready.len() == 0 {
                if !self.pending.is_empty() {
                    let k = self.first_pending();
                    self.next_processed_index = k;
                }
            } else {
                let mut ready = ready;
                drained.append(&mut ready);
            }
            proof {
                lemma_collect_props(p0, n0, s0);
                if c.0.len() == 0 && c.1.len() > 0 {
                    lemma_min_key(c.1);
                }
                assert(drain_spec(p0, n0, s0).0 == c.0 + drain_spec(self.pending@, self.next_processed_index, self.sampler).0);
            }
        }
        let final_next = self.next_processed_index;
        self.seen = Ghost(start_seen.union(Set::new(|q: u64| 1 <= q < final_next)));
        proof {
            if was_in_order {
                assert(start_pending.dom().finite());
                lemma_drain_in_order(start_pending, start_next, start_sampler);
                assert(self.pending@ == Map::<u64, SampledFrame>::empty());
            }
        }
        drained
    }
}

/// Draining a coordinator whose positions are awaited in order releases
/// pending frames, each once, in strictly increasing processing position,
/// none before the awaited one; when only frames without a time are pending
/// and the sampler is ready for them, it releases every pending frame. The
/// drain leaves nothing pending, so a second drain releases nothing.
pub proof fn lemma_coordinator_drain(c: FrameSampleCoordinator)
    requires
        c.wf(),
        c.in_order(),
    ensures
        ({
            let d = drain_spec(c.spec_pending(), c.spec_next(), c.spec_sampler());
            &&& forall|i: int, j: int| 0 <= i < j < d.0.len() ==> d.0[i].metadata.processed_index < d.0[j].metadata.processed_index
            &&& forall|i: int|
                0 <= i < d.0.len() ==> c.spec_pending().contains_key(#[trigger] d.0[i].metadata.processed_index)
                    && c.spec_pending()[d.0[i].metadata.processed_index] == d.0[i]
            &&& c.untimed_ready() ==> d.0.len() == c.spec_pending().len()
        }),
        drain_spec(Map::<u64, SampledFrame>::empty(), c.spec_next(), c.spec_sampler()).0.len() == 0,
{
    assert(c.spec_pending().dom().finite());
    lemma_drain_in_order(c.spec_pending(), c.spec_next(), c.spec_sampler());
    if c.untimed_ready() {
        assert forall|k: u64| #[trigger] c.spec_pending().contains_key(k) implies k >= c.spec_next() && untimed(
            c.spec_pending()[k],
        ) && ready_for(c.spec_sampler(), k) by {}
        lemma_drain_keeps_untimed(c.spec_pending(), c.spec_next(), c.spec_sampler());
    }
}

} // verus!
