//! How memory levels pace the tensors they send.
//!
//! A level sends tensors element by element (one element per kilobyte). The first and last
//! levels of the hierarchy send their tensors in order and let one cycle pass after elements
//! `0, bw, 2 * bw, ...` of each tensor (counting within the tensor). The middle level interleaves its two
//! outgoing streams: each cycle it sends up to `bw` elements on each stream, and stops once both
//! streams have run dry.
use vstd::prelude::*;
use crate::compute::spec_ceil_div;
use crate::compute::ticks_upto;
use crate::compute::law_ticks_are_ceil_div;

verus! {

/// The sizes of a list of `(tensor name, element count)` transfers.
pub open spec fn transfer_sizes(t: Seq<(String, usize)>) -> Seq<usize> {
    t.map_values(|e: (String, usize)| e.1)
}

/// The elements an outer level sends, in order: for each element, the index of its tensor and
/// whether a cycle passes once it is sent (the element's index within its tensor is a multiple
/// of `bw`).
pub open spec fn spec_send_plan(sizes: Seq<usize>, bw: usize) -> Seq<(usize, bool)>
    decreases sizes.len(),
{
    if sizes.len() == 0 {
        Seq::empty()
    } else {
        spec_send_plan(sizes.drop_last(), bw) + Seq::new(
            sizes.last() as nat,
            |j: int| ((sizes.len() - 1) as usize, j % (bw as int) == 0),
        )
    }
}

/// Plans the sending of `transfers` by an outer level of bandwidth `bw` (see
/// [`spec_send_plan`]); a level of bandwidth zero can send only empty tensors.
pub fn send_plan(transfers: &Vec<(String, usize)>, bw: usize) -> (plan: Vec<(usize, bool)>)
    requires
        bw > 0 || forall|i: int| 0 <= i < transfers@.len() ==> transfers@[i].1 == 0,
    ensures
        plan@ == spec_send_plan(transfer_sizes(transfers@), bw),
{
    let ghost sizes = transfer_sizes(transfers@);
    let mut plan: Vec<(usize, bool)> = Vec::new();
    let mut t: usize = 0;
    while t < transfers.len()
        invariant
            sizes == transfer_sizes(transfers@),
            bw > 0 || forall|i: int| 0 <= i < transfers@.len() ==> transfers@[i].1 == 0,
            t <= transfers@.len(),
            plan@ == spec_send_plan(sizes.take(t as int), bw),
        decreases transfers@.len() - t,
    {
        let size = transfers[t].1;
        let ghost base = plan@;
        let mut j: usize = 0;
        while j < size
            invariant
                bw > 0 || size == 0,
                j <= size,
                plan@ == base + Seq::new(j as nat, |k: int| (t, k % (bw as int) == 0)),
            decreases size - j,
        {
            plan.push((t, j % bw == 0));
            j += 1;
            proof {
                assert(plan@ =~= base + Seq::new(j as nat, |k: int| (t, k % (bw as int) == 0)));
            }
        }
        proof {
            assert(sizes.take(t + 1).drop_last() =~= sizes.take(t as int));
            assert(plan@ =~= spec_send_plan(sizes.take(t + 1), bw));
        }
        t += 1;
    }
    proof {
        assert(sizes.take(t as int) =~= sizes);
    }
    plan
}

/// Number of elements after which a cycle passes.
pub open spec fn plan_ticks(plan: Seq<(usize, bool)>) -> nat
    decreases plan.len(),
{
    if plan.len() == 0 {
        0
    } else {
        plan_ticks(plan.drop_last()) + if plan.last().1 { 1nat } else { 0nat }
    }
}

/// Sum of a sequence of sizes.
pub open spec fn total_size(sizes: Seq<usize>) -> nat
    decreases sizes.len(),
{
    if sizes.len() == 0 {
        0
    } else {
        total_size(sizes.drop_last()) + sizes.last() as nat
    }
}

/// Sum over the tensors of their size divided by `bw`, rounded up.
pub open spec fn total_batches(sizes: Seq<usize>, bw: usize) -> nat
    decreases sizes.len(),
{
    if sizes.len() == 0 {
        0
    } else {
        total_batches(sizes.drop_last(), bw) + spec_ceil_div(sizes.last() as nat, bw as nat)
    }
}

proof fn lemma_plan_ticks_append(a: Seq<(usize, bool)>, b: Seq<(usize, bool)>)
    ensures
        plan_ticks(a + b) == plan_ticks(a) + plan_ticks(b),
    decreases b.len(),
{
    if b.len() == 0 {
        assert(a + b =~= a);
    } else {
        lemma_plan_ticks_append(a, b.drop_last());
        assert((a + b).drop_last() =~= a + b.drop_last());
    }
}

proof fn lemma_tensor_ticks(t: usize, s: nat, bw: usize)
    ensures
        plan_ticks(Seq::new(s, |j: int| (t, j % (bw as int) == 0))) == ticks_upto(s, bw as nat),
    decreases s,
{
    if s > 0 {
        lemma_tensor_ticks(t, (s - 1) as nat, bw);
        assert(Seq::new(s, |j: int| (t, j % (bw as int) == 0)).drop_last() =~= Seq::new(
            (s - 1) as nat,
            |j: int| (t, j % (bw as int) == 0),
        ));
    }
}

/// An outer level sends every element of every tensor once, in order, and lets
/// `sum of ceil(size / bw)` cycles pass while doing so.
pub proof fn law_send_plan_paces(sizes: Seq<usize>, bw: usize)
    requires
        bw > 0,
    ensures
        spec_send_plan(sizes, bw).len() == total_size(sizes),
        plan_ticks(spec_send_plan(sizes, bw)) == total_batches(sizes, bw),
        forall|k: int| 0 <= k < spec_send_plan(sizes, bw).len() ==> (#[trigger] spec_send_plan(sizes, bw)[k]).0 < sizes.len(),
    decreases sizes.len(),
{
    if sizes.len() > 0 {
        let prev = sizes.drop_last();
        law_send_plan_paces(prev, bw);
        let tail = Seq::new(sizes.last() as nat, |j: int| ((sizes.len() - 1) as usize, j % (bw as int) == 0));
        lemma_plan_ticks_append(spec_send_plan(prev, bw), tail);
        lemma_tensor_ticks((sizes.len() - 1) as usize, sizes.last() as nat, bw);
        law_ticks_are_ceil_div(sizes.last() as nat, bw as nat);
        assert forall|k: int| 0 <= k < spec_send_plan(sizes, bw).len() implies (#[trigger] spec_send_plan(sizes, bw)[k]).0 < sizes.len() by {
            if k < spec_send_plan(prev, bw).len() {
                assert(spec_send_plan(sizes, bw)[k] == spec_send_plan(prev, bw)[k]);
            }
        }
    }
}

/// The elements the middle level sends on one stream, in order: the index of the tensor of each.
pub open spec fn spec_expand(sizes: Seq<usize>) -> Seq<usize>
    decreases sizes.len(),
{
    if sizes.len() == 0 {
        Seq::empty()
    } else {
        spec_expand(sizes.drop_last()) + Seq::new(sizes.last() as nat, |j: int| (sizes.len() - 1) as usize)
    }
}

/// Lists the elements of `transfers` in sending order (see [`spec_expand`]).
pub fn expand_transfers(transfers: &Vec<(String, usize)>) -> (v: Vec<usize>)
    ensures
        v@ == spec_expand(transfer_sizes(transfers@)),
{
    let ghost sizes = transfer_sizes(transfers@);
    let mut v: Vec<usize> = Vec::new();
    let mut t: usize = 0;
    while t < transfers.len()
        invariant
            sizes == transfer_sizes(transfers@),
            t <= transfers@.len(),
            v@ == spec_expand(sizes.take(t as int)),
        decreases transfers@.len() - t,
    {
        let size = transfers[t].1;
        let ghost base = v@;
        let mut j: usize = 0;
        while j < size
            invariant
                j <= size,
                v@ == base + Seq::new(j as nat, |k: int| t),
            decreases size - j,
        {
            v.push(t);
            j += 1;
            proof {
                assert(v@ =~= base + Seq::new(j as nat, |k: int| t));
            }
        }
        proof {
            assert(sizes.take(t + 1).drop_last() =~= sizes.take(t as int));
            assert(v@ =~= spec_expand(sizes.take(t + 1)));
        }
        t += 1;
    }
    proof {
        assert(sizes.take(t as int) =~= sizes);
    }
    v
}

/// What the middle level does in one cycle: send elements `l1_from..l1_to` of its list for the
/// first level and `l3_from..l3_to` of its list for the last level, then stop if `finished`, and
/// let a cycle pass otherwise.
#[derive(Clone, Copy, Debug)]
pub struct RoundPlan {
    pub l1_from: usize,
    pub l1_to: usize,
    pub l3_from: usize,
    pub l3_to: usize,
    pub finished: bool,
}

/// Progress of the middle level through its two outgoing lists.
#[derive(Clone, Copy, Debug)]
pub struct DualSender {
    pub len1: usize,
    pub bw1: usize,
    pub len2: usize,
    pub bw2: usize,
    pub sent1: usize,
    pub sent2: usize,
    pub done1: bool,
    pub done2: bool,
}

/// One stream's part of a cycle: from `sent`, up to `bw` elements go out, and the stream is marked
/// done as soon as the cycle tries to send past the end of its list.
pub open spec fn stream_round(len: usize, bw: usize, sent: usize, done: bool) -> (usize, bool) {
    if sent + bw <= len {
        ((sent + bw) as usize, done)
    } else {
        (len, true)
    }
}

impl DualSender {
    /// The middle level before it sends anything.
    pub fn new(len1: usize, bw1: usize, len2: usize, bw2: usize) -> (s: DualSender)
        ensures
            s == (DualSender { len1, bw1, len2, bw2, sent1: 0, sent2: 0, done1: false, done2: false }),
    {
        DualSender { len1, bw1, len2, bw2, sent1: 0, sent2: 0, done1: false, done2: false }
    }

    /// The sender has sent no more than its lists hold.
    pub open spec fn wf(&self) -> bool {
        self.sent1 <= self.len1 && self.sent2 <= self.len2
    }

    /// Plays one cycle (see [`stream_round`]); the level is finished once both streams are done.
    pub fn round(&mut self) -> (p: RoundPlan)
        requires
            old(self).wf(),
        ensures
            final(self).wf(),
            final(self).len1 == old(self).len1 && final(self).bw1 == old(self).bw1,
            final(self).len2 == old(self).len2 && final(self).bw2 == old(self).bw2,
            (final(self).sent1, final(self).done1) == stream_round(old(self).len1, old(self).bw1, old(self).sent1, old(self).done1),
            (final(self).sent2, final(self).done2) == stream_round(old(self).len2, old(self).bw2, old(self).sent2, old(self).done2),
            p == (RoundPlan {
                l1_from: old(self).sent1,
                l1_to: final(self).sent1,
                l3_from: old(self).sent2,
                l3_to: final(self).sent2,
                finished: final(self).done1 && final(self).done2,
            }),
    {
        let from1 = self.sent1;
        let from2 = self.sent2;
        if self.bw1 <= self.len1 - self.sent1 {
            self.sent1 = self.sent1 + self.bw1;
        } else {
            self.sent1 = self.len1;
            self.done1 = true;
        }
        if self.bw2 <= self.len2 - self.sent2 {
            self.sent2 = self.sent2 + self.bw2;
        } else {
            self.sent2 = self.len2;
            self.done2 = true;
        }
        RoundPlan { l1_from: from1, l1_to: self.sent1, l3_from: from2, l3_to: self.sent2, finished: self.done1 && self.done2 }
    }
}

/// The state of one stream after `r` cycles from the start.
pub open spec fn stream_after(len: usize, bw: usize, r: nat) -> (usize, bool)
    decreases r,
{
    if r == 0 {
        (0, false)
    } else {
        let p = stream_after(len, bw, (r - 1) as nat);
        stream_round(len, bw, p.0, p.1)
    }
}

/// After `r` cycles a stream of bandwidth `bw > 0` has sent `min(r * bw, len)` elements and is
/// done exactly when `r * bw > len`; the middle level is thus finished after the first cycle
/// `r` with `r * bw1 > len1` and `r * bw2 > len2`, having let `r - 1` cycles pass.
pub proof fn law_stream_after(len: usize, bw: usize, r: nat)
    requires
        bw > 0,
    ensures
        stream_after(len, bw, r).0 == if r * bw <= len { r * bw } else { len as int },
        stream_after(len, bw, r).1 == (r * bw > len),
    decreases r,
{
    if r > 0 {
        law_stream_after(len, bw, (r - 1) as nat);
        assert(r * bw == (r - 1) * bw + bw) by (nonlinear_arith);
        assert((r - 1) * bw >= 0) by (nonlinear_arith)
            requires
                r >= 1;
    } else {
        assert(0 * bw == 0);
    }
}


/// A stream of bandwidth `bw > 0` is done after cycle `r` exactly when `r > len / bw`; the middle
/// level thus finishes in cycle `max(len1 / bw1, len2 / bw2) + 1`.
pub proof fn law_middle_level_finishes(len1: usize, bw1: usize, len2: usize, bw2: usize, r: nat)
    requires
        bw1 > 0,
        bw2 > 0,
    ensures
        stream_after(len1, bw1, r).1 == (r > len1 / bw1),
        stream_after(len2, bw2, r).1 == (r > len2 / bw2),
        (stream_after(len1, bw1, r).1 && stream_after(len2, bw2, r).1) == (r > len1 / bw1 && r > len2 / bw2),
{
    law_stream_after(len1, bw1, r);
    law_stream_after(len2, bw2, r);
    lemma_exceeds_iff_above_quotient(len1 as nat, bw1 as nat, r);
    lemma_exceeds_iff_above_quotient(len2 as nat, bw2 as nat, r);
}

proof fn lemma_exceeds_iff_above_quotient(len: nat, bw: nat, r: nat)
    requires
        bw > 0,
    ensures
        (r * bw > len) == (r > len / bw),
{
    let q = len / bw;
    let m = len % bw;
    vstd::arithmetic::div_mod::lemma_fundamental_div_mod(len as int, bw as int);
    vstd::arithmetic::div_mod::lemma_mod_bound(len as int, bw as int);
    if r > q {
        assert(r * bw > len) by (nonlinear_arith)
            requires
                r >= q + 1,
                len == bw * q + m,
                m < bw,
                bw > 0;
    } else {
        assert(r * bw <= len) by (nonlinear_arith)
            requires
                r <= q,
                len == bw * q + m,
                m >= 0,
                bw > 0;
    }
}

proof fn lemma_send_plan_len(sizes: Seq<usize>, bw: usize)
    ensures
        spec_send_plan(sizes, bw).len() == total_size(sizes),
    decreases sizes.len(),
{
    if sizes.len() > 0 {
        lemma_send_plan_len(sizes.drop_last(), bw);
    }
}

proof fn lemma_expand_len(sizes: Seq<usize>)
    ensures
        spec_expand(sizes).len() == total_size(sizes),
    decreases sizes.len(),
{
    if sizes.len() > 0 {
        lemma_expand_len(sizes.drop_last());
    }
}

/// An outer level sends its tensors one after the other, in the order given, each element by
/// element: element `j` of tensor `t` is element `total_size(sizes[..t]) + j` of the plan, and a
/// cycle passes after it exactly when `j` is a multiple of `bw`.
pub proof fn law_send_plan_positions(sizes: Seq<usize>, bw: usize, t: int, j: int)
    requires
        0 <= t < sizes.len(),
        0 <= j < sizes[t],
    ensures
        spec_send_plan(sizes, bw).len() == total_size(sizes),
        total_size(sizes.take(t)) + j < total_size(sizes),
        spec_send_plan(sizes, bw)[total_size(sizes.take(t)) + j] == (t as usize, j % (bw as int) == 0),
    decreases sizes.len(),
{
    lemma_send_plan_len(sizes, bw);
    let prev = sizes.drop_last();
    lemma_send_plan_len(prev, bw);
    if t == sizes.len() - 1 {
        assert(sizes.take(t) =~= prev);
    } else {
        law_send_plan_positions(prev, bw, t, j);
        assert(prev.take(t) =~= sizes.take(t));
    }
}

/// The middle level lists its tensors one after the other, in the order given, each element by
/// element: element `j` of tensor `t` is element `total_size(sizes[..t]) + j` of the list.
pub proof fn law_expand_positions(sizes: Seq<usize>, t: int, j: int)
    requires
        0 <= t < sizes.len(),
        0 <= j < sizes[t],
    ensures
        spec_expand(sizes).len() == total_size(sizes),
        total_size(sizes.take(t)) + j < total_size(sizes),
        spec_expand(sizes)[total_size(sizes.take(t)) + j] == t as usize,
    decreases sizes.len(),
{
    lemma_expand_len(sizes);
    let prev = sizes.drop_last();
    lemma_expand_len(prev);
    if t == sizes.len() - 1 {
        assert(sizes.take(t) =~= prev);
    } else {
        law_expand_positions(prev, t, j);
        assert(prev.take(t) =~= sizes.take(t));
    }
}

} // verus!
