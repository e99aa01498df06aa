//! The adapters between a router and the compute and memory units it feeds.
//!
//! An adapter repeats one round of channel operations `num_input * counter` times, then lets one
//! cycle pass and stops. A round takes from input lanes and puts on output lanes:
//! - a gather (towards a SIMD unit, a systolic unit or a memory unit) takes once from each input
//!   lane, then puts a zero on each of its outputs;
//! - a scatter (away from such a unit) takes once from each of its inputs, then puts on each output
//!   lane that lane's destination;
//! - a fan-in (towards a router) takes from each input lane in turn and passes each packet on to its
//!   one output;
//! - a fan-out (away from a router) takes a packet from its one input for each output lane in turn
//!   and passes it on to that lane.
use vstd::prelude::*;

verus! {

/// What a put carries.
#[derive(Clone, Copy, Debug, PartialEq, Eq, Structural)]
pub enum Payload {
    /// A zero.
    Zero,
    /// The destination configured for the output lane.
    Destination,
    /// The packet taken just before.
    Forward,
}

/// One operation of a round.
#[derive(Clone, Copy, Debug, PartialEq, Eq, Structural)]
pub enum RoundOp {
    /// Take the next element from input lane `lane`.
    Take(usize),
    /// Put an element on output lane `lane`.
    Put(usize, Payload),
}

/// What an adapter does next.
#[derive(Clone, Copy, Debug, PartialEq, Eq, Structural)]
pub enum AdapterOp {
    Take(usize),
    Put(usize, Payload),
    /// Let one cycle pass.
    Tick,
    /// Nothing more to do.
    Done,
}

/// The round of a gather: a take from each of `in_len` lanes, then a zero on each of `outs` lanes.
pub open spec fn spec_gather(in_len: nat, outs: nat) -> Seq<RoundOp> {
    Seq::new(in_len, |j: int| RoundOp::Take(j as usize)) + Seq::new(outs, |j: int| RoundOp::Put(j as usize, Payload::Zero))
}

/// The round of a scatter: a take from each of `ins` lanes, then each of `out_len` lanes' destination.
pub open spec fn spec_scatter(ins: nat, out_len: nat) -> Seq<RoundOp> {
    Seq::new(ins, |j: int| RoundOp::Take(j as usize)) + Seq::new(out_len, |j: int| RoundOp::Put(j as usize, Payload::Destination))
}

/// The round of a fan-in: for each of `in_len` lanes, a take from it passed on to lane 0.
pub open spec fn spec_fan_in(in_len: nat) -> Seq<RoundOp> {
    Seq::new(2 * in_len, |k: int| if k % 2 == 0 { RoundOp::Take((k / 2) as usize) } else { RoundOp::Put(0, Payload::Forward) })
}

/// The round of a fan-out: for each of `out_len` lanes, a take from lane 0 passed on to it.
pub open spec fn spec_fan_out(out_len: nat) -> Seq<RoundOp> {
    Seq::new(2 * out_len, |k: int| if k % 2 == 0 { RoundOp::Take(0) } else { RoundOp::Put((k / 2) as usize, Payload::Forward) })
}

fn push_ops(v: &mut Vec<RoundOp>, n: usize, take: bool, payload: Payload)
    ensures
        final(v)@ == old(v)@ + Seq::new(n as nat, |j: int| if take { RoundOp::Take(j as usize) } else { RoundOp::Put(j as usize, payload) }),
{
    let mut j: usize = 0;
    while j < n
        invariant
            j <= n,
            v@ == old(v)@ + Seq::new(j as nat, |k: int| if take { RoundOp::Take(k as usize) } else { RoundOp::Put(k as usize, payload) }),
        decreases n - j,
    {
        if take {
            v.push(RoundOp::Take(j));
        } else {
            v.push(RoundOp::Put(j, payload));
        }
        j += 1;
        assert(v@ =~= old(v)@ + Seq::new(j as nat, |k: int| if take { RoundOp::Take(k as usize) } else { RoundOp::Put(k as usize, payload) }));
    }
}

/// The round of a gather (see [`spec_gather`]).
pub fn gather(in_len: usize, outs: usize) -> (p: Vec<RoundOp>)
    ensures
        p@ == spec_gather(in_len as nat, outs as nat),
{
    let mut p: Vec<RoundOp> = Vec::new();
    push_ops(&mut p, in_len, true, Payload::Zero);
    push_ops(&mut p, outs, false, Payload::Zero);
    assert(p@ =~= spec_gather(in_len as nat, outs as nat));
    p
}

/// The round of a scatter (see [`spec_scatter`]).
pub fn scatter(ins: usize, out_len: usize) -> (p: Vec<RoundOp>)
    ensures
        p@ == spec_scatter(ins as nat, out_len as nat),
{
    let mut p: Vec<RoundOp> = Vec::new();
    push_ops(&mut p, ins, true, Payload::Zero);
    push_ops(&mut p, out_len, false, Payload::Destination);
    assert(p@ =~= spec_scatter(ins as nat, out_len as nat));
    p
}

fn alternate(n: usize, fan_in: bool) -> (p: Vec<RoundOp>)
    ensures
        p@ == if fan_in { spec_fan_in(n as nat) } else { spec_fan_out(n as nat) },
{
    let ghost target = if fan_in { spec_fan_in(n as nat) } else { spec_fan_out(n as nat) };
    let mut p: Vec<RoundOp> = Vec::new();
    let mut j: usize = 0;
    while j < n
        invariant
            j <= n,
            target == if fan_in { spec_fan_in(n as nat) } else { spec_fan_out(n as nat) },
            target.len() == 2 * n,
            p@ == target.take((2 * j) as int),
        decreases n - j,
    {
        if fan_in {
            p.push(RoundOp::Take(j));
            p.push(RoundOp::Put(0, Payload::Forward));
        } else {
            p.push(RoundOp::Take(0));
            p.push(RoundOp::Put(j, Payload::Forward));
        }
        proof {
            assert((2 * j) % 2 == 0 && (2 * j) / 2 == j) by (nonlinear_arith);
            assert((2 * j + 1) % 2 == 1 && (2 * j + 1) / 2 == j) by (nonlinear_arith);
            assert(p@ =~= target.take(2 * j + 2));
        }
        j += 1;
    }
    assert(p@ =~= target);
    p
}

/// The round of a fan-in (see [`spec_fan_in`]).
pub fn fan_in(in_len: usize) -> (p: Vec<RoundOp>)
    ensures
        p@ == spec_fan_in(in_len as nat),
{
    alternate(in_len, true)
}

/// The round of a fan-out (see [`spec_fan_out`]).
pub fn fan_out(out_len: usize) -> (p: Vec<RoundOp>)
    ensures
        p@ == spec_fan_out(out_len as nat),
{
    alternate(out_len, false)
}

/// What each round visits: a gather or a scatter takes once from each input lane, in lane order,
/// then puts once on each output lane, in lane order (a zero for a gather, the lane's destination
/// for a scatter); a fan-in alternates a take from input lane `j` with a forward to its one output,
/// for each lane `j` in turn; a fan-out alternates a take from its one input with a forward to
/// output lane `j`, for each lane `j` in turn.
pub proof fn law_round_patterns(ins: nat, outs: nat, j: int)
    requires
        ins <= usize::MAX,
        outs <= usize::MAX,
    ensures
        spec_gather(ins, outs).len() == ins + outs,
        spec_scatter(ins, outs).len() == ins + outs,
        0 <= j < ins ==> spec_gather(ins, outs)[j] == RoundOp::Take(j as usize) && (j as usize) as int == j,
        0 <= j < ins ==> spec_scatter(ins, outs)[j] == RoundOp::Take(j as usize) && (j as usize) as int == j,
        0 <= j < outs ==> spec_gather(ins, outs)[ins + j] == RoundOp::Put(j as usize, Payload::Zero),
        0 <= j < outs ==> spec_scatter(ins, outs)[ins + j] == RoundOp::Put(j as usize, Payload::Destination),
        spec_fan_in(ins).len() == 2 * ins,
        spec_fan_out(outs).len() == 2 * outs,
        0 <= j < ins ==> spec_fan_in(ins)[2 * j] == RoundOp::Take(j as usize)
            && spec_fan_in(ins)[2 * j + 1] == RoundOp::Put(0, Payload::Forward),
        0 <= j < outs ==> spec_fan_out(outs)[2 * j] == RoundOp::Take(0)
            && spec_fan_out(outs)[2 * j + 1] == RoundOp::Put(j as usize, Payload::Forward),
{
    if 0 <= j {
        assert((2 * j) % 2 == 0 && (2 * j) / 2 == j) by (nonlinear_arith)
            requires
                0 <= j;
        assert((2 * j + 1) % 2 == 1 && (2 * j + 1) / 2 == j) by (nonlinear_arith)
            requires
                0 <= j;
    }
}

/// The number of rounds an adapter plays: `num_input * counter`, when that fits a `usize`.
pub fn adapter_rounds(num_input: usize, counter: usize) -> (r: Option<usize>)
    ensures
        match r {
            Some(n) => n == num_input * counter,
            None => num_input * counter > usize::MAX,
        },
{
    num_input.checked_mul(counter)
}

/// The `k`-th operation of an adapter that plays `rounds` rounds of `pattern`.
pub open spec fn spec_adapter_op(pattern: Seq<RoundOp>, rounds: nat, k: nat) -> AdapterOp {
    let total = rounds * pattern.len();
    if k < total {
        match pattern[(k % pattern.len()) as int] {
            RoundOp::Take(l) => AdapterOp::Take(l),
            RoundOp::Put(l, p) => AdapterOp::Put(l, p),
        }
    } else if k == total {
        AdapterOp::Tick
    } else {
        AdapterOp::Done
    }
}

/// An adapter part way through its rounds.
pub struct AdapterCursor {
    pub pattern: Vec<RoundOp>,
    pub rounds: usize,
    pub round: usize,
    pub pos: usize,
    pub ticked: bool,
}

impl AdapterCursor {
    /// An adapter that is to play `rounds` rounds of `pattern`.
    pub fn new(pattern: Vec<RoundOp>, rounds: usize) -> (c: AdapterCursor)
        ensures
            c.wf(),
            c.pattern@ == pattern@,
            c.rounds == rounds,
            c.issued() == 0,
    {
        let c = AdapterCursor { pattern, rounds, round: 0, pos: 0, ticked: false };
        assert(0 * c.pattern@.len() == 0) by (nonlinear_arith);
        c
    }

    /// The cursor stands within its schedule.
    pub open spec fn wf(&self) -> bool {
        &&& self.round <= self.rounds
        &&& self.pos < self.pattern@.len() || (self.pos == 0 && self.pattern@.len() == 0)
        &&& self.round == self.rounds ==> self.pos == 0
        &&& self.ticked ==> self.round == self.rounds
        &&& self.pattern@.len() == 0 ==> self.round == self.rounds || !self.ticked
    }

    /// How many operations the adapter has issued.
    pub open spec fn issued(&self) -> nat {
        if self.pattern@.len() == 0 {
            if self.ticked { 1 } else { 0 }
        } else {
            (self.round * self.pattern@.len() + self.pos + if self.ticked { 1nat } else { 0nat }) as nat
        }
    }

    /// The next operation of the adapter (see [`spec_adapter_op`]); once it has let its closing cycle
    /// pass, it answers `Done` for ever.
    pub fn next(&mut self) -> (op: AdapterOp)
        requires
            old(self).wf(),
        ensures
            final(self).wf(),
            final(self).pattern@ == old(self).pattern@,
            final(self).rounds == old(self).rounds,
            op == spec_adapter_op(old(self).pattern@, old(self).rounds as nat, old(self).issued()),
            op != AdapterOp::Done ==> final(self).issued() == old(self).issued() + 1,
            op == AdapterOp::Done ==> final(self).issued() == old(self).issued(),
    {
        let n = self.pattern.len();
        let ghost k = self.issued();
        let ghost len = n as nat;
        let ghost rounds = self.rounds as nat;
        if n == 0 {
            assert(rounds * len == 0) by (nonlinear_arith)
                requires
                    len == 0;
            if self.ticked {
                return AdapterOp::Done;
            }
            self.ticked = true;
            self.round = self.rounds;
            return AdapterOp::Tick;
        }
        if self.round < self.rounds {
            let op = match self.pattern[self.pos] {
                RoundOp::Take(l) => AdapterOp::Take(l),
                RoundOp::Put(l, p) => AdapterOp::Put(l, p),
            };
            proof {
                let r = self.round as int;
                let pos = self.pos as int;
                assert(k == r * len + pos);
                vstd::arithmetic::div_mod::lemma_fundamental_div_mod_converse(k as int, len as int, r, pos);
                assert(r * len + pos < rounds * len) by (nonlinear_arith)
                    requires
                        r < rounds,
                        pos < len;
            }
            if self.pos + 1 == n {
                self.pos = 0;
                self.round = self.round + 1;
                assert((self.round as int) * len == (self.round - 1) * len + len) by (nonlinear_arith);
            } else {
                self.pos = self.pos + 1;
            }
            return op;
        }
        if self.ticked {
            return AdapterOp::Done;
        }
        self.ticked = true;
        AdapterOp::Tick
    }
}

/// Every round of an adapter issues the operations of its pattern in order, the same in every
/// round: operation `r * len + i` of the schedule, for a round `r` below `rounds`, is operation `i`
/// of the pattern; the closing cycle comes right after the last round.
pub proof fn law_rounds_repeat(pattern: Seq<RoundOp>, rounds: nat, r: nat, i: nat)
    requires
        r < rounds,
        i < pattern.len(),
    ensures
        spec_adapter_op(pattern, rounds, r * pattern.len() + i) == match pattern[i as int] {
            RoundOp::Take(l) => AdapterOp::Take(l),
            RoundOp::Put(l, p) => AdapterOp::Put(l, p),
        },
        spec_adapter_op(pattern, rounds, rounds * pattern.len()) == AdapterOp::Tick,
{
    let len = pattern.len();
    vstd::arithmetic::div_mod::lemma_fundamental_div_mod_converse((r * len + i) as int, len as int, r as int, i as int);
    assert(r * len + i < rounds * len) by (nonlinear_arith)
        requires
            r < rounds,
            i < len;
}


/// The operations of `r` rounds of `pattern`, one round after the other.
pub open spec fn repeat_rounds(pattern: Seq<RoundOp>, r: nat) -> Seq<RoundOp>
    decreases r,
{
    if r == 0 {
        Seq::empty()
    } else {
        repeat_rounds(pattern, (r - 1) as nat) + pattern
    }
}

/// The adapter operation a round operation stands for.
pub open spec fn op_of(o: RoundOp) -> AdapterOp {
    match o {
        RoundOp::Take(l) => AdapterOp::Take(l),
        RoundOp::Put(l, p) => AdapterOp::Put(l, p),
    }
}

proof fn lemma_repeat_index(pattern: Seq<RoundOp>, r: nat, q: nat, i: nat)
    requires
        q < r,
        i < pattern.len(),
    ensures
        repeat_rounds(pattern, r).len() == r * pattern.len(),
        q * pattern.len() + i < r * pattern.len(),
        repeat_rounds(pattern, r)[(q * pattern.len() + i) as int] == pattern[i as int],
    decreases r,
{
    let len = pattern.len();
    lemma_repeat_len(pattern, r);
    assert(q * len + i < r * len) by (nonlinear_arith)
        requires
            q < r,
            i < len;
    if q < r - 1 {
        lemma_repeat_index(pattern, (r - 1) as nat, q, i);
    } else {
        lemma_repeat_len(pattern, (r - 1) as nat);
        assert(q * len == (r - 1) * len);
    }
}

proof fn lemma_repeat_len(pattern: Seq<RoundOp>, r: nat)
    ensures
        repeat_rounds(pattern, r).len() == r * pattern.len(),
    decreases r,
{
    if r > 0 {
        let rm = (r - 1) as nat;
        let len = pattern.len();
        lemma_repeat_len(pattern, rm);
        assert(r * len == rm * len + len) by (nonlinear_arith)
            requires
                rm == r - 1;
    } else {
        assert(r * pattern.len() == 0) by (nonlinear_arith)
            requires
                r == 0;
    }
}

/// An adapter's schedule is its pattern repeated round after round, then the closing cycle:
/// operation `k` of the schedule, for `k` below `rounds * len`, is operation `k` of
/// [`repeat_rounds`].
pub proof fn law_schedule_is_repeated_rounds(pattern: Seq<RoundOp>, rounds: nat, k: nat)
    requires
        pattern.len() > 0,
        k < rounds * pattern.len(),
    ensures
        repeat_rounds(pattern, rounds).len() == rounds * pattern.len(),
        spec_adapter_op(pattern, rounds, k) == op_of(repeat_rounds(pattern, rounds)[k as int]),
{
    let len = pattern.len();
    let q = k / len;
    let i = k % len;
    vstd::arithmetic::div_mod::lemma_fundamental_div_mod(k as int, len as int);
    vstd::arithmetic::div_mod::lemma_mod_bound(k as int, len as int);
    vstd::arithmetic::div_mod::lemma_div_pos_is_pos(k as int, len as int);
    assert(q < rounds) by (nonlinear_arith)
        requires
            k == len * q + i,
            0 <= i,
            k < rounds * len,
            len > 0,
            q >= 0;
    assert(k == q * len + i) by (nonlinear_arith)
        requires
            k == len * q + i;
    lemma_repeat_index(pattern, rounds, q as nat, i as nat);
}

/// What an adapter has done so far: how many elements it has taken from each input lane, the last
/// element it took, and what it has put on each output lane.
pub struct AdapterRun {
    pub taken: Seq<nat>,
    pub last: usize,
    pub out: Seq<Seq<usize>>,
}

/// One operation played against input lanes `inputs`; a put of `Destination` on lane `l` puts
/// `dst[l]`.
pub open spec fn play_op(s: AdapterRun, o: RoundOp, inputs: Seq<Seq<usize>>, dst: Seq<usize>) -> AdapterRun {
    match o {
        RoundOp::Take(l) => AdapterRun {
            taken: s.taken.update(l as int, s.taken[l as int] + 1),
            last: inputs[l as int][s.taken[l as int] as int],
            out: s.out,
        },
        RoundOp::Put(l, p) => {
            let v = match p {
                Payload::Zero => 0usize,
                Payload::Destination => dst[l as int],
                Payload::Forward => s.last,
            };
            AdapterRun { out: s.out.update(l as int, s.out[l as int].push(v)), ..s }
        },
    }
}

/// The operations `ops` played in order against input lanes `inputs`, with `n_out` output lanes,
/// from an adapter that has taken and put nothing.
pub open spec fn play(ops: Seq<RoundOp>, inputs: Seq<Seq<usize>>, dst: Seq<usize>, n_out: nat) -> AdapterRun
    decreases ops.len(),
{
    if ops.len() == 0 {
        AdapterRun {
            taken: Seq::new(inputs.len(), |i: int| 0nat),
            last: 0,
            out: Seq::new(n_out, |i: int| Seq::<usize>::empty()),
        }
    } else {
        play_op(play(ops.drop_last(), inputs, dst, n_out), ops.last(), inputs, dst)
    }
}

/// The elements of `lanes` input lanes `v` interleaved round by round: in round `q`, element `q`
/// of lane 0, then of lane 1, and so on.
pub open spec fn interleave(v: Seq<Seq<usize>>, lanes: nat, r: nat) -> Seq<usize>
    decreases r,
{
    if r == 0 {
        Seq::empty()
    } else {
        interleave(v, lanes, (r - 1) as nat) + Seq::new(lanes, |i: int| v[i][r - 1])
    }
}

proof fn lemma_interleave_index(v: Seq<Seq<usize>>, lanes: nat, r: nat, q: nat, i: nat)
    requires
        q < r,
        i < lanes,
    ensures
        interleave(v, lanes, r).len() == r * lanes,
        q * lanes + i < r * lanes,
        interleave(v, lanes, r)[(q * lanes + i) as int] == v[i as int][q as int],
    decreases r,
{
    lemma_interleave_len(v, lanes, r);
    assert(q * lanes + i < r * lanes) by (nonlinear_arith)
        requires
            q < r,
            i < lanes;
    if q < r - 1 {
        lemma_interleave_index(v, lanes, (r - 1) as nat, q, i);
    } else {
        lemma_interleave_len(v, lanes, (r - 1) as nat);
        assert(q * lanes == (r - 1) * lanes);
    }
}

proof fn lemma_interleave_len(v: Seq<Seq<usize>>, lanes: nat, r: nat)
    ensures
        interleave(v, lanes, r).len() == r * lanes,
    decreases r,
{
    if r > 0 {
        let rm = (r - 1) as nat;
        lemma_interleave_len(v, lanes, rm);
        assert(r * lanes == rm * lanes + lanes) by (nonlinear_arith)
            requires
                rm == r - 1;
    } else {
        assert(r * lanes == 0) by (nonlinear_arith)
            requires
                r == 0;
    }
}

proof fn lemma_pair_ops(n: nat, j: nat, fan_in_side: bool)
    requires
        0 < j <= n,
    ensures
        ({
            let f = if fan_in_side { spec_fan_in(n) } else { spec_fan_out(n) };
            &&& f[2 * j - 2] == if fan_in_side { RoundOp::Take((j - 1) as usize) } else { RoundOp::Take(0) }
            &&& f[2 * j - 1] == if fan_in_side { RoundOp::Put(0, Payload::Forward) } else { RoundOp::Put((j - 1) as usize, Payload::Forward) }
        }),
{
    assert((2 * j - 2) % 2 == 0 && (2 * j - 2) / 2 == j - 1) by (nonlinear_arith)
        requires
            j > 0;
    assert((2 * j - 1) % 2 == 1 && (2 * j - 1) / 2 == j - 1) by (nonlinear_arith)
        requires
            j > 0;
}

proof fn lemma_play_push(ops: Seq<RoundOp>, o: RoundOp, inputs: Seq<Seq<usize>>, dst: Seq<usize>, n_out: nat)
    ensures
        play(ops.push(o), inputs, dst, n_out) == play_op(play(ops, inputs, dst, n_out), o, inputs, dst),
{
    assert(ops.push(o).drop_last() =~= ops);
}

proof fn lemma_prefix_step(f: Seq<RoundOp>, r: nat, j: nat)
    requires
        0 < j,
        2 * j <= f.len(),
    ensures
        repeat_rounds(f, r) + f.take((2 * j) as int) == (repeat_rounds(f, r) + f.take(2 * j - 2)).push(f[2 * j - 2]).push(f[2 * j - 1]),
{
    assert(repeat_rounds(f, r) + f.take((2 * j) as int) =~= (repeat_rounds(f, r) + f.take(2 * j - 2)).push(f[2 * j - 2]).push(f[2 * j - 1]));
}

proof fn lemma_prefix_round(f: Seq<RoundOp>, r: nat)
    requires
        r > 0,
    ensures
        repeat_rounds(f, r) + f.take(0) == repeat_rounds(f, (r - 1) as nat) + f.take(f.len() as int),
{
    assert(f.take(f.len() as int) =~= f);
    assert(repeat_rounds(f, r) + f.take(0) =~= repeat_rounds(f, r));
}

proof fn lemma_fan_in_play(v: Seq<Seq<usize>>, lanes: nat, dst: Seq<usize>, r: nat, j: nat)
    requires
        j <= lanes,
        lanes <= usize::MAX,
        v.len() == lanes,
    ensures
        ({
            let s = play(repeat_rounds(spec_fan_in(lanes), r) + spec_fan_in(lanes).take((2 * j) as int), v, dst, 1);
            &&& s.taken == Seq::new(lanes, |l: int| if l < j { r + 1 } else { r })
            &&& s.out.len() == 1
            &&& s.out[0] == interleave(v, lanes, r) + Seq::new(j, |i: int| v[i][r as int])
        }),
    decreases r, j,
{
    let f = spec_fan_in(lanes);
    let s = play(repeat_rounds(f, r) + f.take((2 * j) as int), v, dst, 1);
    if j == 0 {
        if r == 0 {
            assert(repeat_rounds(f, r) + f.take(0) =~= Seq::<RoundOp>::empty());
            assert(s.taken =~= Seq::new(lanes, |l: int| if l < j { r + 1 } else { r }));
            assert(s.out[0] =~= interleave(v, lanes, r) + Seq::new(j, |i: int| v[i][r as int]));
        } else {
            let rm = (r - 1) as nat;
            lemma_prefix_round(f, r);
            lemma_fan_in_play(v, lanes, dst, rm, lanes);
            assert(s.taken =~= Seq::new(lanes, |l: int| if l < j { r + 1 } else { r }));
            assert(s.out[0] =~= interleave(v, lanes, r) + Seq::new(j, |i: int| v[i][r as int]));
        }
    } else {
        let jm = (j - 1) as nat;
        lemma_fan_in_play(v, lanes, dst, r, jm);
        lemma_pair_ops(lanes, j, true);
        lemma_prefix_step(f, r, j);
        assert(2 * jm == 2 * j - 2);
        let p0 = repeat_rounds(f, r) + f.take(2 * j - 2);
        let prev = play(p0, v, dst, 1);
        lemma_play_push(p0, f[2 * j - 2], v, dst, 1);
        lemma_play_push(p0.push(f[2 * j - 2]), f[2 * j - 1], v, dst, 1);
        assert((jm as usize) as nat == jm);
        let mid = play_op(prev, RoundOp::Take(jm as usize), v, dst);
        assert(mid.last == v[jm as int][r as int]);
        assert(s == play_op(mid, RoundOp::Put(0, Payload::Forward), v, dst));
        assert(s.taken =~= Seq::new(lanes, |l: int| if l < j { r + 1 } else { r }));
        assert(s.out[0] =~= interleave(v, lanes, r) + Seq::new(j, |i: int| v[i][r as int]));
    }
}

proof fn lemma_fan_out_play(w: Seq<usize>, lanes: nat, dst: Seq<usize>, r: nat, j: nat)
    requires
        j <= lanes,
        lanes <= usize::MAX,
    ensures
        ({
            let s = play(repeat_rounds(spec_fan_out(lanes), r) + spec_fan_out(lanes).take((2 * j) as int), seq![w], dst, lanes);
            &&& s.taken == seq![r * lanes + j]
            &&& s.out.len() == lanes
            &&& forall|i: int| 0 <= i < lanes ==> #[trigger] s.out[i] == Seq::new(if i < j { r + 1 } else { r }, |q: int| w[q * lanes + i])
        }),
    decreases r, j,
{
    let f = spec_fan_out(lanes);
    let s = play(repeat_rounds(f, r) + f.take((2 * j) as int), seq![w], dst, lanes);
    if j == 0 {
        if r == 0 {
            assert(repeat_rounds(f, r) + f.take(0) =~= Seq::<RoundOp>::empty());
            assert(r * lanes == 0) by (nonlinear_arith)
                requires
                    r == 0;
            assert(s.taken =~= seq![r * lanes + j]);
            assert forall|i: int| 0 <= i < lanes implies #[trigger] s.out[i] =~= Seq::new(if i < j { r + 1 } else { r }, |q: int| w[q * lanes + i]) by {}
        } else {
            let rm = (r - 1) as nat;
            lemma_prefix_round(f, r);
            lemma_fan_out_play(w, lanes, dst, rm, lanes);
            assert(rm * lanes + lanes == r * lanes) by (nonlinear_arith)
                requires
                    rm == r - 1;
            assert(s.taken =~= seq![r * lanes + j]);
            assert forall|i: int| 0 <= i < lanes implies #[trigger] s.out[i] =~= Seq::new(if i < j { r + 1 } else { r }, |q: int| w[q * lanes + i]) by {}
        }
    } else {
        let jm = (j - 1) as nat;
        lemma_fan_out_play(w, lanes, dst, r, jm);
        lemma_pair_ops(lanes, j, false);
        lemma_prefix_step(f, r, j);
        assert(2 * jm == 2 * j - 2);
        let p0 = repeat_rounds(f, r) + f.take(2 * j - 2);
        let prev = play(p0, seq![w], dst, lanes);
        lemma_play_push(p0, f[2 * j - 2], seq![w], dst, lanes);
        lemma_play_push(p0.push(f[2 * j - 2]), f[2 * j - 1], seq![w], dst, lanes);
        assert((jm as usize) as nat == jm);
        let mid = play_op(prev, RoundOp::Take(0), seq![w], dst);
        assert(seq![w][0] == w);
        assert(mid.last == w[(r * lanes + jm) as int]);
        assert(s == play_op(mid, RoundOp::Put(jm as usize, Payload::Forward), seq![w], dst));
        assert(s.taken =~= seq![r * lanes + j]);
        assert forall|i: int| 0 <= i < lanes implies #[trigger] s.out[i] =~= Seq::new(if i < j { r + 1 } else { r }, |q: int| w[q * lanes + i]) by {
            if i == jm {
                assert(s.out[i] == prev.out[i].push(w[(r * lanes + jm) as int]));
            }
        }
    }
}

/// A fan-out undoes a fan-in: when a fan-in over `lanes` input lanes plays `rounds` rounds and its
/// output is the one input of a fan-out over `lanes` output lanes playing as many rounds, output
/// lane `j` of the fan-out receives the first `rounds` elements of input lane `j` of the fan-in,
/// in order. (The fan-in's output itself is their round-by-round [`interleave`].) The operations
/// played are those an [`AdapterCursor`] issues over the rounds (see
/// [`law_schedule_is_repeated_rounds`]).
pub proof fn law_fan_out_undoes_fan_in(v: Seq<Seq<usize>>, lanes: nat, rounds: nat, dst: Seq<usize>)
    requires
        0 < lanes <= usize::MAX,
        v.len() == lanes,
        forall|j: int| 0 <= j < lanes ==> #[trigger] v[j].len() >= rounds,
    ensures
        ({
            let mid = play(repeat_rounds(spec_fan_in(lanes), rounds), v, dst, 1).out[0];
            let back = play(repeat_rounds(spec_fan_out(lanes), rounds), seq![mid], dst, lanes).out;
            &&& mid == interleave(v, lanes, rounds)
            &&& back.len() == lanes
            &&& forall|j: int| 0 <= j < lanes ==> #[trigger] back[j] == v[j].take(rounds as int)
        }),
{
    lemma_fan_in_play(v, lanes, dst, rounds, 0);
    assert(repeat_rounds(spec_fan_in(lanes), rounds) + spec_fan_in(lanes).take(0) =~= repeat_rounds(spec_fan_in(lanes), rounds));
    let mid = play(repeat_rounds(spec_fan_in(lanes), rounds), v, dst, 1).out[0];
    assert(mid =~= interleave(v, lanes, rounds));
    lemma_fan_out_play(mid, lanes, dst, rounds, 0);
    assert(repeat_rounds(spec_fan_out(lanes), rounds) + spec_fan_out(lanes).take(0) =~= repeat_rounds(spec_fan_out(lanes), rounds));
    let back = play(repeat_rounds(spec_fan_out(lanes), rounds), seq![mid], dst, lanes).out;
    assert forall|j: int| 0 <= j < lanes implies #[trigger] back[j] == v[j].take(rounds as int) by {
        assert forall|q: int| 0 <= q < rounds implies #[trigger] back[j][q] == v[j][q] by {
            lemma_interleave_index(v, lanes, rounds, q as nat, j as nat);
        }
        assert(back[j] =~= v[j].take(rounds as int));
    }
}

} // verus!
