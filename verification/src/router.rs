//! The decisions of a dragonfly router, as a state machine.
//!
//! Each round the router peeks every input it still listens to, takes the packet (or the
//! promise of one) with the earliest time, and either advances its clock to that time or
//! forwards the packet to the output port its destination calls for. The channels and the
//! clock belong to the simulator that runs the router: this module decides, the simulator acts.
use vstd::prelude::*;
use crate::ports::dict_lookup;
use crate::ports::dict_view;
use crate::ports::lookup_port;
use crate::ports::make_port_name;
use crate::ports::port_name;
use crate::ports::law_dict_lookup_first;
use crate::routing::gateway;
use crate::routing::intra_hop;
use crate::routing::spec_gateway;
use crate::routing::spec_intra_hop;
use crate::routing::lemma_gateway_bounds;
use crate::topology::build_inter_links;
use crate::topology::law_inter_links_sound;
use crate::topology::spec_inter_links;
use crate::topology::sum_usize;
use crate::topology::lemma_share_at_most;

verus! {

/// What a router knows of one of its ports: whether its dictionary names it, the stream it
/// is wired to, and how many packets pass it per input (both `usize::MAX` when unnamed).
#[derive(Clone, Copy, Debug)]
pub struct PortSlot {
    pub present: bool,
    pub stream: usize,
    pub limit: usize,
}

/// What a peek at an input channel showed.
#[derive(Clone, Copy, Debug)]
pub enum Peek {
    /// The sender has closed the channel.
    Closed,
    /// Nothing yet; the sender's clock stands at the given time.
    Nothing(u64),
    /// A packet, with its time and its value (the destination of the packet).
    Something(u64, usize),
}

/// Why a round could not go on; the simulator stops there.
#[derive(Clone, Copy, Debug, PartialEq, Eq, Structural)]
pub enum RouterFault {
    /// An empty input showed a clock at `u64::MAX`, whose successor does not exist.
    TimeOverflow,
    /// The count of packets received on the chosen input is at `usize::MAX`.
    ReceiveCountOverflow,
    /// No output port leads towards the packet's destination.
    NoRoute,
    /// The output port the packet needs is not named in the output dictionary.
    OutputPortUnset,
    /// The output port names a stream the router does not have.
    OutputStreamMissing,
    /// The count of packets sent on the chosen output is at `usize::MAX`.
    SendCountOverflow,
}

/// What the simulator does for a round.
#[derive(Clone, Copy, Debug)]
pub enum RouterAction {
    /// No input can deliver anything.
    Idle,
    /// Advance the router's clock to the given time.
    Advance(u64),
    /// Take the packet from input stream `in_stream` (port `in_port`) and send `data` on output
    /// stream `out_stream` (port `out_port`), stamped one cycle later than now when `delayed`, in
    /// which case the router's clock also moves on by one cycle.
    Forward { in_port: usize, in_stream: usize, data: usize, out_port: usize, out_stream: usize, delayed: bool },
    /// The round cannot go on before any packet is taken.
    Fault(RouterFault),
    /// Take the packet from input stream `in_stream`; then the round cannot go on.
    Reject { in_stream: usize, fault: RouterFault },
}

/// Why a router could not be set up.
#[derive(Clone, Copy, Debug, PartialEq, Eq, Structural)]
pub enum SetupError {
    /// A network needs at least one router per group and one group.
    ZeroDimension,
    /// The port count `x_dim + y_dim - 1` does not fit a `usize`, or `y_dim > usize::MAX / 2`, past
    /// which the group counters of the link table cannot be held.
    TooLarge,
    /// An input port names a stream the router does not have.
    InputStreamMissing,
    /// For some named port, packets per input times inputs times rounds does not fit a `usize`.
    TargetOverflow,
}

/// The changing part of a router's state.
pub struct RouterProgress {
    pub in_closed: Vec<bool>,
    pub in_received: Vec<usize>,
    pub out_sent: Vec<usize>,
    pub prev_lowest: usize,
    pub prev_time: u64,
    pub prev_output: usize,
}

/// [`RouterProgress`] as a mathematical value.
pub struct ProgressView {
    pub in_closed: Seq<bool>,
    pub in_received: Seq<usize>,
    pub out_sent: Seq<usize>,
    pub prev_lowest: usize,
    pub prev_time: u64,
    pub prev_output: usize,
}

impl View for RouterProgress {
    type V = ProgressView;

    open spec fn view(&self) -> ProgressView {
        ProgressView {
            in_closed: self.in_closed@,
            in_received: self.in_received@,
            out_sent: self.out_sent@,
            prev_lowest: self.prev_lowest,
            prev_time: self.prev_time,
            prev_output: self.prev_output,
        }
    }
}

/// A router `(x, y)` of a dragonfly network of `y_dim` groups of `x_dim` routers.
pub struct DragonflyRouter {
    pub x_dim: usize,
    pub y_dim: usize,
    pub x: usize,
    pub y: usize,
    pub num_input: usize,
    pub counter: usize,
    pub in_len: usize,
    pub out_len: usize,
    pub links: Vec<Vec<Vec<(usize, usize)>>>,
    pub in_ports: Vec<PortSlot>,
    pub out_ports: Vec<PortSlot>,
    pub in_targets: Vec<usize>,
    pub out_targets: Vec<usize>,
    pub progress: RouterProgress,
}

/// The slot of port `i` in a dictionary.
pub open spec fn spec_slot(dict: Seq<(Seq<char>, (usize, usize))>, i: nat, radix_intra: nat, radix_inter: nat, output: bool) -> PortSlot {
    match dict_lookup(dict, port_name(i, radix_intra, radix_inter, output)) {
        Some(v) => PortSlot { present: true, stream: v.0, limit: v.1 },
        None => PortSlot { present: false, stream: usize::MAX, limit: usize::MAX },
    }
}

/// Whether `limit * num_input * counter`, multiplied left to right, fits a `usize`.
pub open spec fn target_fits(limit: usize, num_input: usize, counter: usize) -> bool {
    &&& limit * num_input <= usize::MAX
    &&& limit * num_input * counter <= usize::MAX
}

/// The number of packets a named port passes before the router is done.
pub open spec fn spec_target(limit: usize, num_input: usize, counter: usize) -> int {
    limit * num_input * counter
}

/// First index among `0..n` holding the smallest time below `u64::MAX` (`None` when all are at
/// `u64::MAX`).
pub open spec fn lowest_upto(ft: Seq<u64>, n: nat) -> Option<nat>
    decreases n,
{
    if n == 0 {
        None
    } else {
        let p = lowest_upto(ft, (n - 1) as nat);
        let best = match p {
            Some(i) => ft[i as int],
            None => u64::MAX,
        };
        if ft[n - 1] < best {
            Some((n - 1) as nat)
        } else {
            p
        }
    }
}

/// When an input is next worth looking at: never (`u64::MAX`) once closed; the packet's time when
/// it shows one; one past the sender's clock when it shows nothing.
pub open spec fn future_time(closed: Seq<bool>, peeks: Seq<Peek>, i: int) -> u64 {
    if closed[i] {
        u64::MAX
    } else {
        match peeks[i] {
            Peek::Closed => u64::MAX,
            Peek::Nothing(t) => (t + 1) as u64,
            Peek::Something(t, _) => t,
        }
    }
}

/// The packet an input shows, or `usize::MAX` when it shows none.
pub open spec fn shown_data(closed: Seq<bool>, peeks: Seq<Peek>, i: int) -> usize {
    if closed[i] {
        usize::MAX
    } else {
        match peeks[i] {
            Peek::Something(_, d) => d,
            _ => usize::MAX,
        }
    }
}

/// Some open input shows an empty channel whose clock has no successor.
pub open spec fn time_overflows(closed: Seq<bool>, peeks: Seq<Peek>) -> bool {
    exists|i: int| 0 <= i < closed.len() && !closed[i] && #[trigger] peeks[i] == Peek::Nothing(u64::MAX)
}

/// The inputs closed once the peeks are seen.
pub open spec fn closed_after(closed: Seq<bool>, peeks: Seq<Peek>) -> Seq<bool> {
    Seq::new(closed.len(), |i: int| closed[i] || peeks[i] is Closed)
}

/// The intra port from router `x` towards router `target`, when there is one (see
/// [`crate::routing::intra_hop`]).
pub open spec fn spec_hop(x: usize, target: usize, x_dim: usize) -> Option<usize> {
    if target < x_dim && x + spec_intra_hop(x, target, x_dim) + 1 <= usize::MAX {
        Some(spec_intra_hop(x, target, x_dim) as usize)
    } else {
        None
    }
}

impl DragonflyRouter {
    /// Number of ports: intra ports, inter ports, and the local port.
    pub open spec fn num_ports(&self) -> nat {
        (self.x_dim + self.y_dim - 1) as nat
    }

    /// Whether a packet for `data` has reached this router.
    pub open spec fn is_local(&self, data: usize) -> bool {
        &&& data / self.y_dim == self.x
        &&& data % self.y_dim == self.y
    }

    /// The output port a packet for `data` leaves by: the local port when it has arrived; within its
    /// destination group, the intra port towards its destination router; elsewhere, the inter port
    /// of this router's link into the destination group when this router is the group's gateway
    /// to it, and the intra port towards that gateway otherwise.
    pub open spec fn spec_route(&self, data: usize) -> Option<usize> {
        let dx = data / self.y_dim;
        let dy = data % self.y_dim;
        if dx == self.x && dy == self.y {
            Some((self.num_ports() - 1) as usize)
        } else if dx != self.x && dy == self.y {
            spec_hop(self.x, dx, self.x_dim)
        } else {
            match spec_gateway(self.links.deep_view(), self.x_dim, self.y_dim, self.y, dy) {
                None => None,
                Some((gx, m)) => if self.x == gx {
                    Some((self.x_dim - 1 + m) as usize)
                } else {
                    spec_hop(self.x, gx as usize, self.x_dim)
                },
            }
        }
    }

    /// The configuration the router was set up with, and the bookkeeping that goes with it.
    pub open spec fn wf(&self) -> bool {
        let np = self.num_ports();
        &&& self.x_dim > 0
        &&& self.y_dim > 0
        &&& self.x_dim + self.y_dim - 1 <= usize::MAX
        &&& self.y_dim <= usize::MAX / 2
        &&& self.links.deep_view() == spec_inter_links(self.x_dim, self.y_dim)
        &&& self.in_ports@.len() == np
        &&& self.out_ports@.len() == np
        &&& self.in_targets@.len() == np
        &&& self.out_targets@.len() == np
        &&& self.progress.in_closed@.len() == np
        &&& self.progress.in_received@.len() == np
        &&& self.progress.out_sent@.len() == np
        &&& forall|i: int| 0 <= i < np ==> (#[trigger] self.in_ports@[i]).present ==> {
            &&& self.in_ports@[i].stream < self.in_len
            &&& target_fits(self.in_ports@[i].limit, self.num_input, self.counter)
            &&& self.in_targets@[i] == spec_target(self.in_ports@[i].limit, self.num_input, self.counter)
        }
        &&& forall|i: int| 0 <= i < np ==> (#[trigger] self.out_ports@[i]).present ==> {
            &&& target_fits(self.out_ports@[i].limit, self.num_input, self.counter)
            &&& self.out_targets@[i] == spec_target(self.out_ports@[i].limit, self.num_input, self.counter)
        }
        &&& forall|i: int| 0 <= i < np ==> !(#[trigger] self.in_ports@[i]).present ==> self.progress.in_closed@[i]
    }

    /// The router's configuration is that of `other`.
    pub open spec fn same_config(&self, other: &Self) -> bool {
        &&& self.x_dim == other.x_dim
        &&& self.y_dim == other.y_dim
        &&& self.x == other.x
        &&& self.y == other.y
        &&& self.num_input == other.num_input
        &&& self.counter == other.counter
        &&& self.in_len == other.in_len
        &&& self.out_len == other.out_len
        &&& self.links.deep_view() == other.links.deep_view()
        &&& self.in_ports@ == other.in_ports@
        &&& self.out_ports@ == other.out_ports@
        &&& self.in_targets@ == other.in_targets@
        &&& self.out_targets@ == other.out_targets@
    }

    /// One round of the router, given what the peeks at its inputs showed (peeks at inputs it no
    /// longer listens to are ignored): the progress after the round and what the simulator does.
    /// A round that faults changes nothing.
    pub open spec fn spec_step(&self, peeks: Seq<Peek>) -> (ProgressView, RouterAction) {
        let p = self.progress@;
        let np = self.num_ports();
        let closed2 = closed_after(p.in_closed, peeks);
        let ft = Seq::new(np, |i: int| future_time(p.in_closed, peeks, i));
        let idle = ProgressView { in_closed: closed2, ..p };
        if time_overflows(p.in_closed, peeks) {
            (p, RouterAction::Fault(RouterFault::TimeOverflow))
        } else {
            match lowest_upto(ft, np) {
                None => (idle, RouterAction::Idle),
                Some(l) => {
                    let d = shown_data(p.in_closed, peeks, l as int);
                    if d == usize::MAX {
                        (idle, RouterAction::Advance(ft[l as int]))
                    } else if p.in_received[l as int] == usize::MAX {
                        (p, RouterAction::Reject { in_stream: self.in_ports@[l as int].stream, fault: RouterFault::ReceiveCountOverflow })
                    } else {
                        match self.spec_route(d) {
                            None => (p, RouterAction::Reject { in_stream: self.in_ports@[l as int].stream, fault: RouterFault::NoRoute }),
                            Some(port) => {
                                let slot = self.out_ports@[port as int];
                                if slot.stream == usize::MAX {
                                    (p, RouterAction::Reject { in_stream: self.in_ports@[l as int].stream, fault: RouterFault::OutputPortUnset })
                                } else if slot.stream >= self.out_len {
                                    (p, RouterAction::Reject { in_stream: self.in_ports@[l as int].stream, fault: RouterFault::OutputStreamMissing })
                                } else if p.out_sent[port as int] == usize::MAX {
                                    (p, RouterAction::Reject { in_stream: self.in_ports@[l as int].stream, fault: RouterFault::SendCountOverflow })
                                } else {
                                    let prompt = l == np - 1 || (l != p.prev_lowest && ft[l as int] == p.prev_time
                                        && port != p.prev_output);
                                    let delayed = !self.is_local(d) && !prompt;
                                    (
                                        ProgressView {
                                            in_closed: closed2,
                                            in_received: p.in_received.update(l as int, (p.in_received[l as int] + 1) as usize),
                                            out_sent: p.out_sent.update(port as int, (p.out_sent[port as int] + 1) as usize),
                                            prev_lowest: l as usize,
                                            prev_time: ft[l as int],
                                            prev_output: port,
                                        },
                                        RouterAction::Forward {
                                            in_port: l as usize,
                                            in_stream: self.in_ports@[l as int].stream,
                                            data: d,
                                            out_port: port,
                                            out_stream: slot.stream,
                                            delayed,
                                        },
                                    )
                                }
                            },
                        }
                    }
                },
            }
        }
    }

    /// Whether every named input has received, and every named output has sent, its
    /// packets-per-input times inputs times rounds.
    pub open spec fn spec_finished(&self) -> bool {
        forall|i: int| 0 <= i < self.num_ports() ==> {
            &&& (#[trigger] self.in_ports@[i]).present ==> self.progress.in_received@[i] == self.in_targets@[i]
            &&& self.out_ports@[i].present ==> self.progress.out_sent@[i] == self.out_targets@[i]
        }
    }
}


/// The reason, if any, a router cannot be set up from these parameters, in the order a running
/// router would meet them: the port arithmetic, then its first peek at every named input, then its
/// first count of the packets each named port passes.
pub open spec fn spec_setup_error(
    x_dim: usize,
    y_dim: usize,
    num_input: usize,
    counter: usize,
    in_dict: Seq<(Seq<char>, (usize, usize))>,
    in_len: usize,
    out_dict: Seq<(Seq<char>, (usize, usize))>,
) -> Option<SetupError> {
    if x_dim == 0 || y_dim == 0 {
        Some(SetupError::ZeroDimension)
    } else if x_dim + y_dim - 1 > usize::MAX || y_dim > usize::MAX / 2 {
        Some(SetupError::TooLarge)
    } else {
        let np = (x_dim + y_dim - 1) as nat;
        let ri = (x_dim - 1) as nat;
        let re = (y_dim - 1) as nat;
        if exists|i: nat| i < np && #[trigger] spec_slot(in_dict, i, ri, re, false).present
            && spec_slot(in_dict, i, ri, re, false).stream >= in_len {
            Some(SetupError::InputStreamMissing)
        } else if exists|i: nat| i < np && ((#[trigger] spec_slot(in_dict, i, ri, re, false).present
            && !target_fits(spec_slot(in_dict, i, ri, re, false).limit, num_input, counter))
            || (spec_slot(out_dict, i, ri, re, true).present
            && !target_fits(spec_slot(out_dict, i, ri, re, true).limit, num_input, counter))) {
            Some(SetupError::TargetOverflow)
        } else {
            None
        }
    }
}

proof fn lemma_no_missing_stream(ind: Seq<(Seq<char>, (usize, usize))>, x_dim: usize, y_dim: usize, in_len: usize, in_ports: Seq<PortSlot>)
    requires
        x_dim > 0,
        y_dim > 0,
        in_ports.len() == x_dim + y_dim - 1,
        forall|j: int| 0 <= j < in_ports.len() ==> #[trigger] in_ports[j] == spec_slot(ind, j as nat, (x_dim - 1) as nat, (y_dim - 1) as nat, false),
        forall|j: int| 0 <= j < in_ports.len() ==> !((#[trigger] in_ports[j]).present && in_ports[j].stream >= in_len),
    ensures
        !(exists|i: nat| i < x_dim + y_dim - 1 && #[trigger] spec_slot(ind, i, (x_dim - 1) as nat, (y_dim - 1) as nat, false).present
            && spec_slot(ind, i, (x_dim - 1) as nat, (y_dim - 1) as nat, false).stream >= in_len),
{
    assert forall|i: nat| i < x_dim + y_dim - 1 implies !(#[trigger] spec_slot(ind, i, (x_dim - 1) as nat, (y_dim - 1) as nat, false).present
        && spec_slot(ind, i, (x_dim - 1) as nat, (y_dim - 1) as nat, false).stream >= in_len) by {
        assert(in_ports[i as int] == spec_slot(ind, i, (x_dim - 1) as nat, (y_dim - 1) as nat, false));
    }
}

proof fn lemma_setup_error_witness(
    x_dim: usize,
    y_dim: usize,
    num_input: usize,
    counter: usize,
    ind: Seq<(Seq<char>, (usize, usize))>,
    in_len: usize,
    outd: Seq<(Seq<char>, (usize, usize))>,
    i: nat,
)
    requires
        x_dim > 0,
        y_dim > 0,
        x_dim + y_dim - 1 <= usize::MAX,
        y_dim <= usize::MAX / 2,
        i < x_dim + y_dim - 1,
    ensures
        (spec_slot(ind, i, (x_dim - 1) as nat, (y_dim - 1) as nat, false).present
            && spec_slot(ind, i, (x_dim - 1) as nat, (y_dim - 1) as nat, false).stream >= in_len)
            ==> spec_setup_error(x_dim, y_dim, num_input, counter, ind, in_len, outd) == Some(SetupError::InputStreamMissing),
        (!(exists|j: nat| j < x_dim + y_dim - 1 && #[trigger] spec_slot(ind, j, (x_dim - 1) as nat, (y_dim - 1) as nat, false).present
            && spec_slot(ind, j, (x_dim - 1) as nat, (y_dim - 1) as nat, false).stream >= in_len)
            && ((spec_slot(ind, i, (x_dim - 1) as nat, (y_dim - 1) as nat, false).present
            && !target_fits(spec_slot(ind, i, (x_dim - 1) as nat, (y_dim - 1) as nat, false).limit, num_input, counter))
            || (spec_slot(outd, i, (x_dim - 1) as nat, (y_dim - 1) as nat, true).present
            && !target_fits(spec_slot(outd, i, (x_dim - 1) as nat, (y_dim - 1) as nat, true).limit, num_input, counter))))
            ==> spec_setup_error(x_dim, y_dim, num_input, counter, ind, in_len, outd) == Some(SetupError::TargetOverflow),
{
}

fn slot_of(dict: &Vec<(String, (usize, usize))>, i: usize, ri: usize, re: usize, output: bool) -> (s: PortSlot)
    ensures
        s == spec_slot(dict_view(dict@), i as nat, ri as nat, re as nat, output),
{
    let name = make_port_name(i, ri, re, output);
    match lookup_port(dict, &name) {
        Some(v) => PortSlot { present: true, stream: v.0, limit: v.1 },
        None => PortSlot { present: false, stream: usize::MAX, limit: usize::MAX },
    }
}

fn target_of(limit: usize, num_input: usize, counter: usize) -> (r: Option<usize>)
    ensures
        match r {
            Some(t) => target_fits(limit, num_input, counter) && t == spec_target(limit, num_input, counter),
            None => !target_fits(limit, num_input, counter),
        },
{
    match limit.checked_mul(num_input) {
        None => None,
        Some(a) => a.checked_mul(counter),
    }
}

impl DragonflyRouter {
    /// Sets up router `(x, y)` of a network of `y_dim` groups of `x_dim` routers, whose inputs and
    /// outputs are named by `in_dict` and `out_dict` (from port name to stream index and packets per
    /// input), over `in_len` input and `out_len` output streams; every port passes its packets per
    /// input `num_input * counter` times. Unnamed inputs count as closed from the start.
    pub fn setup(
        x_dim: usize,
        y_dim: usize,
        x: usize,
        y: usize,
        num_input: usize,
        counter: usize,
        in_dict: &Vec<(String, (usize, usize))>,
        in_len: usize,
        out_dict: &Vec<(String, (usize, usize))>,
        out_len: usize,
    ) -> (r: Result<DragonflyRouter, SetupError>)
        ensures
            match r {
                Err(e) => spec_setup_error(x_dim, y_dim, num_input, counter, dict_view(in_dict@), in_len, dict_view(out_dict@)) == Some(e),
                Ok(rt) => {
                    let np = (x_dim + y_dim - 1) as nat;
                    &&& spec_setup_error(x_dim, y_dim, num_input, counter, dict_view(in_dict@), in_len, dict_view(out_dict@)) is None
                    &&& rt.wf()
                    &&& rt.x_dim == x_dim && rt.y_dim == y_dim && rt.x == x && rt.y == y
                    &&& rt.num_input == num_input && rt.counter == counter
                    &&& rt.in_len == in_len && rt.out_len == out_len
                    &&& rt.in_ports@ == Seq::new(np, |i: int| spec_slot(dict_view(in_dict@), i as nat, (x_dim - 1) as nat, (y_dim - 1) as nat, false))
                    &&& rt.out_ports@ == Seq::new(np, |i: int| spec_slot(dict_view(out_dict@), i as nat, (x_dim - 1) as nat, (y_dim - 1) as nat, true))
                    &&& rt.progress@.in_closed == Seq::new(np, |i: int| !rt.in_ports@[i].present)
                    &&& rt.progress@.in_received == Seq::new(np, |i: int| 0usize)
                    &&& rt.progress@.out_sent == Seq::new(np, |i: int| 0usize)
                    &&& rt.progress@.prev_lowest == usize::MAX
                    &&& rt.progress@.prev_time == u64::MAX
                    &&& rt.progress@.prev_output == usize::MAX
                },
            },
    {
        if x_dim == 0 || y_dim == 0 {
            return Err(SetupError::ZeroDimension);
        }
        if x_dim - 1 > usize::MAX - y_dim || y_dim > usize::MAX / 2 {
            return Err(SetupError::TooLarge);
        }
        let np = (x_dim - 1) + y_dim;
        let ri = x_dim - 1;
        let re = y_dim - 1;
        let ghost ind = dict_view(in_dict@);
        let ghost outd = dict_view(out_dict@);
        let mut in_ports: Vec<PortSlot> = Vec::new();
        let mut out_ports: Vec<PortSlot> = Vec::new();
        let mut i: usize = 0;
        while i < np
            invariant
                x_dim > 0,
                y_dim > 0,
                y_dim <= usize::MAX / 2,
                ind == dict_view(in_dict@),
                outd == dict_view(out_dict@),
                ri == x_dim - 1,
                re == y_dim - 1,
                np == x_dim + y_dim - 1,
                i <= np,
                ind == dict_view(in_dict@),
                outd == dict_view(out_dict@),
                in_ports@.len() == i,
                out_ports@.len() == i,
                forall|j: int| 0 <= j < i ==> #[trigger] in_ports@[j] == spec_slot(ind, j as nat, ri as nat, re as nat, false),
                forall|j: int| 0 <= j < i ==> #[trigger] out_ports@[j] == spec_slot(outd, j as nat, ri as nat, re as nat, true),
            decreases np - i,
        {
            in_ports.push(slot_of(in_dict, i, ri, re, false));
            out_ports.push(slot_of(out_dict, i, ri, re, true));
            i += 1;
        }
        let mut i: usize = 0;
        while i < np
            invariant
                x_dim > 0,
                y_dim > 0,
                y_dim <= usize::MAX / 2,
                ind == dict_view(in_dict@),
                outd == dict_view(out_dict@),
                ri == x_dim - 1,
                re == y_dim - 1,
                np == x_dim + y_dim - 1,
                i <= np,
                in_ports@.len() == np,
                forall|j: int| 0 <= j < np ==> #[trigger] in_ports@[j] == spec_slot(ind, j as nat, ri as nat, re as nat, false),
                forall|j: int| 0 <= j < i ==> !((#[trigger] in_ports@[j]).present && in_ports@[j].stream >= in_len),
            decreases np - i,
        {
            if in_ports[i].present && in_ports[i].stream >= in_len {
                assert(spec_slot(ind, i as nat, ri as nat, re as nat, false) == in_ports@[i as int]);
                assert(spec_slot(ind, i as nat, (x_dim - 1) as nat, (y_dim - 1) as nat, false).present
                    && spec_slot(ind, i as nat, (x_dim - 1) as nat, (y_dim - 1) as nat, false).stream >= in_len);
                proof {
                    lemma_setup_error_witness(x_dim, y_dim, num_input, counter, ind, in_len, outd, i as nat);
                }
                return Err(SetupError::InputStreamMissing);
            }
            i += 1;
        }
        let mut in_targets: Vec<usize> = Vec::new();
        let mut out_targets: Vec<usize> = Vec::new();
        let mut i: usize = 0;
        while i < np
            invariant
                x_dim > 0,
                y_dim > 0,
                y_dim <= usize::MAX / 2,
                ind == dict_view(in_dict@),
                outd == dict_view(out_dict@),
                ri == x_dim - 1,
                re == y_dim - 1,
                np == x_dim + y_dim - 1,
                i <= np,
                in_ports@.len() == np,
                out_ports@.len() == np,
                in_targets@.len() == i,
                out_targets@.len() == i,
                forall|j: int| 0 <= j < np ==> #[trigger] in_ports@[j] == spec_slot(ind, j as nat, ri as nat, re as nat, false),
                forall|j: int| 0 <= j < np ==> #[trigger] out_ports@[j] == spec_slot(outd, j as nat, ri as nat, re as nat, true),
                forall|j: int| 0 <= j < np ==> !((#[trigger] in_ports@[j]).present && in_ports@[j].stream >= in_len),
                forall|j: int| 0 <= j < i ==> (#[trigger] in_ports@[j]).present ==> {
                    &&& target_fits(in_ports@[j].limit, num_input, counter)
                    &&& in_targets@[j] == spec_target(in_ports@[j].limit, num_input, counter)
                },
                forall|j: int| 0 <= j < i ==> (#[trigger] out_ports@[j]).present ==> {
                    &&& target_fits(out_ports@[j].limit, num_input, counter)
                    &&& out_targets@[j] == spec_target(out_ports@[j].limit, num_input, counter)
                },
            decreases np - i,
        {
            let mut t_in: usize = 0;
            if in_ports[i].present {
                match target_of(in_ports[i].limit, num_input, counter) {
                    Some(t) => { t_in = t; },
                    None => {
                        assert(spec_slot(ind, i as nat, ri as nat, re as nat, false) == in_ports@[i as int]);
                        assert(spec_slot(ind, i as nat, (x_dim - 1) as nat, (y_dim - 1) as nat, false).present
                            && !target_fits(spec_slot(ind, i as nat, (x_dim - 1) as nat, (y_dim - 1) as nat, false).limit, num_input, counter));
                        proof {
                            lemma_no_missing_stream(ind, x_dim, y_dim, in_len, in_ports@);
                            lemma_setup_error_witness(x_dim, y_dim, num_input, counter, ind, in_len, outd, i as nat);
                        }
                        return Err(SetupError::TargetOverflow);
                    },
                }
            }
            let mut t_out: usize = 0;
            if out_ports[i].present {
                match target_of(out_ports[i].limit, num_input, counter) {
                    Some(t) => { t_out = t; },
                    None => {
                        assert(spec_slot(outd, i as nat, ri as nat, re as nat, true) == out_ports@[i as int]);
                        assert(spec_slot(outd, i as nat, (x_dim - 1) as nat, (y_dim - 1) as nat, true).present
                            && !target_fits(spec_slot(outd, i as nat, (x_dim - 1) as nat, (y_dim - 1) as nat, true).limit, num_input, counter));
                        proof {
                            lemma_no_missing_stream(ind, x_dim, y_dim, in_len, in_ports@);
                            lemma_setup_error_witness(x_dim, y_dim, num_input, counter, ind, in_len, outd, i as nat);
                        }
                        return Err(SetupError::TargetOverflow);
                    },
                }
            }
            in_targets.push(t_in);
            out_targets.push(t_out);
            i += 1;
        }
        proof {
            lemma_no_missing_stream(ind, x_dim, y_dim, in_len, in_ports@);
            assert forall|j: nat| j < np implies !(#[trigger] spec_slot(ind, j, ri as nat, re as nat, false).present
                && !target_fits(spec_slot(ind, j, ri as nat, re as nat, false).limit, num_input, counter)) by {
                assert(in_ports@[j as int] == spec_slot(ind, j, ri as nat, re as nat, false));
            }
            assert forall|j: nat| j < np implies !(#[trigger] spec_slot(outd, j, ri as nat, re as nat, true).present
                && !target_fits(spec_slot(outd, j, ri as nat, re as nat, true).limit, num_input, counter)) by {
                assert(out_ports@[j as int] == spec_slot(outd, j, ri as nat, re as nat, true));
            }
        }
        let mut in_closed: Vec<bool> = Vec::new();
        let mut in_received: Vec<usize> = Vec::new();
        let mut out_sent: Vec<usize> = Vec::new();
        let mut i: usize = 0;
        while i < np
            invariant
                x_dim > 0,
                y_dim > 0,
                y_dim <= usize::MAX / 2,
                ind == dict_view(in_dict@),
                outd == dict_view(out_dict@),
                ri == x_dim - 1,
                re == y_dim - 1,
                np == x_dim + y_dim - 1,
                i <= np,
                in_ports@.len() == np,
                in_closed@.len() == i,
                in_received@.len() == i,
                out_sent@.len() == i,
                forall|j: int| 0 <= j < i ==> #[trigger] in_closed@[j] == !in_ports@[j].present,
                forall|j: int| 0 <= j < i ==> #[trigger] in_received@[j] == 0,
                forall|j: int| 0 <= j < i ==> #[trigger] out_sent@[j] == 0,
            decreases np - i,
        {
            in_closed.push(!in_ports[i].present);
            in_received.push(0);
            out_sent.push(0);
            i += 1;
        }
        let links = build_inter_links(x_dim, y_dim);
        let rt = DragonflyRouter {
            x_dim,
            y_dim,
            x,
            y,
            num_input,
            counter,
            in_len,
            out_len,
            links,
            in_ports,
            out_ports,
            in_targets,
            out_targets,
            progress: RouterProgress {
                in_closed,
                in_received,
                out_sent,
                prev_lowest: usize::MAX,
                prev_time: u64::MAX,
                prev_output: usize::MAX,
            },
        };
        assert(rt.in_ports@ =~= Seq::new(np as nat, |i: int| spec_slot(ind, i as nat, ri as nat, re as nat, false)));
        assert(rt.out_ports@ =~= Seq::new(np as nat, |i: int| spec_slot(outd, i as nat, ri as nat, re as nat, true)));
        assert(rt.progress@.in_closed =~= Seq::new(np as nat, |i: int| !rt.in_ports@[i].present));
        assert(rt.progress@.in_received =~= Seq::new(np as nat, |i: int| 0usize));
        assert(rt.progress@.out_sent =~= Seq::new(np as nat, |i: int| 0usize));
        Ok(rt)
    }

    /// The output port for a packet holding `data` (see [`Self::spec_route`]).
    pub fn route(&self, data: usize) -> (r: Option<usize>)
        requires
            self.wf(),
        ensures
            r == self.spec_route(data),
            r matches Some(p) ==> p < self.num_ports(),
    {
        let dx = data / self.y_dim;
        let dy = data % self.y_dim;
        if dx == self.x && dy == self.y {
            Some((self.x_dim - 1) + (self.y_dim - 1))
        } else if dx != self.x && dy == self.y {
            intra_hop(self.x, dx, self.x_dim)
        } else {
            proof {
                law_inter_links_sound(self.x_dim, self.y_dim);
                lemma_gateway_bounds(self.links.deep_view(), self.x_dim, self.y_dim, self.y, dy);
            }
            match gateway(&self.links, self.x_dim, self.y_dim, self.y, dy) {
                None => None,
                Some((gx, m)) => {
                    if self.x == gx {
                        proof {
                            lemma_share_at_most(self.x_dim, self.y_dim, gx as int);
                        }
                        Some(self.x_dim - 1 + m)
                    } else {
                        intra_hop(self.x, gx, self.x_dim)
                    }
                },
            }
        }
    }

    /// Whether the router is done (see [`Self::spec_finished`]).
    pub fn finished(&self) -> (r: bool)
        requires
            self.wf(),
        ensures
            r == self.spec_finished(),
    {
        let np = self.in_ports.len();
        let mut i: usize = 0;
        while i < np
            invariant
                self.wf(),
                np == self.num_ports(),
                i <= np,
                forall|j: int| 0 <= j < i ==> {
                    &&& (#[trigger] self.in_ports@[j]).present ==> self.progress.in_received@[j] == self.in_targets@[j]
                    &&& self.out_ports@[j].present ==> self.progress.out_sent@[j] == self.out_targets@[j]
                },
            decreases np - i,
        {
            if self.in_ports[i].present && self.progress.in_received[i] != self.in_targets[i] {
                return false;
            }
            if self.out_ports[i].present && self.progress.out_sent[i] != self.out_targets[i] {
                return false;
            }
            i += 1;
        }
        assert(self.spec_finished());
        true
    }
}


fn close_inputs(closed: &mut Vec<bool>, peeks: &Vec<Peek>)
    requires
        peeks@.len() == old(closed)@.len(),
    ensures
        final(closed)@ == closed_after(old(closed)@, peeks@),
{
    let n = closed.len();
    let mut i: usize = 0;
    while i < n
        invariant
            n == old(closed)@.len(),
            peeks@.len() == n,
            i <= n,
            closed@.len() == n,
            forall|j: int| 0 <= j < i ==> #[trigger] closed@[j] == (old(closed)@[j] || peeks@[j] is Closed),
            forall|j: int| i <= j < n ==> #[trigger] closed@[j] == old(closed)@[j],
        decreases n - i,
    {
        match peeks[i] {
            Peek::Closed => {
                closed.set(i, true);
            },
            _ => {},
        }
        i += 1;
    }
    assert(closed@ =~= closed_after(old(closed)@, peeks@));
}

impl DragonflyRouter {
    /// Plays one round of the router (see [`Self::spec_step`]): `peeks[i]` is what input port `i`
    /// showed; the simulator need not peek at ports the router no longer listens to.
    pub fn step(&mut self, peeks: &Vec<Peek>) -> (action: RouterAction)
        requires
            old(self).wf(),
            peeks@.len() == old(self).num_ports(),
        ensures
            final(self).wf(),
            final(self).same_config(&*old(self)),
            (final(self).progress@, action) == old(self).spec_step(peeks@),
    {
        let np = self.in_ports.len();
        let ghost p = self.progress@;
        let mut ft: Vec<u64> = Vec::new();
        let mut shown: Vec<usize> = Vec::new();
        let mut i: usize = 0;
        while i < np
            invariant
                self.wf(),
                self.same_config(&*old(self)),
                np == self.num_ports(),
                self.progress@ == p,
                p.in_closed.len() == np,
                peeks@.len() == np,
                i <= np,
                ft@.len() == i,
                shown@.len() == i,
                forall|j: int| 0 <= j < i ==> #[trigger] ft@[j] == future_time(p.in_closed, peeks@, j),
                forall|j: int| 0 <= j < i ==> #[trigger] shown@[j] == shown_data(p.in_closed, peeks@, j),
                forall|j: int| 0 <= j < i ==> !(!p.in_closed[j] && #[trigger] peeks@[j] == Peek::Nothing(u64::MAX)),
            decreases np - i,
        {
            if self.progress.in_closed[i] {
                ft.push(u64::MAX);
                shown.push(usize::MAX);
            } else {
                match peeks[i] {
                    Peek::Closed => {
                        ft.push(u64::MAX);
                        shown.push(usize::MAX);
                    },
                    Peek::Nothing(t) => {
                        if t == u64::MAX {
                            assert(!p.in_closed[i as int] && peeks@[i as int] == Peek::Nothing(u64::MAX));
                            return RouterAction::Fault(RouterFault::TimeOverflow);
                        }
                        ft.push(t + 1);
                        shown.push(usize::MAX);
                    },
                    Peek::Something(t, d) => {
                        ft.push(t);
                        shown.push(d);
                    },
                }
            }
            i += 1;
        }
        let ghost ftv = Seq::new(np as nat, |i: int| future_time(p.in_closed, peeks@, i));
        assert(ft@ =~= ftv);
        let mut lowest: usize = usize::MAX;
        let mut best: u64 = u64::MAX;
        let mut i: usize = 0;
        while i < np
            invariant
                i <= np,
                ft@.len() == np,
                match lowest_upto(ft@, i as nat) {
                    None => lowest == usize::MAX && best == u64::MAX,
                    Some(l) => lowest == l && l < i && best == ft@[l as int],
                },
            decreases np - i,
        {
            if ft[i] < best {
                lowest = i;
                best = ft[i];
            }
            i += 1;
        }
        if lowest == usize::MAX {
            close_inputs(&mut self.progress.in_closed, peeks);
            return RouterAction::Idle;
        }
        let d = shown[lowest];
        if d == usize::MAX {
            close_inputs(&mut self.progress.in_closed, peeks);
            return RouterAction::Advance(ft[lowest]);
        }
        if self.progress.in_received[lowest] == usize::MAX {
            return RouterAction::Reject { in_stream: self.in_ports[lowest].stream, fault: RouterFault::ReceiveCountOverflow };
        }
        let port = match self.route(d) {
            None => {
                return RouterAction::Reject { in_stream: self.in_ports[lowest].stream, fault: RouterFault::NoRoute };
            },
            Some(q) => q,
        };
        let slot = self.out_ports[port];
        if slot.stream == usize::MAX {
            return RouterAction::Reject { in_stream: self.in_ports[lowest].stream, fault: RouterFault::OutputPortUnset };
        }
        if slot.stream >= self.out_len {
            return RouterAction::Reject { in_stream: self.in_ports[lowest].stream, fault: RouterFault::OutputStreamMissing };
        }
        if self.progress.out_sent[port] == usize::MAX {
            return RouterAction::Reject { in_stream: self.in_ports[lowest].stream, fault: RouterFault::SendCountOverflow };
        }
        let local = d / self.y_dim == self.x && d % self.y_dim == self.y;
        let prompt = lowest == np - 1 || (lowest != self.progress.prev_lowest && ft[lowest] == self.progress.prev_time
            && port != self.progress.prev_output);
        let delayed = !local && !prompt;
        close_inputs(&mut self.progress.in_closed, peeks);
        let r = self.progress.in_received[lowest];
        self.progress.in_received.set(lowest, r + 1);
        let s = self.progress.out_sent[port];
        self.progress.out_sent.set(port, s + 1);
        self.progress.prev_lowest = lowest;
        self.progress.prev_time = ft[lowest];
        self.progress.prev_output = port;
        RouterAction::Forward {
            in_port: lowest,
            in_stream: self.in_ports[lowest].stream,
            data: d,
            out_port: port,
            out_stream: slot.stream,
            delayed,
        }
    }
}


/// The input a round serves is the first of those with the earliest time below `u64::MAX`; no input
/// is served when every time is `u64::MAX`.
pub proof fn law_lowest_is_earliest(ft: Seq<u64>, n: nat)
    requires
        n <= ft.len(),
    ensures
        match lowest_upto(ft, n) {
            Some(l) => {
                &&& l < n
                &&& ft[l as int] < u64::MAX
                &&& forall|j: int| 0 <= j < l ==> ft[l as int] < #[trigger] ft[j]
                &&& forall|j: int| l < j < n ==> ft[l as int] <= #[trigger] ft[j]
            },
            None => forall|j: int| 0 <= j < n ==> #[trigger] ft[j] == u64::MAX,
        },
    decreases n,
{
    if n > 0 {
        law_lowest_is_earliest(ft, (n - 1) as nat);
    }
}

proof fn lemma_sum_update_incr(s: Seq<usize>, i: int)
    requires
        0 <= i < s.len(),
        s[i] < usize::MAX,
    ensures
        sum_usize(s.update(i, (s[i] + 1) as usize)) == sum_usize(s) + 1,
    decreases s.len(),
{
    let t = s.update(i, (s[i] + 1) as usize);
    if i < s.len() - 1 {
        lemma_sum_update_incr(s.drop_last(), i);
        assert(t.drop_last() =~= s.drop_last().update(i, (s[i] + 1) as usize));
    } else {
        assert(t.drop_last() =~= s.drop_last());
    }
}

/// Every round that forwards a packet counts it once as received and once as sent; every other
/// round leaves both counts as they were. Inputs once closed stay closed, and a round that faults
/// or rejects its packet changes nothing.
pub proof fn law_step_conserves_packets(r: &DragonflyRouter, peeks: Seq<Peek>)
    requires
        r.wf(),
        peeks.len() == r.num_ports(),
    ensures
        ({
            let (q, a) = r.spec_step(peeks);
            let p = r.progress@;
            &&& a is Forward ==> {
                &&& sum_usize(q.in_received) == sum_usize(p.in_received) + 1
                &&& sum_usize(q.out_sent) == sum_usize(p.out_sent) + 1
            }
            &&& !(a is Forward) ==> q.in_received == p.in_received && q.out_sent == p.out_sent
            &&& (a is Fault || a is Reject) ==> q == p
            &&& forall|i: int| 0 <= i < p.in_closed.len() && #[trigger] p.in_closed[i] ==> q.in_closed[i]
        }),
{
    let (q, a) = r.spec_step(peeks);
    let p = r.progress@;
    if a is Forward {
        let np = r.num_ports();
        let ft = Seq::new(np, |i: int| future_time(p.in_closed, peeks, i));
        let l = lowest_upto(ft, np)->0;
        law_lowest_is_earliest(ft, np);
        let d = shown_data(p.in_closed, peeks, l as int);
        let port = r.spec_route(d)->0;
        lemma_route_in_range(r, d);
        lemma_sum_update_incr(p.in_received, l as int);
        lemma_sum_update_incr(p.out_sent, port as int);
    }
}

proof fn lemma_route_in_range(r: &DragonflyRouter, data: usize)
    requires
        r.wf(),
    ensures
        r.spec_route(data) matches Some(port) ==> port < r.num_ports(),
{
    let dy = data % r.y_dim;
    law_inter_links_sound(r.x_dim, r.y_dim);
    lemma_gateway_bounds(r.links.deep_view(), r.x_dim, r.y_dim, r.y, dy);
    if let Some((gx, m)) = spec_gateway(r.links.deep_view(), r.x_dim, r.y_dim, r.y, dy) {
        lemma_share_at_most(r.x_dim, r.y_dim, gx as int);
    }
}

/// A packet that has reached its router leaves by the local port, without delay.
pub proof fn law_local_delivery_prompt(r: &DragonflyRouter, peeks: Seq<Peek>)
    requires
        r.wf(),
        peeks.len() == r.num_ports(),
    ensures
        r.spec_step(peeks).1 matches RouterAction::Forward { data, out_port, delayed, .. } ==> (r.is_local(data) ==> {
            &&& out_port == r.num_ports() - 1
            &&& !delayed
        }),
{
}

/// A router's port `i` is named in a dictionary exactly when some entry carries the port's name
/// for its side, and then takes the stream and packet count of the first such entry.
pub proof fn law_slot_from_dictionary(dict: Seq<(Seq<char>, (usize, usize))>, i: nat, radix_intra: nat, radix_inter: nat, output: bool)
    ensures
        ({
            let name = port_name(i, radix_intra, radix_inter, output);
            let s = spec_slot(dict, i, radix_intra, radix_inter, output);
            &&& s.present == exists|k: int| 0 <= k < dict.len() && (#[trigger] dict[k]).0 == name
            &&& s.present ==> exists|k: int| #![trigger dict[k]] 0 <= k < dict.len() && dict[k] == (name, (s.stream, s.limit))
                && forall|j: int| 0 <= j < k ==> (#[trigger] dict[j]).0 != name
        }),
{
    let name = port_name(i, radix_intra, radix_inter, output);
    law_dict_lookup_first(dict, name);
    if let Some(v) = dict_lookup(dict, name) {
        let k = choose|k: int| #![trigger dict[k]] 0 <= k < dict.len() && dict[k] == (name, v)
            && forall|j: int| 0 <= j < k ==> (#[trigger] dict[j]).0 != name;
        assert(dict[k].0 == name);
    }
}

/// Whether input `j` shows nothing due before time `t` (nothing due at `t` either when it comes
/// before input `l`): a packet stamped no earlier, an empty channel whose next possible packet
/// comes no earlier, or a closed channel.
pub open spec fn not_before(closed: Seq<bool>, peeks: Seq<Peek>, j: int, t: u64, l: int) -> bool {
    let strict = j < l;
    closed[j] || match peeks[j] {
        Peek::Something(tj, _) => if strict { tj > t } else { tj >= t },
        Peek::Nothing(tj) => if strict { tj + 1 > t } else { tj + 1 >= t },
        Peek::Closed => true,
    }
}

/// A round serves the earliest input, the first one among equals: it forwards the packet an open
/// input shows only when no open input before it has anything due as early and none after it has
/// anything due earlier; it advances the clock to one past an empty channel's clock under the same
/// condition; and it idles only when no open input has anything due before the end of time
/// (`u64::MAX`).
pub proof fn law_step_serves_earliest(r: &DragonflyRouter, peeks: Seq<Peek>)
    requires
        r.wf(),
        peeks.len() == r.num_ports(),
    ensures
        ({
            let (q, a) = r.spec_step(peeks);
            let c = r.progress@.in_closed;
            let np = r.num_ports() as int;
            &&& a matches RouterAction::Forward { in_port, data, .. } ==> exists|t: u64| {
                &&& !c[in_port as int]
                &&& #[trigger] peeks[in_port as int] == Peek::Something(t, data)
                &&& forall|j: int| 0 <= j < np && j != in_port ==> #[trigger] not_before(c, peeks, j, t, in_port as int)
            }
            &&& a matches RouterAction::Advance(t) ==> exists|l: int| {
                &&& 0 <= l < np
                &&& !c[l]
                &&& (t > 0 && #[trigger] peeks[l] == Peek::Nothing((t - 1) as u64)) || peeks[l] == Peek::Something(t, usize::MAX)
                &&& forall|j: int| 0 <= j < np && j != l ==> #[trigger] not_before(c, peeks, j, t, l)
            }
            &&& a is Idle ==> forall|j: int| 0 <= j < np ==> #[trigger] not_before(c, peeks, j, u64::MAX, 0)
        }),
{
    let (q, a) = r.spec_step(peeks);
    let p = r.progress@;
    let np = r.num_ports();
    let ft = Seq::new(np, |i: int| future_time(p.in_closed, peeks, i));
    law_lowest_is_earliest(ft, np);
    if !time_overflows(p.in_closed, peeks) {
        match lowest_upto(ft, np) {
            Some(l) => {
                let t = ft[l as int];
                assert forall|j: int| 0 <= j < np && j != l implies #[trigger] not_before(p.in_closed, peeks, j, t, l as int) by {
                    assert(ft[j] == future_time(p.in_closed, peeks, j));
                    if !p.in_closed[j] {
                        if let Peek::Nothing(tj) = peeks[j] {
                            assert(peeks[j] != Peek::Nothing(u64::MAX));
                        }
                    }
                }
                if a is Forward {
                    assert(ft[l as int] == future_time(p.in_closed, peeks, l as int));
                    assert(peeks[(l as usize) as int] == Peek::Something(t, shown_data(p.in_closed, peeks, l as int)));
                    let li = l as int;
                    assert(!p.in_closed[li] && peeks[li] == Peek::Something(t, a->data)
                        && forall|j: int| 0 <= j < np && j != li ==> #[trigger] not_before(p.in_closed, peeks, j, t, li));
                }
                if a is Advance {
                    assert(ft[l as int] == future_time(p.in_closed, peeks, l as int));
                    if let Peek::Nothing(tl) = peeks[l as int] {
                        assert(peeks[l as int] != Peek::Nothing(u64::MAX));
                        assert(peeks[l as int] == Peek::Nothing((t - 1) as u64));
                    }
                    let li = l as int;
                    assert(0 <= li < np && !p.in_closed[li]
                        && ((t > 0 && peeks[li] == Peek::Nothing((t - 1) as u64)) || peeks[li] == Peek::Something(t, usize::MAX))
                        && forall|j: int| 0 <= j < np && j != li ==> #[trigger] not_before(p.in_closed, peeks, j, t, li));
                }
            },
            None => {
                assert forall|j: int| 0 <= j < np implies #[trigger] not_before(p.in_closed, peeks, j, u64::MAX, 0) by {
                    assert(ft[j] == future_time(p.in_closed, peeks, j));
                    if !p.in_closed[j] {
                        if let Peek::Nothing(tj) = peeks[j] {
                            assert(peeks[j] != Peek::Nothing(u64::MAX));
                        }
                    }
                }
            },
        }
    }
}

/// Two packets never leave one output port stamped with the same cycle: a forwarded packet that is
/// neither arriving at this router nor taken from the local input goes out undelayed only when it
/// follows, at the same time, a forward from another input through another output port. In
/// particular, a packet that leaves by the output port of the previous forward waits one cycle.
pub proof fn law_same_port_waits(r: &DragonflyRouter, peeks: Seq<Peek>)
    requires
        r.wf(),
        peeks.len() == r.num_ports(),
    ensures
        ({
            let (q, a) = r.spec_step(peeks);
            let p = r.progress@;
            a matches RouterAction::Forward { in_port, data, out_port, delayed, .. } ==> {
                &&& q.prev_output == out_port
                &&& q.prev_lowest == in_port
                &&& (!r.is_local(data) && in_port != r.num_ports() - 1 && !delayed) ==> {
                    &&& in_port != p.prev_lowest
                    &&& q.prev_time == p.prev_time
                    &&& out_port != p.prev_output
                }
                &&& (!r.is_local(data) && in_port != r.num_ports() - 1 && out_port == p.prev_output) ==> delayed
                &&& (in_port == r.num_ports() - 1 || r.is_local(data)) ==> !delayed
            }
        }),
{
    let (q, a) = r.spec_step(peeks);
    if a is Forward {
        let np = r.num_ports();
        let ft = Seq::new(np, |i: int| future_time(r.progress@.in_closed, peeks, i));
        law_lowest_is_earliest(ft, np);
    }
}

/// Every port a packet is sent to takes it on towards its destination `(dx, dy)` (where
/// `dx = data / y_dim`, `dy = data % y_dim`, and the router sits at `x < x_dim`, `y < y_dim`):
/// the local port only when the packet has arrived; an intra port `k` leads to router
/// `(x + k + 1) % x_dim` of the same group, which is the destination router when the packet is in its
/// destination group and otherwise holds a global link into group `dy`; an inter port carries this
/// router's link into group `dy`.
pub proof fn law_route_leads_on(r: &DragonflyRouter, data: usize)
    requires
        r.wf(),
        r.x < r.x_dim,
        r.y < r.y_dim,
    ensures
        r.spec_route(data) matches Some(port) ==> {
            let dx = data / r.y_dim;
            let dy = data % r.y_dim;
            let t = r.links.deep_view();
            &&& (port == r.num_ports() - 1) == r.is_local(data)
            &&& port < r.x_dim - 1 ==> {
                let next = ((r.x + port + 1) as int) % (r.x_dim as int);
                &&& next != r.x
                &&& dy == r.y ==> next == dx
                &&& dy != r.y ==> exists|m: int| 0 <= m < t[next][r.y as int].len() && (#[trigger] t[next][r.y as int][m]).1 == dy
            }
            &&& r.x_dim - 1 <= port < r.num_ports() - 1 ==> {
                &&& port - (r.x_dim - 1) < t[r.x as int][r.y as int].len()
                &&& t[r.x as int][r.y as int][port - (r.x_dim - 1)].1 == dy
            }
        },
{
    let dx = data / r.y_dim;
    let dy = data % r.y_dim;
    let t = r.links.deep_view();
    lemma_route_in_range(r, data);
    law_inter_links_sound(r.x_dim, r.y_dim);
    lemma_gateway_bounds(t, r.x_dim, r.y_dim, r.y, dy);
    if let Some(port) = r.spec_route(data) {
        if dx == r.x && dy == r.y {
        } else if dx != r.x && dy == r.y {
            lemma_hop_not_last(r.x, dx, r.x_dim);
        } else {
            let (gx, m) = spec_gateway(t, r.x_dim, r.y_dim, r.y, dy)->0;
            lemma_share_at_most(r.x_dim, r.y_dim, gx as int);
            if r.x != gx {
                lemma_hop_not_last(r.x, gx as usize, r.x_dim);
                assert(t[gx as int][r.y as int][m as int].1 == dy);
            }
        }
    }
}

/// From router `x` of its group, the intra port towards another router `target` of the group is
/// one of the first `x_dim - 1` ports, and reaches `target`.
proof fn lemma_hop_not_last(x: usize, target: usize, x_dim: usize)
    requires
        x < x_dim,
        target != x,
    ensures
        spec_hop(x, target, x_dim) matches Some(k) ==> {
            &&& k < x_dim - 1
            &&& ((x + k + 1) as int) % (x_dim as int) == target
        },
{
    if target < x_dim {
        let k = spec_intra_hop(x, target, x_dim);
        vstd::arithmetic::div_mod::lemma_mod_bound((target as int) - (x as int) - 1, x_dim as int);
        if k == x_dim - 1 {
            let q = ((target as int) - (x as int) - 1) / (x_dim as int);
            vstd::arithmetic::div_mod::lemma_fundamental_div_mod((target as int) - (x as int) - 1, x_dim as int);
            assert(false) by (nonlinear_arith)
                requires
                    (target as int) - (x as int) - 1 == (x_dim as int) * q + (x_dim - 1),
                    0 <= target < x_dim,
                    0 <= x < x_dim,
                    target != x;
        }
        if x + k + 1 <= usize::MAX {
            let xd = x_dim as int;
            let q = ((target as int) - (x as int) - 1) / xd;
            vstd::arithmetic::div_mod::lemma_fundamental_div_mod((target as int) - (x as int) - 1, xd);
            assert(x + k + 1 == (-q) * xd + target) by (nonlinear_arith)
                requires
                    (target as int) - (x as int) - 1 == xd * q + k;
            vstd::arithmetic::div_mod::lemma_fundamental_div_mod_converse(x + k + 1, xd, -q, target as int);
        }
    }
}

} // verus!
