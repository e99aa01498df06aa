//! The first and the last level of the memory hierarchy.
//!
//! Both are one machine. It starts from its initial tensors, sends its outgoing tensors to the
//! middle level by the plan of [`spec_send_plan`], then counts in the elements that come back
//! until it has received as many as it expects. Which end of the hierarchy it stands at changes
//! nothing but the label it prints.
//!
//! The middle level, once it has sent its tensors, takes back the elements the first level sends
//! it, as many as it expects from there, then those of the last level ([`MiddleIntake`]).
use vstd::prelude::*;
use crate::inventory::Inventory;
use crate::inventory::InventoryModel;
use crate::inventory::names_distinct;
use crate::inventory::spec_count;
use crate::inventory::spec_from_list;
use crate::inventory::spec_receive;
use crate::inventory::spec_receive_all;
use crate::transfer::send_plan;
use crate::transfer::spec_send_plan;
use crate::transfer::transfer_sizes;

verus! {

/// An outer level as a mathematical value.
#[verifier::ext_equal]
pub struct OuterLevelModel {
    pub tensors: InventoryModel,
    pub plan: Seq<(usize, bool)>,
    pub expected: nat,
    pub received: nat,
}

/// The level as it starts: its initial tensors recorded, its sending planned, nothing received.
pub open spec fn spec_level_start(
    init: Seq<(Seq<char>, usize)>,
    sizes: Seq<usize>,
    bw: usize,
    expected: nat,
) -> OuterLevelModel {
    OuterLevelModel { tensors: spec_from_list(init), plan: spec_send_plan(sizes, bw), expected, received: 0 }
}

/// The level once one more element of tensor `name` has come back.
pub open spec fn spec_level_receive(m: OuterLevelModel, name: Seq<char>) -> OuterLevelModel {
    OuterLevelModel { tensors: spec_receive(m.tensors, name), received: m.received + 1, ..m }
}

/// The level once elements of the named tensors have come back one after the other.
pub open spec fn spec_level_run(m: OuterLevelModel, names: Seq<Seq<char>>) -> OuterLevelModel
    decreases names.len(),
{
    if names.len() == 0 {
        m
    } else {
        spec_level_receive(spec_level_run(m, names.drop_last()), names.last())
    }
}

/// The level has received every element it expects.
pub open spec fn level_done(m: OuterLevelModel) -> bool {
    m.received == m.expected
}

/// A first or last level of the hierarchy.
pub struct OuterLevel {
    pub tensors: Inventory,
    pub plan: Vec<(usize, bool)>,
    pub expected: usize,
    pub received: usize,
}

impl View for OuterLevel {
    type V = OuterLevelModel;

    open spec fn view(&self) -> OuterLevelModel {
        OuterLevelModel {
            tensors: self.tensors@,
            plan: self.plan@,
            expected: self.expected as nat,
            received: self.received as nat,
        }
    }
}

impl OuterLevel {
    /// The inventory keeps each name once, and the level has not received more than it expects.
    pub open spec fn wf(&self) -> bool {
        &&& names_distinct(self.tensors@)
        &&& self.received <= self.expected
    }

    /// A level that starts from `initial`, sends `transfers` at bandwidth `bw` and expects
    /// `expected` elements back (see [`spec_level_start`]); a level of bandwidth zero can send
    /// only empty tensors.
    pub fn start(initial: &Vec<(String, usize)>, transfers: &Vec<(String, usize)>, bw: usize, expected: usize) -> (l: OuterLevel)
        requires
            bw > 0 || forall|i: int| 0 <= i < transfers@.len() ==> transfers@[i].1 == 0,
        ensures
            l.wf(),
            l@ == spec_level_start(
                initial@.map_values(|e: (String, usize)| (e.0@, e.1)),
                transfer_sizes(transfers@),
                bw,
                expected as nat,
            ),
    {
        let tensors = Inventory::from_list(initial);
        let plan = send_plan(transfers, bw);
        OuterLevel { tensors, plan, expected, received: 0 }
    }

    /// Whether the level has received every element it expects.
    pub fn done(&self) -> (b: bool)
        ensures
            b == level_done(self@),
    {
        self.received == self.expected
    }

    /// Counts in one more element of tensor `name` (see [`spec_level_receive`]); the level must
    /// still expect one, and the tensor's count must have room for it.
    pub fn receive(&mut self, name: &String)
        requires
            old(self).wf(),
            !level_done(old(self)@),
            spec_count(old(self).tensors@, name@) != Some(usize::MAX),
        ensures
            final(self).wf(),
            final(self)@ == spec_level_receive(old(self)@, name@),
    {
        self.tensors.receive(name);
        self.received = self.received + 1;
    }
}

/// The first and the last level behave alike: whatever end of the hierarchy it stands at, a level
/// started from initial tensors `init`, with outgoing tensors of sizes `sizes`, bandwidth `bw` and
/// `expected` elements to come back, that then receives elements of the tensors `names` in order,
/// sends by [`spec_send_plan`] of `sizes` and `bw` and ends with its initial inventory with each
/// received element counted in; it is done exactly when it has received `expected` elements.
pub proof fn law_outer_level_outcome(
    init: Seq<(Seq<char>, usize)>,
    sizes: Seq<usize>,
    bw: usize,
    expected: nat,
    names: Seq<Seq<char>>,
)
    ensures
        spec_level_run(spec_level_start(init, sizes, bw, expected), names) == (OuterLevelModel {
            tensors: spec_receive_all(spec_from_list(init), names),
            plan: spec_send_plan(sizes, bw),
            expected,
            received: names.len(),
        }),
        level_done(spec_level_run(spec_level_start(init, sizes, bw, expected), names)) == (names.len() == expected),
    decreases names.len(),
{
    if names.len() > 0 {
        law_outer_level_outcome(init, sizes, bw, expected, names.drop_last());
    }
}

/// Two outer levels, one at each end of the hierarchy, started from equal initial tensors, equal
/// outgoing tensor sizes, equal bandwidth and an equal expected count, and receiving elements of
/// the same tensors in the same order, end in equal states: they have sent by the same plan, hold
/// the same inventory, and are done together.
pub proof fn law_first_and_last_levels_alike(
    first_init: Seq<(Seq<char>, usize)>,
    first_sizes: Seq<usize>,
    first_bw: usize,
    first_expected: nat,
    first_names: Seq<Seq<char>>,
    last_init: Seq<(Seq<char>, usize)>,
    last_sizes: Seq<usize>,
    last_bw: usize,
    last_expected: nat,
    last_names: Seq<Seq<char>>,
)
    requires
        first_init == last_init,
        first_sizes == last_sizes,
        first_bw == last_bw,
        first_expected == last_expected,
        first_names == last_names,
    ensures
        spec_level_run(spec_level_start(first_init, first_sizes, first_bw, first_expected), first_names)
            == spec_level_run(spec_level_start(last_init, last_sizes, last_bw, last_expected), last_names),
        level_done(spec_level_run(spec_level_start(first_init, first_sizes, first_bw, first_expected), first_names))
            == level_done(spec_level_run(spec_level_start(last_init, last_sizes, last_bw, last_expected), last_names)),
{
    law_outer_level_outcome(first_init, first_sizes, first_bw, first_expected, first_names);
    law_outer_level_outcome(last_init, last_sizes, last_bw, last_expected, last_names);
}

/// The level the middle level is taking elements from.
#[derive(Clone, Copy, Debug, PartialEq, Eq, Structural)]
pub enum Source {
    /// The first level of the hierarchy.
    First,
    /// The last level of the hierarchy.
    Last,
}

/// The middle level's intake as a mathematical value.
#[verifier::ext_equal]
pub struct MiddleIntakeModel {
    pub tensors: InventoryModel,
    pub expected_first: nat,
    pub expected_last: nat,
    pub received_first: nat,
    pub received_last: nat,
}

/// Where the next element comes from: the first level until as many of its elements have arrived
/// as are expected, then the last level likewise; `None` once both counts are met.
pub open spec fn spec_next_source(m: MiddleIntakeModel) -> Option<Source> {
    if m.received_first < m.expected_first {
        Some(Source::First)
    } else if m.received_last < m.expected_last {
        Some(Source::Last)
    } else {
        None
    }
}

/// The intake once one more element, of tensor `name`, has arrived from the level it is taking
/// from.
pub open spec fn spec_intake_receive(m: MiddleIntakeModel, name: Seq<char>) -> MiddleIntakeModel {
    let t = spec_receive(m.tensors, name);
    if m.received_first < m.expected_first {
        MiddleIntakeModel { tensors: t, received_first: m.received_first + 1, ..m }
    } else {
        MiddleIntakeModel { tensors: t, received_last: m.received_last + 1, ..m }
    }
}

/// The intake once elements of the named tensors have arrived one after the other.
pub open spec fn spec_intake_run(m: MiddleIntakeModel, names: Seq<Seq<char>>) -> MiddleIntakeModel
    decreases names.len(),
{
    if names.len() == 0 {
        m
    } else {
        spec_intake_receive(spec_intake_run(m, names.drop_last()), names.last())
    }
}

/// How the middle level takes back elements from the first and the last level.
pub struct MiddleIntake {
    pub tensors: Inventory,
    pub expected_first: usize,
    pub expected_last: usize,
    pub received_first: usize,
    pub received_last: usize,
}

impl View for MiddleIntake {
    type V = MiddleIntakeModel;

    open spec fn view(&self) -> MiddleIntakeModel {
        MiddleIntakeModel {
            tensors: self.tensors@,
            expected_first: self.expected_first as nat,
            expected_last: self.expected_last as nat,
            received_first: self.received_first as nat,
            received_last: self.received_last as nat,
        }
    }
}

impl MiddleIntake {
    /// The inventory keeps each name once; neither count is passed, and nothing has come from the
    /// last level before the first level's count was met.
    pub open spec fn wf(&self) -> bool {
        &&& names_distinct(self.tensors@)
        &&& self.received_first <= self.expected_first
        &&& self.received_last <= self.expected_last
        &&& self.received_last > 0 ==> self.received_first == self.expected_first
    }

    /// An intake into `tensors` that expects `expected_first` elements from the first level, then
    /// `expected_last` from the last.
    pub fn new(tensors: Inventory, expected_first: usize, expected_last: usize) -> (m: MiddleIntake)
        requires
            names_distinct(tensors@),
        ensures
            m.wf(),
            m@ == (MiddleIntakeModel {
                tensors: tensors@,
                expected_first: expected_first as nat,
                expected_last: expected_last as nat,
                received_first: 0,
                received_last: 0,
            }),
    {
        MiddleIntake { tensors, expected_first, expected_last, received_first: 0, received_last: 0 }
    }

    /// The level to take the next element from (see [`spec_next_source`]).
    pub fn next_source(&self) -> (r: Option<Source>)
        ensures
            r == spec_next_source(self@),
    {
        if self.received_first < self.expected_first {
            Some(Source::First)
        } else if self.received_last < self.expected_last {
            Some(Source::Last)
        } else {
            None
        }
    }

    /// Counts in one more element of tensor `name` from the level the intake is taking from (see
    /// [`spec_intake_receive`]); some element must still be expected, and the tensor's count must
    /// have room for it.
    pub fn receive(&mut self, name: &String)
        requires
            old(self).wf(),
            spec_next_source(old(self)@) is Some,
            spec_count(old(self).tensors@, name@) != Some(usize::MAX),
        ensures
            final(self).wf(),
            final(self)@ == spec_intake_receive(old(self)@, name@),
    {
        self.tensors.receive(name);
        if self.received_first < self.expected_first {
            self.received_first = self.received_first + 1;
        } else {
            self.received_last = self.received_last + 1;
        }
    }
}

/// Elements arrive first from the first level, then from the last: after `names` have arrived,
/// from an intake that had received nothing and expects `ef` then `el` elements (no more than
/// that many in all), the first `min(len, ef)` came from the first level and the rest from the
/// last; the inventory counts each of them in; and the intake takes nothing more exactly when all
/// `ef + el` have arrived.
pub proof fn law_intake_first_then_last(tensors: InventoryModel, ef: nat, el: nat, names: Seq<Seq<char>>)
    requires
        names.len() <= ef + el,
    ensures
        ({
            let start = MiddleIntakeModel { tensors, expected_first: ef, expected_last: el, received_first: 0, received_last: 0 };
            let m = spec_intake_run(start, names);
            let from_first = if names.len() <= ef { names.len() } else { ef };
            &&& m.received_first == from_first
            &&& m.received_last == names.len() - from_first
            &&& m.tensors == spec_receive_all(tensors, names)
            &&& m.expected_first == ef && m.expected_last == el
            &&& (spec_next_source(m) is None) == (names.len() == ef + el)
        }),
    decreases names.len(),
{
    if names.len() > 0 {
        law_intake_first_then_last(tensors, ef, el, names.drop_last());
    }
}

} // verus!
