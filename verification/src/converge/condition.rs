//! Status conditions: what a controller has found out about a resource.
use vstd::prelude::*;
use crate::converge::health::{ReadyState, ReadyV};
use crate::converge::outcome::OutcomeLattice;
use crate::ordmap::{
    erase, lemma_erase_lookup, lemma_map_vals_erase, lemma_map_vals_lookup, lemma_map_vals_put,
    lemma_put_lookup, lookup, map_vals, put, sorted, StrMap,
};
use crate::text;
use crate::time::Timestamp;

verus! {

pub const READY: &'static str = "Ready";

pub const RECONCILING: &'static str = "Reconciling";

pub const HEALTHY: &'static str = "Healthy";

pub const STALLED: &'static str = "Stalled";

pub const PROGRESSING: &'static str = "Progressing";

pub const AVAILABLE: &'static str = "Available";

/// Whether a condition holds.
#[derive(Clone, Copy, Debug, PartialEq, Eq, Structural)]
pub enum ConditionStatus {
    True,
    False,
    Unknown,
}

/// The name of a status.
pub open spec fn status_name(s: ConditionStatus) -> Seq<char> {
    match s {
        ConditionStatus::True => "True"@,
        ConditionStatus::False => "False"@,
        ConditionStatus::Unknown => "Unknown"@,
    }
}

impl ConditionStatus {
    /// The name of the status.
    pub fn name(self) -> (r: &'static str)
        ensures
            r@ == status_name(self),
    {
        match self {
            ConditionStatus::True => "True",
            ConditionStatus::False => "False",
            ConditionStatus::Unknown => "Unknown",
        }
    }

    pub fn is_true(self) -> (r: bool)
        ensures
            r == (self == ConditionStatus::True),
    {
        self == ConditionStatus::True
    }

    pub fn is_false(self) -> (r: bool)
        ensures
            r == (self == ConditionStatus::False),
    {
        self == ConditionStatus::False
    }

    pub fn is_unknown(self) -> (r: bool)
        ensures
            r == (self == ConditionStatus::Unknown),
    {
        self == ConditionStatus::Unknown
    }
}

impl OutcomeLattice for ConditionStatus {
    type M = ConditionStatus;

    open spec fn model(&self) -> ConditionStatus {
        *self
    }

    open spec fn level(m: ConditionStatus) -> u32 {
        match m {
            ConditionStatus::True => 0,
            ConditionStatus::Unknown => 1,
            ConditionStatus::False => 2,
        }
    }

    open spec fn base() -> ConditionStatus {
        ConditionStatus::True
    }

    proof fn base_is_best() {
    }

    fn severity(&self) -> (r: u32) {
        match self {
            ConditionStatus::True => 0,
            ConditionStatus::Unknown => 1,
            ConditionStatus::False => 2,
        }
    }

    fn baseline() -> (r: Self) {
        ConditionStatus::True
    }

    fn again(&self) -> (r: Self) {
        *self
    }
}

/// A condition of a resource.
#[derive(Debug, PartialEq, Eq)]
pub struct Condition {
    /// What the condition is about, such as `Ready`.
    pub type_: String,
    pub status: ConditionStatus,
    /// Why, for machines.
    pub reason: String,
    /// Why, for people.
    pub message: String,
    /// When the status last changed.
    pub last_transition_time: Timestamp,
    /// The generation of the resource that was looked at.
    pub observed_generation: Option<i64>,
}

/// What a [`Condition`] holds.
#[verifier::ext_equal]
pub struct ConditionV {
    pub type_: Seq<char>,
    pub status: ConditionStatus,
    pub reason: Seq<char>,
    pub message: Seq<char>,
    pub last_transition_time: Timestamp,
    pub observed_generation: Option<i64>,
}

impl View for Condition {
    type V = ConditionV;

    open spec fn view(&self) -> ConditionV {
        ConditionV {
            type_: self.type_@,
            status: self.status,
            reason: self.reason@,
            message: self.message@,
            last_transition_time: self.last_transition_time,
            observed_generation: self.observed_generation,
        }
    }
}

impl Clone for Condition {
    fn clone(&self) -> (r: Self)
        ensures
            r@ == self@,
    {
        Condition {
            type_: self.type_.clone(),
            status: self.status,
            reason: self.reason.clone(),
            message: self.message.clone(),
            last_transition_time: self.last_transition_time,
            observed_generation: self.observed_generation,
        }
    }
}

impl Condition {
    /// A condition that no generation was looked at for.
    pub fn new(
        type_: &str,
        status: ConditionStatus,
        reason: &str,
        message: &str,
        last_transition_time: Timestamp,
    ) -> (r: Self)
        ensures
            r@ == (ConditionV {
                type_: type_@,
                status,
                reason: reason@,
                message: message@,
                last_transition_time,
                observed_generation: None,
            }),
    {
        Condition {
            type_: type_.to_owned(),
            status,
            reason: reason.to_owned(),
            message: message.to_owned(),
            last_transition_time,
            observed_generation: None,
        }
    }

    /// With the generation that was looked at.
    pub fn with_observed_generation(self, generation: i64) -> (r: Self)
        ensures
            r@ == (ConditionV { observed_generation: Some(generation), ..self@ }),
    {
        let mut r = self;
        r.observed_generation = Some(generation);
        r
    }
}

/// Conditions by type.
pub type Conditions = Seq<(Seq<char>, ConditionV)>;

/// Conditions by type, each type once.
#[derive(Clone, Debug, PartialEq, Eq)]
pub struct ConditionSet {
    map: StrMap<Condition>,
}

impl Default for ConditionSet {
    fn default() -> (r: Self)
        ensures
            r.wf(),
            r.conditions() == Seq::<(Seq<char>, ConditionV)>::empty(),
    {
        ConditionSet::new()
    }
}

/// The conditions after one was brought up to date: the time of the last
/// change stays where the status does, and so does the generation.
pub open spec fn touched(
    s: Conditions,
    type_: Seq<char>,
    status: ConditionStatus,
    reason: Seq<char>,
    message: Seq<char>,
    now: Timestamp,
) -> Conditions {
    let c = ConditionV {
        type_,
        status,
        reason,
        message,
        last_transition_time: now,
        observed_generation: None,
    };
    match lookup(s, type_) {
        None => put(s, type_, c),
        Some(was) => put(
            s,
            type_,
            ConditionV {
                last_transition_time: if was.status == status {
                    was.last_transition_time
                } else {
                    now
                },
                observed_generation: was.observed_generation,
                ..c
            },
        ),
    }
}

/// The reason and the message of a condition as one text.
pub open spec fn explained(c: ConditionV) -> Seq<char> {
    if c.message.len() == 0 {
        c.reason
    } else if c.reason.len() == 0 {
        c.message
    } else {
        c.reason + ": "@ + c.message
    }
}

/// How far the resource has come according to its conditions.
pub open spec fn readiness(s: Conditions) -> ReadyV {
    let reconciling = lookup(s, "Reconciling"@);
    let ready = lookup(s, "Ready"@);
    if reconciling is Some && reconciling->Some_0.status == ConditionStatus::True {
        ReadyV::InProgress { reason: explained(reconciling->Some_0) }
    } else {
        match ready {
            Some(c) => match c.status {
                ConditionStatus::True => ReadyV::Ready,
                ConditionStatus::False => ReadyV::Failed { reason: explained(c) },
                ConditionStatus::Unknown => ReadyV::Unknown,
            },
            None => ReadyV::Unknown,
        }
    }
}

/// The reason and the message of a condition as one text; see [`explained`].
pub fn condition_reason_message(c: &Condition) -> (r: String)
    ensures
        r@ == explained(c@),
{
    if text::chars_of(c.message.as_str()).len() == 0 {
        c.reason.clone()
    } else if text::chars_of(c.reason.as_str()).len() == 0 {
        c.message.clone()
    } else {
        text::join3(c.reason.as_str(), ": ", c.message.as_str())
    }
}

impl ConditionSet {
    /// The conditions, by type.
    pub closed spec fn conditions(&self) -> Conditions {
        map_vals(self.map@, |c: Condition| c@)
    }

    /// Types are in order, and every condition stands under its own.
    pub open spec fn wf(&self) -> bool {
        sorted(self.conditions()) && forall|i: int|
            0 <= i < self.conditions().len() ==> (#[trigger] self.conditions()[i]).1.type_
                == self.conditions()[i].0
    }

    /// No conditions.
    pub fn new() -> (r: Self)
        ensures
            r.wf(),
            r.conditions() == Seq::<(Seq<char>, ConditionV)>::empty(),
    {
        let r = ConditionSet { map: StrMap::new() };
        proof {
            assert(r.conditions() =~= Seq::<(Seq<char>, ConditionV)>::empty());
        }
        r
    }

    /// Set a condition; one of the same type is replaced.
    pub fn set(&mut self, c: Condition)
        ensures
            final(self).conditions() == put(old(self).conditions(), c@.type_, c@),
            old(self).wf() ==> final(self).wf(),
    {
        proof {
            lemma_map_vals_put(self.map@, |x: Condition| x@, c.type_@, c);
            if self.wf() {
                lemma_put_wf(self.conditions(), c@);
            }
        }
        let key = c.type_.clone();
        self.map.insert(key, c);
    }

    /// Bring a condition up to date; see [`touched`].
    pub fn touch(
        &mut self,
        type_: &str,
        status: ConditionStatus,
        reason: &str,
        message: &str,
        now: Timestamp,
    )
        ensures
            final(self).conditions() == touched(
                old(self).conditions(),
                type_@,
                status,
                reason@,
                message@,
                now,
            ),
            old(self).wf() ==> final(self).wf(),
    {
        let mut c = Condition::new(type_, status, reason, message, now);
        match self.get(type_) {
            Some(was) => {
                if was.status == status {
                    c.last_transition_time = was.last_transition_time;
                }
                c.observed_generation = was.observed_generation;
            },
            None => {},
        }
        self.set(c);
    }

    /// Bring a condition up to date, and note the generation that was looked
    /// at.
    pub fn touch_observed(
        &mut self,
        type_: &str,
        status: ConditionStatus,
        reason: &str,
        message: &str,
        now: Timestamp,
        observed_generation: i64,
    )
        requires
            old(self).wf(),
        ensures
            final(self).wf(),
            ({
                let t = touched(old(self).conditions(), type_@, status, reason@, message@, now);
                final(self).conditions() == put(
                    t,
                    type_@,
                    ConditionV {
                        observed_generation: Some(observed_generation),
                        ..lookup(t, type_@)->Some_0
                    },
                )
            }),
    {
        self.touch(type_, status, reason, message, now);
        proof {
            lemma_touched_is_there(old(self).conditions(), type_@, status, reason@, message@, now);
            crate::ordmap::lemma_lookup_index(self.conditions(), type_@);
        }
        match self.get(type_) {
            Some(c) => {
                let d = c.clone().with_observed_generation(observed_generation);
                proof {
                    let i = crate::ordmap::lemma_lookup_index(self.conditions(), type_@);
                    assert(self.conditions()[i].1.type_ == type_@);
                }
                self.set(d);
            },
            None => {},
        }
    }

    /// The condition of a type.
    pub fn get(&self, type_: &str) -> (r: Option<&Condition>)
        ensures
            match r {
                Some(c) => lookup(self.conditions(), type_@) == Some(c@),
                None => lookup(self.conditions(), type_@) is None,
            },
    {
        proof {
            lemma_map_vals_lookup(self.map@, |x: Condition| x@, type_@);
        }
        self.map.get(type_)
    }

    /// Remove the condition of a type and return it.
    pub fn remove(&mut self, type_: &str) -> (r: Option<Condition>)
        ensures
            match r {
                Some(c) => lookup(old(self).conditions(), type_@) == Some(c@),
                None => lookup(old(self).conditions(), type_@) is None,
            },
            final(self).conditions() == erase(old(self).conditions(), type_@),
            old(self).wf() ==> final(self).wf(),
    {
        proof {
            lemma_map_vals_lookup(self.map@, |x: Condition| x@, type_@);
            lemma_map_vals_erase(self.map@, |x: Condition| x@, type_@);
            if self.wf() {
                lemma_erase_wf(self.conditions(), type_@);
            }
        }
        self.map.remove(type_)
    }

    /// Whether the condition of a type is there and holds.
    pub fn is_true(&self, type_: &str) -> (r: bool)
        ensures
            r == (lookup(self.conditions(), type_@) matches Some(c) && c.status == ConditionStatus::True),
    {
        match self.get(type_) {
            Some(c) => c.status.is_true(),
            None => false,
        }
    }

    /// Whether the condition of a type is there and does not hold.
    pub fn is_false(&self, type_: &str) -> (r: bool)
        ensures
            r == (lookup(self.conditions(), type_@) matches Some(c) && c.status == ConditionStatus::False),
    {
        match self.get(type_) {
            Some(c) => c.status.is_false(),
            None => false,
        }
    }

    pub fn len(&self) -> (r: usize)
        ensures
            r == self.conditions().len(),
    {
        self.map.len()
    }

    pub fn is_empty(&self) -> (r: bool)
        ensures
            r == (self.conditions().len() == 0),
    {
        self.map.is_empty()
    }

    /// The conditions, in the order of their types.
    pub fn iter(&self) -> (r: Vec<Condition>)
        ensures
            r@.len() == self.conditions().len(),
            forall|i: int| 0 <= i < r@.len() ==> (#[trigger] r@[i])@ == self.conditions()[i].1,
    {
        let mut out: Vec<Condition> = Vec::new();
        let mut i: usize = 0;
        while i < self.map.entries.len()
            invariant
                i <= self.map.entries@.len(),
                out@.len() == i,
                forall|j: int| 0 <= j < i ==> (#[trigger] out@[j])@ == self.map.entries@[j].1@,
            decreases self.map.entries.len() - i,
        {
            out.push(self.map.entries[i].1.clone());
            i += 1;
        }
        out
    }

    /// How far the resource has come; see [`readiness`].
    pub fn overall_ready(&self) -> (r: ReadyState)
        ensures
            r@ == readiness(self.conditions()),
    {
        match self.get("Reconciling") {
            Some(c) => {
                if c.status.is_true() {
                    return ReadyState::InProgress { reason: condition_reason_message(c) };
                }
            },
            None => {},
        }
        match self.get("Ready") {
            Some(c) => match c.status {
                ConditionStatus::True => ReadyState::Ready,
                ConditionStatus::False => ReadyState::Failed { reason: condition_reason_message(c) },
                ConditionStatus::Unknown => ReadyState::Unknown,
            },
            None => ReadyState::Unknown,
        }
    }
}

/// Every condition stands under its own type.
pub open spec fn own_types(s: Conditions) -> bool {
    forall|i: int| 0 <= i < s.len() ==> (#[trigger] s[i]).1.type_ == s[i].0
}

proof fn lemma_put_wf(s: Conditions, c: ConditionV)
    requires
        sorted(s),
        own_types(s),
    ensures
        sorted(put(s, c.type_, c)),
        own_types(put(s, c.type_, c)),
    decreases s.len(),
{
    crate::ordmap::lemma_put_sorted(s, c.type_, c);
    let r = put(s, c.type_, c);
    if s.len() > 0 {
        let t = s.drop_first();
        crate::ordmap::lemma_tail_sorted(s);
        assert forall|i: int| 0 <= i < t.len() implies (#[trigger] t[i]).1.type_ == t[i].0 by {
            assert(t[i] == s[i + 1]);
        }
        lemma_put_wf(t, c);
        assert(s[0].1.type_ == s[0].0);
        assert forall|i: int| 0 <= i < r.len() implies (#[trigger] r[i]).1.type_ == r[i].0 by {
            if s[0].0 == c.type_ {
                if i > 0 {
                    assert(r[i] == s[i]);
                }
            } else if crate::ordmap::Linear::precedes(s[0].0, c.type_) {
                if i > 0 {
                    assert(r[i] == put(t, c.type_, c)[i - 1]);
                }
            } else if i > 0 {
                assert(r[i] == s[i - 1]);
            }
        }
    }
}

proof fn lemma_erase_wf(s: Conditions, k: Seq<char>)
    requires
        sorted(s),
        own_types(s),
    ensures
        sorted(erase(s, k)),
        own_types(erase(s, k)),
{
    crate::ordmap::lemma_erase_sorted(s, k);
    let r = erase(s, k);
    assert forall|i: int| 0 <= i < r.len() implies (#[trigger] r[i]).1.type_ == r[i].0 by {
        let j = crate::ordmap::lemma_erase_subset(s, k, i);
        assert(r[i] == s[j]);
    }
}

proof fn lemma_touched_is_there(
    s: Conditions,
    type_: Seq<char>,
    status: ConditionStatus,
    reason: Seq<char>,
    message: Seq<char>,
    now: Timestamp,
)
    requires
        sorted(s),
    ensures
        lookup(touched(s, type_, status, reason, message, now), type_) is Some,
{
    law_touch(s, type_, status, reason, message, now, type_);
}

/// After a condition was brought up to date it has the status, the reason and
/// the message that were given. The time of its last change stays while the
/// status does, and becomes the present when the status changes or the
/// condition is new. The other conditions are left alone.
pub proof fn law_touch(
    s: Conditions,
    type_: Seq<char>,
    status: ConditionStatus,
    reason: Seq<char>,
    message: Seq<char>,
    now: Timestamp,
    other: Seq<char>,
)
    requires
        sorted(s),
    ensures
        ({
            let t = touched(s, type_, status, reason, message, now);
            let c = lookup(t, type_)->Some_0;
            &&& lookup(t, type_) is Some
            &&& c.status == status && c.reason == reason && c.message == message
            &&& c.last_transition_time == (if lookup(s, type_) is Some && lookup(s, type_)->Some_0.status
                == status {
                lookup(s, type_)->Some_0.last_transition_time
            } else {
                now
            })
            &&& other != type_ ==> lookup(t, other) == lookup(s, other)
        }),
{
    let t = touched(s, type_, status, reason, message, now);
    let c = ConditionV {
        type_,
        status,
        reason,
        message,
        last_transition_time: now,
        observed_generation: None,
    };
    match lookup(s, type_) {
        None => {
            lemma_put_lookup(s, type_, c, type_);
            lemma_put_lookup(s, type_, c, other);
        },
        Some(was) => {
            let d = ConditionV {
                last_transition_time: if was.status == status {
                    was.last_transition_time
                } else {
                    now
                },
                observed_generation: was.observed_generation,
                ..c
            };
            lemma_put_lookup(s, type_, d, type_);
            lemma_put_lookup(s, type_, d, other);
        },
    }
}

/// A removed condition is gone; the others are left alone.
pub proof fn law_remove(s: Conditions, type_: Seq<char>, other: Seq<char>)
    requires
        sorted(s),
    ensures
        lookup(erase(s, type_), type_) is None,
        other != type_ ==> lookup(erase(s, type_), other) == lookup(s, other),
{
    lemma_erase_lookup(s, type_, type_);
    lemma_erase_lookup(s, type_, other);
}

/// Touching a condition keeps its type and the generation that it was seen
/// with; a new one has none.
pub proof fn law_touch_keeps_generation(
    s: Conditions,
    type_: Seq<char>,
    status: ConditionStatus,
    reason: Seq<char>,
    message: Seq<char>,
    now: Timestamp,
)
    requires
        sorted(s),
    ensures
        ({
            let c = lookup(touched(s, type_, status, reason, message, now), type_)->Some_0;
            &&& c.type_ == type_
            &&& c.observed_generation == match lookup(s, type_) {
                Some(was) => was.observed_generation,
                None => None,
            }
        }),
{
    let t = touched(s, type_, status, reason, message, now);
    let c = ConditionV {
        type_,
        status,
        reason,
        message,
        last_transition_time: now,
        observed_generation: None,
    };
    match lookup(s, type_) {
        None => {
            lemma_put_lookup(s, type_, c, type_);
        },
        Some(was) => {
            let d = ConditionV {
                last_transition_time: if was.status == status {
                    was.last_transition_time
                } else {
                    now
                },
                observed_generation: was.observed_generation,
                ..c
            };
            lemma_put_lookup(s, type_, d, type_);
        },
    }
}

/// What is being reconciled is in progress whatever else holds of it; else
/// the ready condition tells, and without one nothing is known.
pub proof fn law_reconciling_comes_first(s: Conditions)
    ensures
        readiness(s) is InProgress <==> lookup(s, "Reconciling"@) is Some && lookup(
            s,
            "Reconciling"@,
        )->Some_0.status == ConditionStatus::True,
        !(readiness(s) is InProgress) ==> {
            &&& readiness(s) is Ready <==> lookup(s, "Ready"@) is Some && lookup(
                s,
                "Ready"@,
            )->Some_0.status == ConditionStatus::True
            &&& readiness(s) is Failed <==> lookup(s, "Ready"@) is Some && lookup(
                s,
                "Ready"@,
            )->Some_0.status == ConditionStatus::False
        },
        readiness(s) matches ReadyV::Failed { reason } ==> reason == explained(
            lookup(s, "Ready"@)->Some_0,
        ),
        readiness(s) matches ReadyV::InProgress { reason } ==> reason == explained(
            lookup(s, "Reconciling"@)->Some_0,
        ),
{
}

/// An explanation is the reason and the message, or the one of them that is
/// there.
pub proof fn law_explanations(c: ConditionV)
    ensures
        c.message.len() == 0 ==> explained(c) == c.reason,
        c.reason.len() == 0 ==> explained(c) == c.message,
        c.reason.len() > 0 && c.message.len() > 0 ==> explained(c) == c.reason + ": "@ + c.message,
{
    if c.reason.len() == 0 && c.message.len() == 0 {
        assert(c.reason =~= c.message);
    }
}

/// False is worse than unknown, and unknown worse than true.
pub proof fn law_statuses_are_ranked()
    ensures
        ConditionStatus::level(ConditionStatus::True) < ConditionStatus::level(
            ConditionStatus::Unknown,
        ) < ConditionStatus::level(ConditionStatus::False),
{
}

} // verus!
