//! Choosing resources by their labels.
use vstd::prelude::*;
use crate::ordmap::{lemma_map_vals_lookup, lookup, map_vals, put, StrMap};
use crate::text;
use crate::text::texts;

verus! {

/// Labels by key.
pub type Labels = Seq<(Seq<char>, Seq<char>)>;

/// What labels hold.
pub open spec fn labels_view(m: Seq<(Seq<char>, String)>) -> Labels {
    map_vals(m, |v: String| v@)
}

/// What a requirement asks of a label.
#[derive(Clone, Copy, Debug, PartialEq, Eq, Structural)]
pub enum LabelSelectorOperator {
    In,
    NotIn,
    Exists,
    DoesNotExist,
}

/// The name of an operator.
pub open spec fn operator_name(o: LabelSelectorOperator) -> Seq<char> {
    match o {
        LabelSelectorOperator::In => "In"@,
        LabelSelectorOperator::NotIn => "NotIn"@,
        LabelSelectorOperator::Exists => "Exists"@,
        LabelSelectorOperator::DoesNotExist => "DoesNotExist"@,
    }
}

impl LabelSelectorOperator {
    /// Whether the operator goes without values.
    pub fn ignores_values(self) -> (r: bool)
        ensures
            r == (self == LabelSelectorOperator::Exists || self == LabelSelectorOperator::DoesNotExist),
    {
        self == LabelSelectorOperator::Exists || self == LabelSelectorOperator::DoesNotExist
    }

    /// The name of the operator.
    pub fn name(self) -> (r: &'static str)
        ensures
            r@ == operator_name(self),
    {
        match self {
            LabelSelectorOperator::In => "In",
            LabelSelectorOperator::NotIn => "NotIn",
            LabelSelectorOperator::Exists => "Exists",
            LabelSelectorOperator::DoesNotExist => "DoesNotExist",
        }
    }
}

/// A requirement on one label.
#[derive(Clone, Debug, PartialEq, Eq)]
pub struct LabelSelectorRequirement {
    pub key: String,
    pub operator: LabelSelectorOperator,
    pub values: Vec<String>,
}

/// What a [`LabelSelectorRequirement`] holds.
#[verifier::ext_equal]
pub struct RequirementV {
    pub key: Seq<char>,
    pub operator: LabelSelectorOperator,
    pub values: Seq<Seq<char>>,
}

impl View for LabelSelectorRequirement {
    type V = RequirementV;

    open spec fn view(&self) -> RequirementV {
        RequirementV { key: self.key@, operator: self.operator, values: texts(self.values@) }
    }
}

/// Labels meet a requirement.
pub open spec fn meets(labels: Labels, r: RequirementV) -> bool {
    let value = lookup(labels, r.key);
    match r.operator {
        LabelSelectorOperator::In => value matches Some(v) && r.values.contains(v),
        LabelSelectorOperator::NotIn => value matches Some(v) ==> !r.values.contains(v),
        LabelSelectorOperator::Exists => value is Some,
        LabelSelectorOperator::DoesNotExist => value is None,
    }
}

/// A requirement has values that its operator goes without.
pub open spec fn misvalued(r: RequirementV) -> bool {
    (r.operator == LabelSelectorOperator::Exists || r.operator == LabelSelectorOperator::DoesNotExist)
        && r.values.len() > 0
}

impl LabelSelectorRequirement {
    pub fn new(key: &str, operator: LabelSelectorOperator, values: Vec<String>) -> (r: Self)
        ensures
            r@ == (RequirementV { key: key@, operator, values: texts(values@) }),
    {
        LabelSelectorRequirement { key: key.to_owned(), operator, values }
    }

    /// The label is there with one of the values.
    pub fn in_values(key: &str, values: Vec<String>) -> (r: Self)
        ensures
            r@ == (RequirementV {
                key: key@,
                operator: LabelSelectorOperator::In,
                values: texts(values@),
            }),
    {
        LabelSelectorRequirement::new(key, LabelSelectorOperator::In, values)
    }

    /// The label is not there with any of the values.
    pub fn not_in(key: &str, values: Vec<String>) -> (r: Self)
        ensures
            r@ == (RequirementV {
                key: key@,
                operator: LabelSelectorOperator::NotIn,
                values: texts(values@),
            }),
    {
        LabelSelectorRequirement::new(key, LabelSelectorOperator::NotIn, values)
    }

    /// The label is there.
    pub fn key_exists(key: &str) -> (r: Self)
        ensures
            r@ == (RequirementV {
                key: key@,
                operator: LabelSelectorOperator::Exists,
                values: Seq::empty(),
            }),
    {
        let r = LabelSelectorRequirement::new(key, LabelSelectorOperator::Exists, Vec::new());
        proof {
            assert(r@.values =~= Seq::empty());
        }
        r
    }

    /// The label is not there.
    pub fn does_not_exist(key: &str) -> (r: Self)
        ensures
            r@ == (RequirementV {
                key: key@,
                operator: LabelSelectorOperator::DoesNotExist,
                values: Seq::empty(),
            }),
    {
        let r = LabelSelectorRequirement::new(key, LabelSelectorOperator::DoesNotExist, Vec::new());
        proof {
            assert(r@.values =~= Seq::empty());
        }
        r
    }

    /// Whether labels meet the requirement; see [`meets`].
    pub fn matches(&self, labels: &StrMap<String>) -> (r: bool)
        ensures
            r == meets(labels_view(labels@), self@),
    {
        proof {
            lemma_map_vals_lookup(labels@, |v: String| v@, self.key@);
        }
        match self.operator {
            LabelSelectorOperator::In => match labels.get(self.key.as_str()) {
                Some(v) => text::contains_text(&self.values, v.as_str()),
                None => false,
            },
            LabelSelectorOperator::NotIn => match labels.get(self.key.as_str()) {
                Some(v) => !text::contains_text(&self.values, v.as_str()),
                None => true,
            },
            LabelSelectorOperator::Exists => labels.contains_key(self.key.as_str()),
            LabelSelectorOperator::DoesNotExist => !labels.contains_key(self.key.as_str()),
        }
    }

    /// Whether the requirement has values that its operator goes without.
    pub fn has_invalid_values(&self) -> (r: bool)
        ensures
            r == misvalued(self@),
    {
        self.operator.ignores_values() && self.values.len() > 0
    }
}

/// Labels that a resource must have, and requirements that they must meet.
#[derive(Clone, Debug, PartialEq, Eq)]
pub struct LabelSelector {
    pub match_labels: StrMap<String>,
    pub match_expressions: Vec<LabelSelectorRequirement>,
}

/// What a [`LabelSelector`] holds.
#[verifier::ext_equal]
pub struct SelectorV {
    pub labels: Labels,
    pub requirements: Seq<RequirementV>,
}

pub open spec fn requirements_view(rs: Seq<LabelSelectorRequirement>) -> Seq<RequirementV> {
    Seq::new(rs.len(), |i: int| rs[i]@)
}

impl View for LabelSelector {
    type V = SelectorV;

    open spec fn view(&self) -> SelectorV {
        SelectorV {
            labels: labels_view(self.match_labels@),
            requirements: requirements_view(self.match_expressions@),
        }
    }
}

/// Labels are chosen by a selector: every label of the selector is there with
/// its value, and every requirement is met.
pub open spec fn selects(s: SelectorV, labels: Labels) -> bool {
    &&& forall|i: int|
        0 <= i < s.labels.len() ==> lookup(labels, (#[trigger] s.labels[i]).0) == Some(s.labels[i].1)
    &&& forall|i: int| 0 <= i < s.requirements.len() ==> meets(labels, #[trigger] s.requirements[i])
}

impl Default for LabelSelector {
    fn default() -> (r: Self)
        ensures
            r@ == (SelectorV { labels: Seq::empty(), requirements: Seq::empty() }),
    {
        LabelSelector::new()
    }
}

impl LabelSelector {
    /// Chooses everything.
    pub fn new() -> (r: Self)
        ensures
            r@ == (SelectorV { labels: Seq::empty(), requirements: Seq::empty() }),
    {
        let r = LabelSelector { match_labels: StrMap::new(), match_expressions: Vec::new() };
        proof {
            assert(r@.labels =~= Seq::empty());
            assert(r@.requirements =~= Seq::empty());
        }
        r
    }

    /// Chooses what has one label.
    pub fn from_label(key: &str, value: &str) -> (r: Self)
        ensures
            r@ == (SelectorV { labels: seq![(key@, value@)], requirements: Seq::empty() }),
    {
        LabelSelector::new().with_label(key, value)
    }

    /// With one label more; one with the same key is replaced.
    pub fn with_label(self, key: &str, value: &str) -> (r: Self)
        ensures
            r@ == (SelectorV { labels: put(self@.labels, key@, value@), ..self@ }),
    {
        let mut r = self;
        let v = value.to_owned();
        proof {
            crate::ordmap::lemma_map_vals_put(r.match_labels@, |x: String| x@, key@, v);
        }
        r.match_labels.insert(key.to_owned(), v);
        r
    }

    /// With one requirement more.
    pub fn with_expression(self, req: LabelSelectorRequirement) -> (r: Self)
        ensures
            r@ == (SelectorV { requirements: self@.requirements.push(req@), ..self@ }),
    {
        let mut r = self;
        r.match_expressions.push(req);
        proof {
            assert(r@.requirements =~= self@.requirements.push(req@));
        }
        r
    }

    /// Whether the selector asks for nothing.
    pub fn is_empty(&self) -> (r: bool)
        ensures
            r == (self@.labels.len() == 0 && self@.requirements.len() == 0),
    {
        self.match_labels.is_empty() && self.match_expressions.len() == 0
    }

    /// Whether labels are chosen; see [`selects`].
    pub fn matches(&self, labels: &StrMap<String>) -> (r: bool)
        ensures
            r == selects(self@, labels_view(labels@)),
    {
        let ghost ls = labels_view(labels@);
        let mut i: usize = 0;
        while i < self.match_labels.entries.len()
            invariant
                i <= self.match_labels.entries@.len(),
                ls == labels_view(labels@),
                forall|j: int|
                    0 <= j < i ==> lookup(ls, (#[trigger] self@.labels[j]).0) == Some(self@.labels[j].1),
            decreases self.match_labels.entries.len() - i,
        {
            let e = &self.match_labels.entries[i];
            proof {
                assert(self@.labels[i as int] == (e.0@, e.1@));
                lemma_map_vals_lookup(labels@, |v: String| v@, e.0@);
            }
            match labels.get(e.0.as_str()) {
                Some(actual) => {
                    if !text::same(actual.as_str(), e.1.as_str()) {
                        return false;
                    }
                },
                None => {
                    return false;
                },
            }
            i += 1;
        }
        let mut k: usize = 0;
        while k < self.match_expressions.len()
            invariant
                k <= self.match_expressions@.len(),
                ls == labels_view(labels@),
                forall|j: int| 0 <= j < k ==> meets(ls, #[trigger] self@.requirements[j]),
            decreases self.match_expressions.len() - k,
        {
            proof {
                assert(self@.requirements[k as int] == self.match_expressions@[k as int]@);
            }
            if !self.match_expressions[k].matches(labels) {
                return false;
            }
            k += 1;
        }
        true
    }

    /// Whether some requirement has values that its operator goes without.
    pub fn has_invalid_requirements(&self) -> (r: bool)
        ensures
            r == exists|i: int|
                0 <= i < self@.requirements.len() && misvalued(#[trigger] self@.requirements[i]),
    {
        let mut i: usize = 0;
        while i < self.match_expressions.len()
            invariant
                i <= self.match_expressions@.len(),
                forall|j: int| 0 <= j < i ==> !misvalued(#[trigger] self@.requirements[j]),
            decreases self.match_expressions.len() - i,
        {
            proof {
                assert(self@.requirements[i as int] == self.match_expressions@[i as int]@);
            }
            if self.match_expressions[i].has_invalid_values() {
                return true;
            }
            i += 1;
        }
        false
    }
}

/// Pairs as labels.
pub open spec fn pairs_view(pairs: Seq<(&str, &str)>) -> Labels {
    Seq::new(pairs.len(), |i: int| (pairs[i].0@, pairs[i].1@))
}

/// Labels from pairs; of two with one key the later one stays.
pub fn labels(pairs: &[(&str, &str)]) -> (r: StrMap<String>)
    ensures
        labels_view(r@) == crate::ordmap::collect(pairs_view(pairs@)),
{
    let ghost all = pairs_view(pairs@);
    let mut m: StrMap<String> = StrMap::new();
    let mut i: usize = 0;
    proof {
        assert(all.take(0) =~= Seq::empty());
        assert(labels_view(m@) =~= Seq::empty());
    }
    while i < pairs.len()
        invariant
            i <= pairs@.len(),
            all == pairs_view(pairs@),
            labels_view(m@) == crate::ordmap::collect(all.take(i as int)),
        decreases pairs.len() - i,
    {
        let k = pairs[i].0;
        let v = pairs[i].1.to_owned();
        proof {
            assert(all.take(i + 1).drop_last() =~= all.take(i as int));
            assert(all.take(i + 1).last() == (k@, v@));
            crate::ordmap::lemma_map_vals_put(m@, |x: String| x@, k@, v);
        }
        m.insert(k.to_owned(), v);
        i += 1;
    }
    proof {
        assert(all.take(all.len() as int) =~= all);
    }
    m
}

/// A selector that asks for nothing chooses everything.
pub proof fn law_empty_selects_all(s: SelectorV, labels: Labels)
    requires
        s.labels.len() == 0,
        s.requirements.len() == 0,
    ensures
        selects(s, labels),
{
}

/// Asking for more never chooses more: labels are chosen with one requirement
/// more exactly when they were chosen before and meet it.
pub proof fn law_requirements_add_up(s: SelectorV, r: RequirementV, labels: Labels)
    ensures
        selects(SelectorV { requirements: s.requirements.push(r), ..s }, labels) <==> selects(s, labels)
            && meets(labels, r),
{
    let t = SelectorV { requirements: s.requirements.push(r), ..s };
    if selects(t, labels) {
        assert forall|i: int| 0 <= i < s.requirements.len() implies meets(
            labels,
            #[trigger] s.requirements[i],
        ) by {
            assert(t.requirements[i] == s.requirements[i]);
        }
        assert(t.requirements[s.requirements.len() as int] == r);
    }
}

/// `NotIn` is the opposite of `In`, and `DoesNotExist` of `Exists`.
pub proof fn law_operators_are_opposites(labels: Labels, key: Seq<char>, values: Seq<Seq<char>>)
    ensures
        meets(labels, RequirementV { key, operator: LabelSelectorOperator::In, values }) != meets(
            labels,
            RequirementV { key, operator: LabelSelectorOperator::NotIn, values },
        ),
        meets(labels, RequirementV { key, operator: LabelSelectorOperator::Exists, values }) != meets(
            labels,
            RequirementV { key, operator: LabelSelectorOperator::DoesNotExist, values },
        ),
{
}

/// `In` asks for a label with one of the values, `Exists` for a label with any
/// value.
pub proof fn law_operators_ask_for_values(labels: Labels, key: Seq<char>, values: Seq<Seq<char>>)
    ensures
        meets(labels, RequirementV { key, operator: LabelSelectorOperator::In, values })
            <==> exists|j: int|
            0 <= j < values.len() && lookup(labels, key) == Some(#[trigger] values[j]),
        meets(labels, RequirementV { key, operator: LabelSelectorOperator::Exists, values })
            <==> exists|i: int| 0 <= i < labels.len() && (#[trigger] labels[i]).0 == key,
{
    if let Some(v) = lookup(labels, key) {
        let i = crate::ordmap::lemma_lookup_index(labels, key);
        assert(labels[i].0 == key);
        if values.contains(v) {
            let j = choose|j: int| 0 <= j < values.len() && values[j] == v;
            assert(lookup(labels, key) == Some(values[j]));
        }
    } else {
        if exists|i: int| 0 <= i < labels.len() && (#[trigger] labels[i]).0 == key {
            lemma_found(labels, key);
        }
    }
}

proof fn lemma_found(labels: Labels, key: Seq<char>)
    requires
        exists|i: int| 0 <= i < labels.len() && (#[trigger] labels[i]).0 == key,
    ensures
        lookup(labels, key) is Some,
    decreases labels.len(),
{
    let i = choose|i: int| 0 <= i < labels.len() && (#[trigger] labels[i]).0 == key;
    if labels[0].0 != key {
        assert(labels.drop_first()[i - 1] == labels[i]);
        lemma_found(labels.drop_first(), key);
    }
}

/// Every label that a selector names must be there with its value: one more
/// selects what was selected and has it.
pub proof fn law_labels_add_up(s: SelectorV, key: Seq<char>, value: Seq<char>, labels: Labels)
    ensures
        selects(SelectorV { labels: s.labels.push((key, value)), ..s }, labels) <==> selects(
            s,
            labels,
        ) && lookup(labels, key) == Some(value),
{
    let more = SelectorV { labels: s.labels.push((key, value)), ..s };
    if selects(more, labels) {
        assert(more.labels[s.labels.len() as int] == (key, value));
        assert forall|i: int| 0 <= i < s.labels.len() implies lookup(
            labels,
            (#[trigger] s.labels[i]).0,
        ) == Some(s.labels[i].1) by {
            assert(more.labels[i] == s.labels[i]);
        }
        assert forall|i: int| 0 <= i < s.requirements.len() implies meets(
            labels,
            #[trigger] s.requirements[i],
        ) by {
            assert(more.requirements[i] == s.requirements[i]);
        }
    }
    if selects(s, labels) && lookup(labels, key) == Some(value) {
        assert forall|i: int| 0 <= i < more.labels.len() implies lookup(
            labels,
            (#[trigger] more.labels[i]).0,
        ) == Some(more.labels[i].1) by {
            if i < s.labels.len() {
                assert(more.labels[i] == s.labels[i]);
            }
        }
    }
}

/// Only an operator that looks at no values has none to be given.
pub proof fn law_values_go_with_operators(r: RequirementV)
    ensures
        r.operator == LabelSelectorOperator::In || r.operator == LabelSelectorOperator::NotIn
            ==> !misvalued(r),
        r.operator == LabelSelectorOperator::Exists || r.operator
            == LabelSelectorOperator::DoesNotExist ==> (misvalued(r) <==> r.values.len() > 0),
{
}

} // verus!
