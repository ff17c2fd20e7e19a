//! Checking values that came from outside, and telling everything that is
//! wrong with them.
use vstd::prelude::*;
use crate::converge::selector::{misvalued, LabelSelectorOperator, LabelSelectorRequirement};

verus! {

/// Something that is wrong.
#[derive(Clone, Debug, PartialEq, Eq)]
pub struct Violation {
    /// Where, as a path with dots.
    pub path: String,
    /// What, for machines.
    pub kind: String,
    /// What, for people.
    pub message: String,
}

impl Violation {
    pub fn new(path: &str, kind: &str, message: &str) -> (r: Self)
        ensures
            r.path@ == path@,
            r.kind@ == kind@,
            r.message@ == message@,
    {
        Violation { path: path.to_owned(), kind: kind.to_owned(), message: message.to_owned() }
    }
}

/// What a [`Violation`] holds.
#[verifier::ext_equal]
pub struct ViolationV {
    pub path: Seq<char>,
    pub kind: Seq<char>,
    pub message: Seq<char>,
}

impl View for Violation {
    type V = ViolationV;

    open spec fn view(&self) -> ViolationV {
        ViolationV { path: self.path@, kind: self.kind@, message: self.message@ }
    }
}

/// All that is wrong with a value, in the order in which it is told.
pub type Violations = Seq<ViolationV>;

pub open spec fn violations_view(vs: Seq<Violation>) -> Violations {
    Seq::new(vs.len(), |i: int| vs[i]@)
}

/// Each says where it is.
pub open spec fn all_located(vs: Violations) -> bool {
    forall|i: int| 0 <= i < vs.len() ==> (#[trigger] vs[i]).path.len() > 0
}

/// A value that can be checked.
pub trait Validate {
    /// What is wrong: a matter of the value alone.
    spec fn violations(&self) -> Violations;

    /// Everything that is wrong, each with the place where it is.
    fn validate(&self) -> (r: Vec<Violation>)
        ensures
            violations_view(r@) == self.violations(),
            all_located(violations_view(r@)),
    ;

    /// Whether nothing is wrong.
    fn is_valid(&self) -> (r: bool)
        ensures
            r == (self.violations().len() == 0),
    {
        let vs = self.validate();
        proof {
            assert(violations_view(vs@).len() == vs@.len());
        }
        vs.len() == 0
    }
}

/// What is wrong with a requirement that has values its operator goes without.
pub open spec fn idle_values() -> ViolationV {
    ViolationV {
        path: "values"@,
        kind: "non_empty_values_for_exists_op"@,
        message: "Exists and DoesNotExist go without values"@,
    }
}

impl Validate for LabelSelectorRequirement {
    open spec fn violations(&self) -> Violations {
        if misvalued(self@) {
            seq![idle_values()]
        } else {
            Seq::empty()
        }
    }

    fn validate(&self) -> (r: Vec<Violation>) {
        let mut out: Vec<Violation> = Vec::new();
        if self.has_invalid_values() {
            out.push(
                Violation::new(
                    "values",
                    "non_empty_values_for_exists_op",
                    "Exists and DoesNotExist go without values",
                ),
            );
        }
        proof {
            reveal_strlit("values");
            assert(violations_view(out@) =~= self.violations());
        }
        out
    }
}

/// A requirement is at fault exactly where it gives values to an operator that
/// looks at none, and the fault says where.
pub proof fn law_values_without_use(r: LabelSelectorRequirement)
    ensures
        r.violations().len() > 0 <==> r@.values.len() > 0 && (r@.operator
            == LabelSelectorOperator::Exists || r@.operator
            == LabelSelectorOperator::DoesNotExist),
        r.violations().len() <= 1,
        r.violations().len() == 1 ==> r.violations()[0].path == "values"@,
{
}

} // verus!
