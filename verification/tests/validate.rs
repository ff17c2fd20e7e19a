use magma::converge::validate::{Validate, Violation, Violations};

struct AlwaysValid;

impl Validate for AlwaysValid {
    fn violations(&self) -> Violations {
        unreachable!()
    }

    fn validate(&self) -> Vec<Violation> {
        Vec::new()
    }
}

struct AlwaysInvalid;

impl Validate for AlwaysInvalid {
    fn violations(&self) -> Violations {
        unreachable!()
    }

    fn validate(&self) -> Vec<Violation> {
        vec![Violation::new("self", "always_invalid", "by design")]
    }
}

struct Pure(u32);

impl Validate for Pure {
    fn violations(&self) -> Violations {
        unreachable!()
    }

    fn validate(&self) -> Vec<Violation> {
        if self.0 > 100 {
            vec![Violation::new("0", "too_big", &format!("got {}", self.0))]
        } else {
            Vec::new()
        }
    }
}

#[test]
fn always_valid_is_valid() {
    assert!(AlwaysValid.is_valid());
    assert!(AlwaysValid.validate().is_empty());
}

#[test]
fn always_invalid_is_not_valid() {
    assert!(!AlwaysInvalid.is_valid());
    let vs = AlwaysInvalid.validate();
    assert_eq!(vs.len(), 1);
    assert_eq!(vs[0].kind, "always_invalid");
}

#[test]
fn violation_construction() {
    let v = Violation::new("a.b.c", "bad_value", "must be > 0");
    assert_eq!(v.path, "a.b.c");
    assert_eq!(v.kind, "bad_value");
    assert!(v.message.contains("> 0"));
}

#[test]
fn determinism_law() {
    let p1 = Pure(50);
    assert_eq!(p1.validate(), p1.validate());
    let p2 = Pure(150);
    assert_eq!(p2.validate(), p2.validate());
}
