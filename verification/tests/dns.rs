use magma::converge::dns::{
    parse_address, DnsRecordReconciler, MockDnsClient, Record, RecordKey, RecordValue,
};
use magma::converge::{Action, ChangeSeverity, Reconciler};
use magma::json::Json;

fn as_list(records: &Vec<Record>) -> Json {
    Json::Array(records.iter().map(|r| r.to_json()).collect())
}

fn rec(zone: &str, name: &str, ty: &str, value: &str) -> Record {
    Record {
        key: RecordKey {
            zone: zone.into(),
            name: name.into(),
            rtype: ty.into(),
        },
        value: RecordValue {
            value: value.into(),
            ttl: 300,
            proxied: false,
        },
    }
}

#[test]
fn create_plan_for_new_record() {
    let r = DnsRecordReconciler::new(MockDnsClient::new());
    let config = as_list(&vec![rec("ex.com", "api", "A", "1.2.3.4")]);
    let state = r.read_state().unwrap();
    let plan = r.compute_plan(&config, &state).unwrap();
    assert_eq!(plan.change_count(), 1);
    assert_eq!(plan.changes[0].action, Action::Create);
}

#[test]
fn apply_creates_record() {
    let mut r = DnsRecordReconciler::new(MockDnsClient::new());
    let want = rec("ex.com", "api", "A", "1.2.3.4");
    let config = as_list(&vec![want.clone()]);
    let state = r.read_state().unwrap();
    let plan = r.compute_plan(&config, &state).unwrap();
    let outcome = r.apply(&plan).unwrap();
    assert!(outcome.fully_succeeded());
    let live = r.client().snapshot();
    assert_eq!(live.get(&want.key), Some(&want.value));
}

#[test]
fn cname_update_is_critical_severity() {
    let initial = vec![rec("ex.com", "www", "CNAME", "old.target.")];
    let r = DnsRecordReconciler::new(MockDnsClient::with_records(&initial));
    let config =
        as_list(&vec![rec("ex.com", "www", "CNAME", "new.target.")]);
    let state = r.read_state().unwrap();
    let plan = r.compute_plan(&config, &state).unwrap();
    assert_eq!(plan.change_count(), 1);
    assert_eq!(plan.changes[0].action, Action::Update);
    assert_eq!(plan.changes[0].severity, ChangeSeverity::Critical);
}

#[test]
fn a_record_update_is_functional_severity() {
    let initial = vec![rec("ex.com", "api", "A", "1.1.1.1")];
    let r = DnsRecordReconciler::new(MockDnsClient::with_records(&initial));
    let config = as_list(&vec![rec("ex.com", "api", "A", "2.2.2.2")]);
    let state = r.read_state().unwrap();
    let plan = r.compute_plan(&config, &state).unwrap();
    assert_eq!(plan.changes[0].severity, ChangeSeverity::Functional);
}

#[test]
fn delete_for_removed_record() {
    let initial = vec![rec("ex.com", "old", "A", "1.1.1.1")];
    let r = DnsRecordReconciler::new(MockDnsClient::with_records(&initial));
    let config = as_list(&Vec::<Record>::new());
    let state = r.read_state().unwrap();
    let plan = r.compute_plan(&config, &state).unwrap();
    assert_eq!(plan.changes[0].action, Action::Delete);
    assert_eq!(plan.changes[0].severity, ChangeSeverity::Critical);
}

#[test]
fn parse_address_round_trips() {
    let key = RecordKey {
        zone: "ex.com".into(),
        name: "api".into(),
        rtype: "A".into(),
    };
    let addr = key.address();
    let parsed = parse_address(&addr).unwrap();
    assert_eq!(parsed.zone, key.zone);
    assert_eq!(parsed.name, key.name);
    assert_eq!(parsed.rtype, key.rtype);
}
