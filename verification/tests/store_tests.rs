use medical_tests::{MedicalTest, TestStore};

fn record(id: &str, patient: &str, doctor: &str, status: &str) -> MedicalTest {
    MedicalTest {
        id: id.to_string(),
        patient_id: patient.to_string(),
        doctor_id: doctor.to_string(),
        name: format!("test-{}", id),
        date: "2024-01-15".to_string(),
        result: None,
        status: status.to_string(),
        recommendations: None,
        created_at: 100,
        updated_at: 100,
    }
}

fn same_record(a: &MedicalTest, b: &MedicalTest) -> bool {
    a.id == b.id
        && a.patient_id == b.patient_id
        && a.doctor_id == b.doctor_id
        && a.name == b.name
        && a.date == b.date
        && a.result == b.result
        && a.status == b.status
        && a.recommendations == b.recommendations
        && a.created_at == b.created_at
        && a.updated_at == b.updated_at
}

#[test]
fn create_then_get_returns_the_record() {
    let mut store = TestStore::new();
    let r = record("t1", "p1", "d1", "pending");
    let id = store.create_test(r.clone());
    assert_eq!(id, "t1");
    let got = store.get_test("t1".to_string()).expect("record must be found");
    assert!(same_record(&got, &r));
    assert_eq!(store.len(), 1);
}

#[test]
fn create_overwrites_on_colliding_id() {
    let mut store = TestStore::new();
    store.create_test(record("t1", "p1", "d1", "pending"));
    let mut r2 = record("t1", "p2", "d2", "completed");
    r2.result = Some("negative".to_string());
    r2.updated_at = 200;
    store.create_test(r2.clone());
    assert_eq!(store.len(), 1);
    let got = store.get_test("t1".to_string()).expect("record must be found");
    assert!(same_record(&got, &r2));
}

#[test]
fn get_missing_returns_none() {
    let store = TestStore::new();
    assert!(store.get_test("absent".to_string()).is_none());
}

#[test]
fn update_existing_replaces_entirely() {
    let mut store = TestStore::new();
    let mut r = record("t1", "p1", "d1", "pending");
    r.result = Some("inconclusive".to_string());
    r.recommendations = Some("repeat".to_string());
    store.create_test(r);
    // The replacement clears both optional fields: a full replace, not a merge.
    let r2 = record("t1", "p9", "d9", "completed");
    assert!(store.update_test(r2.clone()));
    let got = store.get_test("t1".to_string()).expect("record must be found");
    assert!(same_record(&got, &r2));
    assert_eq!(got.result, None);
    assert_eq!(got.recommendations, None);
    assert_eq!(store.len(), 1);
}

#[test]
fn update_missing_returns_false_and_changes_nothing() {
    let mut store = TestStore::new();
    let r = record("t1", "p1", "d1", "pending");
    store.create_test(r.clone());
    assert!(!store.update_test(record("t2", "p2", "d2", "completed")));
    assert_eq!(store.len(), 1);
    let got = store.get_test("t1".to_string()).expect("record must be found");
    assert!(same_record(&got, &r));
    assert!(store.get_test("t2".to_string()).is_none());
}

#[test]
fn update_on_empty_store_returns_false() {
    let mut store = TestStore::new();
    assert!(!store.update_test(record("t1", "p1", "d1", "pending")));
    assert_eq!(store.len(), 0);
}

#[test]
fn delete_succeeds_exactly_once() {
    let mut store = TestStore::new();
    store.create_test(record("t1", "p1", "d1", "pending"));
    assert!(store.delete_test("t1".to_string()));
    assert!(store.get_test("t1".to_string()).is_none());
    assert_eq!(store.len(), 0);
    assert!(!store.delete_test("t1".to_string()));
}

#[test]
fn delete_missing_returns_false() {
    let mut store = TestStore::new();
    assert!(!store.delete_test("absent".to_string()));
    store.create_test(record("t1", "p1", "d1", "pending"));
    assert!(!store.delete_test("t2".to_string()));
    assert_eq!(store.len(), 1);
}

#[test]
fn list_by_patient_returns_exactly_the_matches() {
    let mut store = TestStore::new();
    store.create_test(record("1", "p1", "d1", "pending"));
    store.create_test(record("2", "p1", "d2", "completed"));
    store.create_test(record("3", "p2", "d1", "pending"));
    let p1 = store.get_tests_by_patient("p1".to_string());
    assert_eq!(p1.len(), 2);
    let ids: Vec<String> = p1.iter().map(|t| t.id.clone()).collect();
    assert_eq!(ids, vec!["1".to_string(), "2".to_string()]);
    assert!(p1.iter().all(|t| t.patient_id == "p1"));
    let none = store.get_tests_by_patient("p3".to_string());
    assert!(none.is_empty());
}

#[test]
fn list_by_doctor_returns_exactly_the_matches() {
    let mut store = TestStore::new();
    store.create_test(record("1", "p1", "d1", "pending"));
    store.create_test(record("2", "p1", "d2", "completed"));
    store.create_test(record("3", "p2", "d1", "pending"));
    let d1 = store.get_tests_by_doctor("d1".to_string());
    assert_eq!(d1.len(), 2);
    let ids: Vec<String> = d1.iter().map(|t| t.id.clone()).collect();
    assert_eq!(ids, vec!["1".to_string(), "3".to_string()]);
    assert!(store.get_tests_by_doctor("d9".to_string()).is_empty());
}

#[test]
fn list_by_status_returns_exactly_the_matches() {
    let mut store = TestStore::new();
    store.create_test(record("1", "p1", "d1", "pending"));
    store.create_test(record("2", "p1", "d2", "completed"));
    store.create_test(record("3", "p2", "d1", "pending"));
    let pending = store.get_tests_by_status("pending".to_string());
    assert_eq!(pending.len(), 2);
    let ids: Vec<String> = pending.iter().map(|t| t.id.clone()).collect();
    assert_eq!(ids, vec!["1".to_string(), "3".to_string()]);
    assert!(store.get_tests_by_status("cancelled".to_string()).is_empty());
}

#[test]
fn queries_on_empty_store_are_empty() {
    let store = TestStore::new();
    assert!(store.get_tests_by_patient("p1".to_string()).is_empty());
    assert!(store.get_tests_by_doctor("d1".to_string()).is_empty());
    assert!(store.get_tests_by_status("pending".to_string()).is_empty());
}

#[test]
fn crud_and_query_scenario() {
    let mut store = TestStore::new();
    let a = record("1", "p1", "d1", "pending");
    let b = record("2", "p1", "d2", "completed");
    let c = record("3", "p2", "d3", "pending");
    store.create_test(a.clone());
    store.create_test(b.clone());
    store.create_test(c.clone());

    // The query order is the id order: A before B, A before C.
    let p1 = store.get_tests_by_patient("p1".to_string());
    let p1_ids: Vec<String> = p1.iter().map(|t| t.id.clone()).collect();
    assert_eq!(p1_ids, vec!["1".to_string(), "2".to_string()]);

    let pending = store.get_tests_by_status("pending".to_string());
    let pending_ids: Vec<String> = pending.iter().map(|t| t.id.clone()).collect();
    assert_eq!(pending_ids, vec!["1".to_string(), "3".to_string()]);

    assert!(store.delete_test("2".to_string()));
    assert!(store.get_test("2".to_string()).is_none());

    let p1_after = store.get_tests_by_patient("p1".to_string());
    assert_eq!(p1_after.len(), 1);
    assert!(same_record(&p1_after[0], &a));
}

#[test]
fn query_order_is_ascending_id_order_whatever_the_creation_order() {
    let mut store = TestStore::new();
    store.create_test(record("b", "p1", "d1", "pending"));
    store.create_test(record("a", "p1", "d1", "pending"));
    store.create_test(record("c", "p1", "d1", "pending"));
    let ids: Vec<String> =
        store.get_tests_by_patient("p1".to_string()).iter().map(|t| t.id.clone()).collect();
    assert_eq!(ids, vec!["a".to_string(), "b".to_string(), "c".to_string()]);
    let again: Vec<String> =
        store.get_tests_by_patient("p1".to_string()).iter().map(|t| t.id.clone()).collect();
    assert_eq!(ids, again);
}

#[test]
fn id_order_is_lexicographic_not_numeric() {
    let mut store = TestStore::new();
    store.create_test(record("2", "p1", "d1", "pending"));
    store.create_test(record("10", "p1", "d1", "pending"));
    let ids: Vec<String> =
        store.get_tests_by_patient("p1".to_string()).iter().map(|t| t.id.clone()).collect();
    assert_eq!(ids, vec!["10".to_string(), "2".to_string()]);
}
