use block_employ::codec::JobPayload;
use block_employ::errors::Error;
use block_employ::store::JobStore;

fn payload(title: &str, description: &str, skills: &[&str]) -> JobPayload {
    JobPayload {
        title: String::from(title),
        description: String::from(description),
        skills_required: skills.iter().map(|s| String::from(*s)).collect(),
    }
}

#[test]
fn scenario_create_update_delete_restart() {
    let mut store = JobStore::new();

    let j0 = store
        .add_job(payload("Engineer", "Build things", &["Rust"]), 111)
        .unwrap();
    assert_eq!(j0.id, 0);
    assert_eq!(j0.created_at, 111);
    assert_eq!(j0.title, "Engineer");

    let j1 = store
        .add_job(payload("Analyst", "Analyze data", &["Math"]), 222)
        .unwrap();
    assert_eq!(j1.id, 1);

    let updated = store
        .update_job(0, payload("Senior Engineer", "Build things", &["Rust"]))
        .unwrap();
    assert_eq!(updated.id, 0);
    assert_eq!(updated.title, "Senior Engineer");
    assert_eq!(updated.created_at, 111);

    let deleted = store.delete_job(1).unwrap();
    assert_eq!(deleted.id, 1);
    assert_eq!(deleted.title, "Analyst");
    assert_eq!(store.get_job(1), Err(Error::NotFound { id: 1 }));

    // Reopen against the same backing memory: the updated record survives.
    let backing = store.into_backing();
    let store2 = JobStore::open(backing).unwrap();
    let j = store2.get_job(0).unwrap();
    assert_eq!(j.id, 0);
    assert_eq!(j.title, "Senior Engineer");
    assert_eq!(j.description, "Build things");
    assert_eq!(j.skills_required, vec![String::from("Rust")]);
    assert_eq!(j.created_at, 111);
    assert_eq!(store2.get_job(1), Err(Error::NotFound { id: 1 }));
}

#[test]
fn ids_are_distinct_and_strictly_increasing() {
    let mut store = JobStore::new();
    let mut ids = Vec::new();
    for i in 0..10u64 {
        let j = store
            .add_job(payload("T", "D", &[]), 1000 + i)
            .unwrap();
        ids.push(j.id);
    }
    for i in 0..ids.len() {
        for j in (i + 1)..ids.len() {
            assert!(ids[i] < ids[j]);
        }
    }
    assert_eq!(ids, (0..10u64).collect::<Vec<u64>>());
}

#[test]
fn never_issued_id_yields_not_found() {
    let mut store = JobStore::new();
    assert_eq!(store.get_job(0), Err(Error::NotFound { id: 0 }));
    assert_eq!(store.get_job(7), Err(Error::NotFound { id: 7 }));
    assert_eq!(
        store.update_job(3, payload("X", "Y", &[])),
        Err(Error::NotFound { id: 3 })
    );
    assert_eq!(store.delete_job(99), Err(Error::NotFound { id: 99 }));
    store.add_job(payload("A", "B", &[]), 1).unwrap();
    assert_eq!(store.get_job(1), Err(Error::NotFound { id: 1 }));
}

#[test]
fn oversized_record_is_rejected_and_store_unchanged() {
    let mut store = JobStore::new();
    let good = store.add_job(payload("Engineer", "ok", &[]), 5).unwrap();
    assert_eq!(good.id, 0);

    let huge = "x".repeat(2000);
    let res = store.add_job(payload("Too big", &huge, &[]), 6);
    assert_eq!(res, Err(Error::SizeExceeded));

    // No id was consumed and no record written.
    let next = store.add_job(payload("Next", "fits", &[]), 7).unwrap();
    assert_eq!(next.id, 1);

    // An oversized update leaves the old record intact.
    let res = store.update_job(0, payload("Engineer", &huge, &[]));
    assert_eq!(res, Err(Error::SizeExceeded));
    let still = store.get_job(0).unwrap();
    assert_eq!(still.description, "ok");
}

#[test]
fn durability_after_every_kind_of_operation() {
    let mut store = JobStore::new();
    store.add_job(payload("A", "a", &["s1"]), 1).unwrap();
    store.add_job(payload("B", "b", &["s2"]), 2).unwrap();
    store.add_job(payload("C", "c", &[]), 3).unwrap();
    store.delete_job(1).unwrap();
    store.update_job(2, payload("C2", "c2", &["s3"])).unwrap();

    let before_ids = store.job_ids();
    let a = store.get_job(0).unwrap();
    let c = store.get_job(2).unwrap();

    let store2 = JobStore::open(store.into_backing()).unwrap();
    assert_eq!(store2.job_ids(), before_ids);
    assert_eq!(store2.get_job(0).unwrap(), a);
    assert_eq!(store2.get_job(2).unwrap(), c);
    assert_eq!(store2.get_job(1), Err(Error::NotFound { id: 1 }));

    // New ids continue above everything issued before the restart.
    let mut store2 = store2;
    let j = store2.add_job(payload("D", "d", &[]), 9).unwrap();
    assert_eq!(j.id, 3);
}

#[test]
fn job_ids_are_ascending() {
    let mut store = JobStore::new();
    for i in 0..5u64 {
        store.add_job(payload("T", "D", &[]), i).unwrap();
    }
    store.delete_job(2).unwrap();
    assert_eq!(store.job_ids(), vec![0, 1, 3, 4]);
}

#[test]
fn open_rejects_garbage_backing() {
    assert_eq!(
        JobStore::open(vec![1, 2, 3]).err(),
        Some(Error::CorruptEncoding)
    );
}

#[test]
fn do_insert_and_get_job_helpers() {
    let mut store = JobStore::new();
    let created = store.add_job(payload("A", "a", &[]), 4).unwrap();
    let mut changed = created.clone();
    changed.title = String::from("A2");
    store.do_insert(&changed).unwrap();
    let read = store._get_job(0).unwrap();
    assert_eq!(read.title, "A2");
    assert_eq!(read.created_at, 4);
    assert!(store._get_job(1).is_none());
}
