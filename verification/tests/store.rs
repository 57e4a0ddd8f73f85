use crates_io_cli::error::StoreError;
use crates_io_cli::model::{ChangeKind, Context, CrateVersion};
use crates_io_cli::persistence::{
    context_key_for_day, get, insert, update, upsert, CratesTree, Store, TreeAccess,
};

fn event(name: &str, version: &str) -> CrateVersion {
    CrateVersion {
        name: name.to_owned(),
        version: version.to_owned(),
        kind: ChangeKind::Added,
    }
}

fn open_store(tag: &str) -> Store {
    let stamp = std::time::SystemTime::now()
        .duration_since(std::time::UNIX_EPOCH)
        .expect("clock is past the epoch");
    let path = format!(
        "/tmp/crates_io_cli_test_{}_{}_{}",
        tag,
        stamp.as_secs(),
        stamp.subsec_nanos()
    );
    Store::open(&path).expect("store opens")
}

#[test]
fn new_crate_detection_and_sorted_versions() {
    let store = open_store("detect");
    let crates: CratesTree = store.open_crates().expect("crates partition opens");

    let first = upsert(&crates, &event("foo", "1.0.0")).expect("first upsert works");
    let second = upsert(&crates, &event("foo", "0.9.0")).expect("second upsert works");
    let third = upsert(&crates, &event("foo", "1.0.0")).expect("third upsert works");
    assert_eq!(first, true);
    assert_eq!(second, false);
    assert_eq!(third, false);

    let key = b"foo".to_vec();
    let stored = get(&crates, &key).expect("get works").expect("record exists");
    let versions: Vec<&str> = stored.versions.iter().map(|s| s.as_str()).collect();
    assert_eq!(versions, vec!["0.9.0", "1.0.0"]);
}

#[test]
fn upsert_is_idempotent() {
    let store = open_store("idem");
    let crates = store.open_crates().expect("crates partition opens");

    upsert(&crates, &event("bar", "0.3.1")).expect("upsert works");
    let once = get(&crates, &b"bar".to_vec())
        .expect("get works")
        .expect("record exists");
    for _ in 0..3 {
        upsert(&crates, &event("bar", "0.3.1")).expect("upsert works");
    }
    let thrice = get(&crates, &b"bar".to_vec())
        .expect("get works")
        .expect("record exists");
    assert_eq!(once.versions, thrice.versions);
    assert_eq!(thrice.versions.len(), 1);
}

#[test]
fn repeating_the_only_event_of_a_crate_reports_new_again() {
    // The new-crate flag reports whether the record holds exactly one
    // version after the write, so replaying the single known version of
    // a crate reports it as new once more.
    let store = open_store("repeat_single");
    let crates = store.open_crates().expect("crates partition opens");
    assert_eq!(upsert(&crates, &event("solo", "1.0.0")).expect("upsert works"), true);
    assert_eq!(upsert(&crates, &event("solo", "1.0.0")).expect("upsert works"), true);
    assert_eq!(upsert(&crates, &event("solo", "2.0.0")).expect("upsert works"), false);
}

#[test]
fn versions_stay_sorted_whatever_the_arrival_order() {
    let store = open_store("sorted");
    let crates = store.open_crates().expect("crates partition opens");
    for v in ["2.0.0", "0.1.0", "1.5.0", "0.0.9", "1.5.0"] {
        upsert(&crates, &event("baz", v)).expect("upsert works");
    }
    let stored = get(&crates, &b"baz".to_vec())
        .expect("get works")
        .expect("record exists");
    let versions: Vec<&str> = stored.versions.iter().map(|s| s.as_str()).collect();
    assert_eq!(versions, vec!["0.0.9", "0.1.0", "1.5.0", "2.0.0"]);
}

#[test]
fn crate_versions_store_the_payload() {
    let store = open_store("cv");
    let tree = store.open_crate_versions().expect("partition opens");
    let ev = CrateVersion {
        name: "foo".to_owned(),
        version: "1.0.0".to_owned(),
        kind: ChangeKind::Yanked,
    };
    upsert(&tree, &ev).expect("upsert works");
    let key = b"foo:1.0.0".to_vec();
    let stored = get(&tree, &key).expect("get works").expect("record exists");
    assert_eq!(stored.name, "foo");
    assert_eq!(stored.version, "1.0.0");
    assert_eq!(stored.kind, ChangeKind::Yanked);

    // re-observation overwrites idempotently
    upsert(&tree, &ev).expect("upsert works");
    let again = get(&tree, &key).expect("get works").expect("record exists");
    assert_eq!(again, stored);
}

#[test]
fn insert_overwrites_without_reading() {
    let store = open_store("ins");
    let tree = store.open_crate_versions().expect("partition opens");
    let ev = event("quux", "0.2.0");
    insert(&tree, &ev).expect("insert works");
    let stored = get(&tree, &b"quux:0.2.0".to_vec())
        .expect("get works")
        .expect("record exists");
    assert_eq!(stored.version, "0.2.0");
}

#[test]
fn context_updates_on_one_simulated_day_add_up() {
    let store = open_store("ctx_add");
    let ctx = store.context().expect("context partition opens");
    let day = context_key_for_day("2020-02-01");

    update(&ctx, &day, |mut c: Context| {
        c.errors += 1;
        c
    })
    .expect("first update works");
    let after = update(&ctx, &day, |mut c: Context| {
        c.errors += 2;
        c
    })
    .expect("second update works");
    assert_eq!(after.errors, 3);
    assert_eq!(after.new_crates, 0);
}

#[test]
fn context_merge_adds_counters_via_upsert() {
    let store = open_store("ctx_upsert");
    let ctx = store.context().expect("context partition opens");
    // upsert keys context records by the wall-clock day, so both writes
    // land on the same key and their counters merge by addition.
    upsert(
        &ctx,
        &Context {
            new_crates: 2,
            new_crate_versions: 5,
            errors: 1,
        },
    )
    .expect("first upsert works");
    upsert(
        &ctx,
        &Context {
            new_crates: 1,
            new_crate_versions: 7,
            errors: 2,
        },
    )
    .expect("second upsert works");
    let days = ctx.iter().expect("iteration works");
    assert_eq!(days.len(), 1);
    let (day, total) = &days[0];
    assert!(day.starts_with("context/"));
    assert_eq!(day.len(), "context/".len() + 10);
    assert_eq!(total.new_crates, 3);
    assert_eq!(total.new_crate_versions, 12);
    assert_eq!(total.errors, 3);
}

#[test]
fn different_days_never_merge() {
    let store = open_store("ctx_days");
    let ctx = store.context().expect("context partition opens");
    let d1 = context_key_for_day("2020-02-01");
    let d2 = context_key_for_day("2020-02-02");
    update(&ctx, &d1, |mut c: Context| {
        c.errors += 1;
        c
    })
    .expect("update works");
    update(&ctx, &d2, |mut c: Context| {
        c.errors += 2;
        c
    })
    .expect("update works");
    let days = ctx.iter().expect("iteration works");
    assert_eq!(days.len(), 2);
    assert_eq!(days[0].0, "context/2020-02-01");
    assert_eq!(days[0].1.errors, 1);
    assert_eq!(days[1].0, "context/2020-02-02");
    assert_eq!(days[1].1.errors, 2);
}

#[test]
fn update_today_reaches_todays_record() {
    let store = open_store("today");
    let ctx = store.context().expect("context partition opens");
    let c = ctx
        .update_today(|mut c: Context| {
            c.new_crate_versions += 4;
            c
        })
        .expect("update_today works");
    assert_eq!(c.new_crate_versions, 4);
}

#[test]
fn opening_an_impossible_path_reports_io() {
    let result = Store::open("/dev/null/not-a-directory");
    match result {
        Err(StoreError::Io(_)) => {}
        Err(other) => panic!("unexpected error kind: {}", other.kind_str()),
        Ok(_) => panic!("open should fail"),
    }
}

#[test]
fn error_kinds_have_labels() {
    assert_eq!(StoreError::Serialization.kind_str(), "serialization");
    assert_eq!(StoreError::Bug("invariant").kind_str(), "bug");
}

#[test]
fn merge_is_pure_and_observable() {
    let store = open_store("puremerge");
    let crates = store.open_crates().expect("crates partition opens");
    let merged = crates
        .merge(&event("m", "1.0.0"), None)
        .expect("merge always yields a record");
    assert_eq!(merged.versions, vec!["1.0.0".to_owned()]);
    let merged2 = crates
        .merge(&event("m", "0.5.0"), Some(merged))
        .expect("merge always yields a record");
    assert_eq!(
        merged2.versions,
        vec!["0.5.0".to_owned(), "1.0.0".to_owned()]
    );
}
