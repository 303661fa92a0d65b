use database::btree::Record;
use database::web::{
    no_database, no_record, removed, upserted, Databases, Loaded, Removed, Status, Written,
};

fn rec(key: i32, value: &str) -> Record {
    Record { key, value: value.to_string() }
}

fn listed(dbs: &Databases, name: &str) -> Vec<(i32, String)> {
    dbs.list(name).data.unwrap().into_iter().map(|r| (r.key, r.value)).collect()
}

#[test]
fn connect_loads_the_records_of_the_file() {
    let mut dbs = Databases::new();
    assert!(!dbs.is_connected("shop"));
    let r = dbs.connect("shop", Loaded::Records(vec![rec(2, "b"), rec(1, "a"), rec(2, "c")]));
    assert_eq!(r.status, Status::Done);
    assert!(r.success);
    assert_eq!(r.message, "Connected to database: shop");
    assert!(r.data.is_none());
    assert!(dbs.is_connected("shop"));
    assert_eq!(listed(&dbs, "shop"), vec![(1, "a".to_string()), (2, "c".to_string())]);
}

#[test]
fn connect_makes_a_new_database_where_there_is_no_file() {
    let mut dbs = Databases::new();
    let r = dbs.connect("fresh", Loaded::Missing);
    assert_eq!(r.status, Status::Done);
    assert_eq!(r.message, "Created new database: fresh");
    assert!(listed(&dbs, "fresh").is_empty());
}

#[test]
fn connect_twice_keeps_the_database() {
    let mut dbs = Databases::new();
    dbs.connect("a", Loaded::Records(vec![rec(1, "one")]));
    let r = dbs.connect("a", Loaded::Records(vec![rec(9, "nine")]));
    assert_eq!(r.status, Status::Done);
    assert!(r.success);
    assert_eq!(r.message, "Already connected to database: a");
    assert_eq!(listed(&dbs, "a"), vec![(1, "one".to_string())]);
    let r = dbs.connect("a", Loaded::Failed("gone".to_string()));
    assert_eq!(r.message, "Already connected to database: a");
}

#[test]
fn connect_reports_a_failed_read() {
    let mut dbs = Databases::new();
    let r = dbs.connect("a", Loaded::Failed("permission denied".to_string()));
    assert_eq!(r.status, Status::InternalError);
    assert!(!r.success);
    assert_eq!(r.message, "Failed to connect to database: permission denied");
    assert!(!dbs.is_connected("a"));
}

#[test]
fn list_counts_the_records() {
    let mut dbs = Databases::new();
    dbs.connect("a", Loaded::Records((0..12).map(|i| rec(i, "v")).collect()));
    let r = dbs.list("a");
    assert_eq!(r.status, Status::Done);
    assert!(r.success);
    assert_eq!(r.message, "Retrieved 12 records");
    assert_eq!(r.data.unwrap().len(), 12);
    let r = dbs.list("b");
    assert_eq!(r.status, Status::NotFound);
    assert!(!r.success);
    assert_eq!(r.message, "Database 'b' not found");
    assert!(r.data.is_none());
}

#[test]
fn find_hands_out_the_record() {
    let mut dbs = Databases::new();
    dbs.connect("a", Loaded::Records(vec![rec(-4, "minus four")]));
    let r = dbs.find("a", -4);
    assert_eq!(r.status, Status::Done);
    assert_eq!(r.message, "Found record with key -4");
    let data = r.data.unwrap();
    assert_eq!(data.len(), 1);
    assert_eq!((data[0].key, data[0].value.as_str()), (-4, "minus four"));
    let r = dbs.find("a", 4);
    assert_eq!(r.status, Status::NotFound);
    assert_eq!(r.message, "Record with key 4 not found");
    assert!(r.data.is_none());
    let r = dbs.find("zzz", 4);
    assert_eq!(r.status, Status::NotFound);
    assert_eq!(r.message, "Database 'zzz' not found");
}

#[test]
fn upsert_says_whether_the_key_was_there() {
    let mut dbs = Databases::new();
    dbs.connect("a", Loaded::Missing);
    match dbs.upsert("a", 1, "one".to_string()) {
        Written::Save { records, updating } => {
            assert!(!updating);
            assert_eq!(records.len(), 1);
        }
        Written::NoDatabase => panic!("the database is connected"),
    }
    match dbs.upsert("a", 1, "uno".to_string()) {
        Written::Save { records, updating } => {
            assert!(updating);
            assert_eq!(records.len(), 1);
            assert_eq!(records[0].value, "uno");
        }
        Written::NoDatabase => panic!("the database is connected"),
    }
    assert!(matches!(dbs.upsert("b", 1, "x".to_string()), Written::NoDatabase));
    assert_eq!(listed(&dbs, "a"), vec![(1, "uno".to_string())]);
}

#[test]
fn remove_says_what_there_was() {
    let mut dbs = Databases::new();
    dbs.connect("a", Loaded::Records(vec![rec(1, "one"), rec(2, "two")]));
    assert!(matches!(dbs.remove("b", 1), Removed::NoDatabase));
    assert!(matches!(dbs.remove("a", 3), Removed::NoRecord));
    match dbs.remove("a", 1) {
        Removed::Save { records } => {
            assert_eq!(records.len(), 1);
            assert_eq!(records[0].key, 2);
        }
        _ => panic!("the record is there"),
    }
    assert_eq!(listed(&dbs, "a"), vec![(2, "two".to_string())]);
}

#[test]
fn databases_do_not_touch_each_other() {
    let mut dbs = Databases::new();
    dbs.connect("a", Loaded::Missing);
    dbs.connect("b", Loaded::Missing);
    dbs.upsert("a", 1, "in a".to_string());
    dbs.upsert("b", 1, "in b".to_string());
    dbs.upsert("b", 2, "also b".to_string());
    dbs.remove("a", 2);
    assert_eq!(listed(&dbs, "a"), vec![(1, "in a".to_string())]);
    assert_eq!(listed(&dbs, "b"), vec![(1, "in b".to_string()), (2, "also b".to_string())]);
}

#[test]
fn answers_after_saving() {
    let r = upserted(5, false, None);
    assert_eq!((r.status, r.success, r.message.as_str()), (Status::Done, true, "Inserted new record with key 5"));
    let r = upserted(5, true, None);
    assert_eq!((r.status, r.success, r.message.as_str()), (Status::Done, true, "Updated record with key 5"));
    let r = upserted(5, true, Some("disk full"));
    assert_eq!(
        (r.status, r.success, r.message.as_str()),
        (Status::InternalError, false, "Failed to save changes: disk full")
    );
    let r = removed(-7, None);
    assert_eq!((r.status, r.success, r.message.as_str()), (Status::Done, true, "Deleted record with key -7"));
    let r = removed(-7, Some("disk full"));
    assert_eq!(
        (r.status, r.success, r.message.as_str()),
        (Status::InternalError, false, "Failed to save changes: disk full")
    );
    let r = no_record(3);
    assert_eq!((r.status, r.success, r.message.as_str()), (Status::NotFound, false, "Record with key 3 not found"));
    let r = no_database("x");
    assert_eq!((r.status, r.success, r.message.as_str()), (Status::NotFound, false, "Database 'x' not found"));
}
