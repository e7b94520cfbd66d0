use pbus::codec::{encode_config, parse_config};
use pbus::config::{check_config_update, check_registry_wf, Config, Database};
use pbus::engine::{check_cursors_covered, rows_cursor, EngineState, PollEngine};
use pbus::errors::PbusError;
use pbus::schedule::{due_targets, HitTargets};
use pbus::targets::{TableField, Target};

fn mk_target(name: &str, cursor: i64, last_updated: u64, last_checked: u64, enabled: bool) -> Target {
    Target::construct(name.to_string(), Vec::new(), cursor, last_updated, last_checked, enabled)
}

fn mk_db(name: &str, interval: u64, targets: Vec<Target>) -> Database {
    Database::new(
        "db.example".to_string(),
        5432,
        "poller".to_string(),
        name.to_string(),
        "pw".to_string(),
        targets,
        interval,
        0,
    )
}

#[test]
fn target_new_defaults() {
    let t = Target::new("orders".to_string(), 500);
    assert_eq!(t.get_name(), "orders");
    assert_eq!(t.get_last_id(), 0);
    assert_eq!(t.get_last_updated(), 500);
    assert_eq!(t.get_last_checked(), 500);
    assert!(t.get_enabled());
    assert!(t.get_fields().is_empty());
}

#[test]
fn target_add_field_upserts() {
    let mut t = Target::new("orders".to_string(), 0);
    t.add_field("id".to_string(), "integer".to_string());
    t.add_field("amount".to_string(), "numeric".to_string());
    t.add_field("id".to_string(), "bigint".to_string());
    assert_eq!(t.get_fields().len(), 2);
    assert_eq!(t.get_field("id".to_string()), Some(&"bigint".to_string()));
    assert_eq!(t.get_field("amount".to_string()), Some(&"numeric".to_string()));
    assert_eq!(t.get_field("missing".to_string()), None);
}

#[test]
fn target_set_fields_keeps_order_and_dedups() {
    let mut t = Target::new("orders".to_string(), 0);
    t.set_fields(vec![
        TableField { name: "a".to_string(), data_type: "text".to_string() },
        TableField { name: "b".to_string(), data_type: "int".to_string() },
        TableField { name: "a".to_string(), data_type: "bytea".to_string() },
    ]);
    assert_eq!(t.get_fields().len(), 2);
    assert_eq!(t.get_fields()[0].name, "a");
    assert_eq!(t.get_fields()[0].data_type, "bytea");
    assert_eq!(t.get_fields()[1].name, "b");
}

#[test]
fn target_setters_round() {
    let mut t = Target::new("orders".to_string(), 0);
    t.set_last_id(42);
    t.set_last_updated(100);
    t.set_last_checked(200);
    t.set_enabled(false);
    assert_eq!(t.get_last_id(), 42);
    assert_eq!(t.get_last_updated(), 100);
    assert_eq!(t.get_last_checked(), 200);
    assert!(!t.get_enabled());
}

#[test]
fn config_database_lookup() {
    let mut c = Config::new(Vec::new(), "/data/");
    c.add_database(mk_db("sales", 30, vec![mk_target("orders", 0, 0, 0, true)]));
    c.add_database(mk_db("crm", 60, Vec::new()));
    assert!(c.get_database(&"sales".to_string()).is_some());
    assert!(c.get_database(&"nope".to_string()).is_none());
    let names = c.get_database_names();
    assert_eq!(names, vec!["sales".to_string(), "crm".to_string()]);
    assert_eq!(c.get_base_path(), "/data/");
    assert_eq!(c.get_targets().len(), 1);
    assert_eq!(c.get_database_targets("sales".to_string()).unwrap().len(), 1);
    assert!(c.get_database_targets("nope".to_string()).is_none());
}

#[test]
fn database_target_accessors() {
    let mut d = mk_db("sales", 30, vec![mk_target("orders", 7, 11, 22, true)]);
    assert_eq!(d.get_target_last_id("orders".to_string()), Some(7));
    assert_eq!(d.get_target_last_updated("orders".to_string()), Some(11));
    assert_eq!(d.get_target_last_checked("orders".to_string()), Some(22));
    assert_eq!(d.get_target_update_interval("orders".to_string()), Some(30));
    assert_eq!(d.get_target_enabled("orders".to_string()), Some(true));
    assert_eq!(d.get_target_last_id("missing".to_string()), None);
    assert_eq!(d.set_target_last_id("orders".to_string(), &9), Ok(()));
    assert_eq!(d.set_target_last_id("orders".to_string(), &3), Err(PbusError::StaleCursor));
    assert_eq!(d.set_target_last_id("missing".to_string(), &3), Err(PbusError::NotFound));
    d.set_target_last_checked("orders".to_string(), 33);
    d.set_target_last_checked_time("orders".to_string(), 44);
    d.set_target_last_updated("orders".to_string(), 55);
    d.set_target_enabled("orders".to_string(), false);
    assert_eq!(d.get_target_last_id("orders".to_string()), Some(9));
    assert_eq!(d.get_target_last_checked("orders".to_string()), Some(44));
    assert_eq!(d.get_target_last_updated("orders".to_string()), Some(55));
    assert_eq!(d.get_target_enabled("orders".to_string()), Some(false));
    d.set_target_last_updated_time("orders".to_string(), 77);
    assert_eq!(d.get_target_last_updated_time("orders".to_string()), Some(77));
    assert_eq!(d.get_target_last_updated("orders".to_string()), Some(77));
    assert_eq!(d.get_update_interval(), 30);
    let mut t = Target::new("orders".to_string(), 0);
    t.add_field("id".to_string(), "integer".to_string());
    let d2 = mk_db("sales", 30, vec![t]);
    assert_eq!(
        d2.get_target_field("orders".to_string(), "id".to_string()),
        Some(&"integer".to_string())
    );
    assert_eq!(d2.get_target_fields("orders".to_string()).unwrap().len(), 1);
    assert!(d2.get_target("orders".to_string()).is_some());
    assert!(d2.get_target("missing".to_string()).is_none());
}

#[test]
fn replace_target_rejects_stale_cursor() {
    let mut c = Config::new(Vec::new(), "/data/");
    c.add_database(mk_db("sales", 30, vec![mk_target("orders", 10, 0, 0, true)]));
    let stale = mk_target("orders", 9, 0, 0, true);
    let r = c.replace_target(&"sales".to_string(), stale);
    assert_eq!(r, Err(PbusError::StaleCursor));
    let d = c.get_database(&"sales".to_string()).unwrap();
    assert_eq!(d.get_target_last_id("orders".to_string()), Some(10));
    let fresh = mk_target("orders", 12, 0, 0, true);
    assert_eq!(c.replace_target(&"sales".to_string(), fresh), Ok(()));
    let d = c.get_database(&"sales".to_string()).unwrap();
    assert_eq!(d.get_target_last_id("orders".to_string()), Some(12));
}

#[test]
fn replace_target_unknown_database() {
    let mut c = Config::new(Vec::new(), "/data/");
    let t = mk_target("orders", 1, 0, 0, true);
    assert_eq!(c.replace_target(&"nope".to_string(), t), Err(PbusError::NotFound));
}

#[test]
fn replace_target_inserts_new_target() {
    let mut c = Config::new(Vec::new(), "/data/");
    c.add_database(mk_db("sales", 30, Vec::new()));
    let t = mk_target("orders", 5, 0, 0, true);
    assert_eq!(c.replace_target(&"sales".to_string(), t), Ok(()));
    let d = c.get_database(&"sales".to_string()).unwrap();
    assert_eq!(d.get_target_last_id("orders".to_string()), Some(5));
}

#[test]
fn replace_database_by_name() {
    let mut c = Config::new(Vec::new(), "/data/");
    c.add_database(mk_db("sales", 30, Vec::new()));
    c.replace_database(mk_db("sales", 90, Vec::new()));
    assert_eq!(c.get_database(&"sales".to_string()).unwrap().get_update_interval(), 90);
    c.replace_database(mk_db("absent", 5, Vec::new()));
    assert!(c.get_database(&"absent".to_string()).is_none());
}

#[test]
fn due_set_interval_boundary() {
    let mut c = Config::new(Vec::new(), "/data/");
    c.add_database(mk_db("sales", 60, vec![mk_target("orders", 0, 0, 1000, true)]));
    assert!(due_targets(&c, 1059).is_empty());
    let due = due_targets(&c, 1060);
    assert_eq!(due, vec![("sales".to_string(), "orders".to_string())]);
    assert_eq!(due_targets(&c, 5000).len(), 1);
}

#[test]
fn due_set_skips_disabled() {
    let mut c = Config::new(Vec::new(), "/data/");
    c.add_database(mk_db("sales", 60, vec![mk_target("orders", 0, 0, 1000, false)]));
    assert!(due_targets(&c, 1060).is_empty());
    assert!(due_targets(&c, u64::MAX).is_empty());
}

#[test]
fn isolation_failed_target_does_not_block_sibling() {
    let mut c = Config::new(Vec::new(), "/data/");
    c.add_database(mk_db(
        "sales",
        30,
        vec![mk_target("alpha", 3, 0, 0, true), mk_target("beta", 8, 0, 0, true)],
    ));
    assert!(check_registry_wf(&c));
    let mut e = PollEngine::new(c);
    let db = "sales".to_string();
    let reported = e.handle_fetch_failure(&db, &"beta".to_string(), PbusError::QueryError);
    assert_eq!(reported, PbusError::QueryError);
    let r = e.handle_fetch_success(&db, &"alpha".to_string(), 15, 4, 500);
    assert_eq!(r, Ok(()));
    let w = e.get_working().get_database(&db).unwrap();
    assert_eq!(w.get_target_last_id("alpha".to_string()), Some(15));
    assert_eq!(w.get_target_last_id("beta".to_string()), Some(8));
    assert_eq!(w.get_target_last_checked("beta".to_string()), Some(0));
}

#[test]
fn reload_never_reverts_cursor() {
    let mut c = Config::new(Vec::new(), "/data/");
    c.add_database(mk_db("sales", 30, vec![mk_target("orders", 10, 0, 0, true)]));
    assert!(check_registry_wf(&c));
    let mut e = PollEngine::new(c);
    let db = "sales".to_string();
    assert_eq!(e.handle_fetch_success(&db, &"orders".to_string(), 25, 1, 700), Ok(()));
    e.request_reload();
    assert!(check_config_update(e.get_store()));
    let due = e.begin_cycle(800);
    assert!(due.is_empty());
    assert_eq!(e.get_state(), EngineState::ReloadPending);
    assert!(!check_config_update(e.get_store()));
    e.apply_reload();
    assert_eq!(e.get_state(), EngineState::Running);
    let w = e.get_working().get_database(&db).unwrap();
    assert_eq!(w.get_target_last_id("orders".to_string()), Some(25));
}

#[test]
fn round_trip_registry() {
    let mut t1 = mk_target("orders", 12, 100, 200, true);
    t1.add_field("id".to_string(), "integer".to_string());
    t1.add_field("note".to_string(), "text; with -42; punctuation".to_string());
    t1.add_field("café".to_string(), "tëxt".to_string());
    let t2 = mk_target("events", -3, 0, 0, false);
    let mut c = Config::new(Vec::new(), "/mnt/data/");
    c.add_database(mk_db("sales", 30, vec![t1, t2]));
    c.add_database(mk_db("crm", 60, Vec::new()));
    c.set_update(1);
    let doc = encode_config(&c);
    let back = parse_config(&doc).unwrap();
    assert_eq!(back.get_update(), 1);
    assert_eq!(back.get_base_path(), "/mnt/data/");
    assert_eq!(back.get_database_names(), c.get_database_names());
    let d = back.get_database(&"sales".to_string()).unwrap();
    assert_eq!(d.database_host, "db.example");
    assert_eq!(d.server_port, 5432);
    assert_eq!(d.database_user, "poller");
    assert_eq!(d.database_password, "pw");
    assert_eq!(d.get_update_interval(), 30);
    assert_eq!(d.get_target_last_id("orders".to_string()), Some(12));
    assert_eq!(d.get_target_last_updated("orders".to_string()), Some(100));
    assert_eq!(d.get_target_last_checked("orders".to_string()), Some(200));
    assert_eq!(d.get_target_enabled("orders".to_string()), Some(true));
    assert_eq!(
        d.get_target_field("orders".to_string(), "note".to_string()),
        Some(&"text; with -42; punctuation".to_string())
    );
    assert_eq!(
        d.get_target_field("orders".to_string(), "café".to_string()),
        Some(&"tëxt".to_string())
    );
    assert_eq!(d.get_target_last_id("events".to_string()), Some(-3));
    assert_eq!(d.get_target_enabled("events".to_string()), Some(false));
    let crm = back.get_database(&"crm".to_string()).unwrap();
    assert_eq!(crm.get_targets().len(), 0);
}

#[test]
fn encode_exact_document() {
    let c = Config::new(Vec::new(), "p");
    assert_eq!(encode_config(&c), "0;1;p0;");
    let mut c2 = Config::new(Vec::new(), "ab");
    c2.set_update(-1);
    assert_eq!(encode_config(&c2), "-1;2;ab0;");
}

#[test]
fn parse_rejects_garbage() {
    assert!(matches!(parse_config("nonsense"), Err(PbusError::ConfigCorrupt)));
    assert!(matches!(parse_config(""), Err(PbusError::ConfigCorrupt)));
    assert!(matches!(parse_config("0;1;p0;trailing"), Err(PbusError::ConfigCorrupt)));
    assert!(parse_config("0;1;p0;").is_ok());
}

#[test]
fn scenario_orders_two_rows() {
    let now: u64 = 10_000;
    let mut c = Config::new(Vec::new(), "/data/");
    c.add_database(mk_db("sales", 30, vec![mk_target("orders", 10, 0, now - 40, true)]));
    assert!(check_registry_wf(&c));
    let mut e = PollEngine::new(c);
    let due = e.begin_cycle(now);
    assert_eq!(due, vec![("sales".to_string(), "orders".to_string())]);
    let rows: Vec<i64> = vec![11, 12];
    let new_cursor = rows_cursor(10, &rows);
    assert_eq!(new_cursor, 12);
    let r = e.handle_fetch_success(&"sales".to_string(), &"orders".to_string(), new_cursor, rows.len(), now);
    assert_eq!(r, Ok(()));
    let w = e.get_working().get_database(&"sales".to_string()).unwrap();
    assert_eq!(w.get_target_last_id("orders".to_string()), Some(12));
    assert_eq!(w.get_target_last_checked("orders".to_string()), Some(now));
    assert_eq!(w.get_target_last_updated("orders".to_string()), Some(now));
    let s = e.get_store().get_database(&"sales".to_string()).unwrap();
    assert_eq!(s.get_target_last_id("orders".to_string()), Some(12));
    assert!(due_targets(e.get_working(), now + 29).is_empty());
    assert_eq!(due_targets(e.get_working(), now + 30).len(), 1);
}

#[test]
fn scenario_orders_timeout() {
    let now: u64 = 10_000;
    let mut c = Config::new(Vec::new(), "/data/");
    c.add_database(mk_db(
        "sales",
        30,
        vec![mk_target("orders", 10, 0, now - 40, true), mk_target("refunds", 2, 0, now - 40, true)],
    ));
    assert!(check_registry_wf(&c));
    let mut e = PollEngine::new(c);
    let due = e.begin_cycle(now);
    assert_eq!(due.len(), 2);
    let reported =
        e.handle_fetch_failure(&"sales".to_string(), &"orders".to_string(), PbusError::FetchTimeout);
    assert_eq!(reported, PbusError::FetchTimeout);
    let w = e.get_working().get_database(&"sales".to_string()).unwrap();
    assert_eq!(w.get_target_last_id("orders".to_string()), Some(10));
    assert_eq!(w.get_target_last_checked("orders".to_string()), Some(now - 40));
    let r = e.handle_fetch_success(&"sales".to_string(), &"refunds".to_string(), 6, 3, now);
    assert_eq!(r, Ok(()));
    let w = e.get_working().get_database(&"sales".to_string()).unwrap();
    assert_eq!(w.get_target_last_id("refunds".to_string()), Some(6));
    assert_eq!(due_targets(e.get_working(), now).len(), 1);
}

#[test]
fn engine_rejects_stale_and_unknown() {
    let mut c = Config::new(Vec::new(), "/data/");
    c.add_database(mk_db("sales", 30, vec![mk_target("orders", 10, 0, 0, true)]));
    assert!(check_registry_wf(&c));
    let mut e = PollEngine::new(c);
    let db = "sales".to_string();
    assert_eq!(
        e.handle_fetch_success(&db, &"orders".to_string(), 9, 1, 100),
        Err(PbusError::StaleCursor)
    );
    assert_eq!(
        e.handle_fetch_success(&db, &"ghost".to_string(), 9, 1, 100),
        Err(PbusError::NotFound)
    );
    let w = e.get_working().get_database(&db).unwrap();
    assert_eq!(w.get_target_last_id("orders".to_string()), Some(10));
    e.stop();
    assert_eq!(e.get_state(), EngineState::Stopped);
}

#[test]
fn hit_targets_schedule_entry() {
    let mut h = HitTargets::new("orders".to_string(), "sales".to_string(), 30, 1000);
    assert_eq!(h.get_name(), "orders");
    assert_eq!(h.get_database_name(), "sales");
    assert_eq!(h.get_last_hit(), 1000);
    assert_eq!(h.get_interval(), 30);
    assert_eq!(h.get_next_hit(), 1030);
    h.set_last_hit(2000);
    h.set_next_hit(2030);
    assert_eq!(h.get_last_hit(), 2000);
    assert_eq!(h.get_next_hit(), 2030);
    let copy = h.copy();
    assert_eq!(copy.get_name(), "orders");
    assert_eq!(copy.get_next_hit(), 2030);
    let sat = HitTargets::new("t".to_string(), "d".to_string(), 10, u64::MAX - 3);
    assert_eq!(sat.get_next_hit(), u64::MAX);
}

#[test]
fn reload_flag_cycle() {
    let mut c = Config::new(Vec::new(), "/data/");
    assert!(!check_config_update(&c));
    c.mark_reload_pending();
    assert!(check_config_update(&c));
    assert_eq!(c.get_update(), 1);
    assert!(c.consume_reload_flag());
    assert!(!check_config_update(&c));
    assert!(!c.consume_reload_flag());
    c.set_update(1);
    assert!(check_config_update(&c));
    c.set_base_path("/other/".to_string());
    assert_eq!(c.get_base_path(), "/other/");
}

#[test]
fn registry_wf_detects_duplicates() {
    let mut good = Config::new(Vec::new(), "/data/");
    good.add_database(mk_db("sales", 30, vec![mk_target("a", 0, 0, 0, true)]));
    assert!(check_registry_wf(&good));
    let mut dup_targets = Config::new(Vec::new(), "/data/");
    dup_targets.add_database(mk_db(
        "sales",
        30,
        vec![mk_target("a", 0, 0, 0, true), mk_target("a", 1, 0, 0, true)],
    ));
    assert!(!check_registry_wf(&dup_targets));
    let mut dup_dbs = Config::new(Vec::new(), "/data/");
    dup_dbs.add_database(mk_db("sales", 30, Vec::new()));
    dup_dbs.add_database(mk_db("sales", 60, Vec::new()));
    assert!(!check_registry_wf(&dup_dbs));
}

#[test]
fn rows_cursor_folds_maximum() {
    assert_eq!(rows_cursor(10, &Vec::new()), 10);
    assert_eq!(rows_cursor(10, &vec![11, 12]), 12);
    assert_eq!(rows_cursor(10, &vec![7, 3]), 10);
    assert_eq!(rows_cursor(-5, &vec![-9, -1]), -1);
}

#[test]
fn set_databases_replaces_all() {
    let mut c = Config::new(vec![mk_db("sales", 30, Vec::new())], "/data/");
    c.set_databases(vec![mk_db("crm", 60, Vec::new()), mk_db("hr", 90, Vec::new())]);
    assert_eq!(c.get_database_names(), vec!["crm".to_string(), "hr".to_string()]);
    assert_eq!(c.get_databases().len(), 2);
}

#[test]
fn external_reload_respects_cursors() {
    let mut c = Config::new(Vec::new(), "/data/");
    c.add_database(mk_db("sales", 30, vec![mk_target("orders", 10, 0, 0, true)]));
    assert!(check_registry_wf(&c));
    let mut e = PollEngine::new(c);
    let db = "sales".to_string();
    assert_eq!(e.handle_fetch_success(&db, &"orders".to_string(), 25, 1, 700), Ok(()));

    let mut behind = Config::new(Vec::new(), "/data/");
    behind.add_database(mk_db("sales", 30, vec![mk_target("orders", 5, 0, 0, true)]));
    assert!(check_registry_wf(&behind));
    assert!(!check_cursors_covered(e.get_working(), &behind));
    assert_eq!(e.reload_store(behind), Err(PbusError::StaleCursor));
    let s = e.get_store().get_database(&db).unwrap();
    assert_eq!(s.get_target_last_id("orders".to_string()), Some(25));

    let mut edited = Config::new(Vec::new(), "/data/");
    edited.add_database(mk_db("sales", 60, vec![mk_target("orders", 30, 0, 0, true)]));
    edited.mark_reload_pending();
    assert!(check_registry_wf(&edited));
    assert!(check_cursors_covered(e.get_working(), &edited));
    assert_eq!(e.reload_store(edited), Ok(()));
    let due = e.begin_cycle(900);
    assert!(due.is_empty());
    assert_eq!(e.get_state(), EngineState::ReloadPending);
    e.apply_reload();
    assert_eq!(e.get_state(), EngineState::Running);
    let w = e.get_working().get_database(&db).unwrap();
    assert_eq!(w.get_target_last_id("orders".to_string()), Some(30));
    assert_eq!(w.get_update_interval(), 60);
}
