use flashcard_core::migrations::parse_i32;
use flashcard_core::migrations::pending_migrations;
use flashcard_core::migrations::sort_migrations;
use flashcard_core::migrations::Migration;

fn mig(version: i32, name: &str) -> Migration {
    Migration { version, name: name.to_string(), sql: format!("-- {}", name) }
}

#[test]
fn stems_parse_into_version_and_name() {
    let m = Migration::from_stem("001_init", "CREATE TABLE t (x INTEGER);".to_string()).unwrap();
    assert_eq!(m.version, 1);
    assert_eq!(m.name, "init");
    assert_eq!(m.sql, "CREATE TABLE t (x INTEGER);");

    // everything after the first underscore is the name
    let m = Migration::from_stem("12_add_review_history", String::new()).unwrap();
    assert_eq!(m.version, 12);
    assert_eq!(m.name, "add_review_history");

    assert!(Migration::from_stem("no-underscore", String::new()).is_none());
    assert!(Migration::from_stem("x_name", String::new()).is_none());
    assert!(Migration::from_stem("_name", String::new()).is_none());
}

#[test]
fn numerals_parse_like_signed_integers() {
    assert_eq!(parse_i32("0"), Some(0));
    assert_eq!(parse_i32("007"), Some(7));
    assert_eq!(parse_i32("-12"), Some(-12));
    assert_eq!(parse_i32("+12"), Some(12));
    assert_eq!(parse_i32("2147483647"), Some(i32::MAX));
    assert_eq!(parse_i32("-2147483648"), Some(i32::MIN));
    assert_eq!(parse_i32("2147483648"), None);
    assert_eq!(parse_i32("-2147483649"), None);
    assert_eq!(parse_i32("99999999999999999999"), None);
    assert_eq!(parse_i32(""), None);
    assert_eq!(parse_i32("-"), None);
    assert_eq!(parse_i32("+"), None);
    assert_eq!(parse_i32("12a"), None);
    assert_eq!(parse_i32("1 2"), None);
    assert_eq!(parse_i32("--1"), None);
}

#[test]
fn migrations_sort_by_version() {
    let v = vec![mig(3, "c"), mig(1, "a"), mig(2, "b")];
    let sorted = sort_migrations(v);
    let versions: Vec<i32> = sorted.iter().map(|m| m.version).collect();
    assert_eq!(versions, vec![1, 2, 3]);
    assert_eq!(sorted[0].name, "a");
}

#[test]
fn only_unapplied_migrations_are_pending() {
    let v = vec![mig(1, "a"), mig(2, "b"), mig(3, "c"), mig(4, "d")];
    let applied = vec![1, 3];
    let pending = pending_migrations(v, &applied);
    let versions: Vec<i32> = pending.iter().map(|m| m.version).collect();
    assert_eq!(versions, vec![2, 4]);

    let v = vec![mig(1, "a")];
    assert!(pending_migrations(v, &vec![1]).is_empty());
    let v = vec![mig(1, "a")];
    assert_eq!(pending_migrations(v, &Vec::new()).len(), 1);
}
