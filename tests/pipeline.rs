use squatternaut::classify::{is_placeholder_version, mentions_placeholder_word};
use squatternaut::index::{Owner, Snapshot, Version, VersionRow};
use squatternaut::leaderboard::{leaderboard, rank_accounts};
use squatternaut::name::CrateName;
use squatternaut::report::{attribute, reconcile, run, ReportRow};
use std::cmp::Ordering;

fn name(s: &str) -> CrateName {
    CrateName::new(s.to_string())
}

fn version(major: u64, minor: u64, patch: u64, pre: &str, build: &str) -> Version {
    Version {
        major,
        minor,
        patch,
        pre: pre.to_string(),
        build: build.to_string(),
    }
}

fn version_row(crate_id: u32, num: Version, created_at: i64, published_by: Option<u32>) -> VersionRow {
    VersionRow {
        crate_id,
        num,
        created_at,
        published_by,
    }
}

fn prior_row(n: &str, v: Option<Version>) -> ReportRow {
    ReportRow {
        name: name(n),
        user: String::new(),
        version: v,
    }
}

fn flagged_names(snapshot: &Snapshot, prior: &Vec<ReportRow>) -> Vec<String> {
    run(snapshot, prior)
        .outcome
        .rows
        .iter()
        .map(|r| r.name.as_str().to_string())
        .collect()
}

#[test]
fn names_equal_up_to_case_and_separator() {
    assert!(name("Serde_JSON").same(&name("serde-json")));
    assert!(name("serde-json") == name("SERDE_json"));
    assert_eq!(name("A_b").compare(&name("a-B")), Ordering::Equal);
    assert!(name("foo").equals_str("FOO"));
    assert!(!name("foo").same(&name("foo1")));
}

#[test]
fn names_order_by_folded_bytes() {
    assert_eq!(name("abc").compare(&name("abd")), Ordering::Less);
    assert_eq!(name("ab").compare(&name("abc")), Ordering::Less);
    assert_eq!(name("B").compare(&name("a")), Ordering::Greater);
    // '-' (45) sorts before digits and letters, and '_' folds to it.
    assert_eq!(name("a_b").compare(&name("a0")), Ordering::Less);
    assert_eq!(name("").compare(&name("")), Ordering::Equal);
}

#[test]
fn vocabulary_is_matched_ignoring_case() {
    assert!(mentions_placeholder_word("reserved"));
    assert!(mentions_placeholder_word("Alpha.PLACEHOLDER"));
    assert!(mentions_placeholder_word("unreleased"));
    assert!(!mentions_placeholder_word("alpha.1"));
    assert!(!mentions_placeholder_word(""));
    assert!(!mentions_placeholder_word("stu"));
    assert!(is_placeholder_version(&version(1, 0, 0, "reserved", "")));
    assert!(is_placeholder_version(&version(0, 0, 0, "", "Squatting")));
    assert!(!is_placeholder_version(&version(1, 0, 0, "", "")));
    assert!(!is_placeholder_version(&version(1, 0, 0, "rc.1", "sha.5114f85")));
}

#[test]
fn latest_version_replaced_only_when_strictly_newer() {
    let mut s = Snapshot::new();
    s.add_version(version_row(1, version(0, 1, 0, "", ""), 10, None));
    s.add_version(version_row(1, version(0, 2, 0, "", ""), 10, None));
    assert_eq!(s.latest_of(1).unwrap().num.minor, 1);
    s.add_version(version_row(1, version(0, 3, 0, "", ""), 11, None));
    assert_eq!(s.latest_of(1).unwrap().num.minor, 3);
    s.add_version(version_row(1, version(0, 4, 0, "", ""), 5, None));
    assert_eq!(s.latest_of(1).unwrap().num.minor, 3);
    assert!(s.latest_of(2).is_none());
}

#[test]
fn owners_are_ordered_and_deduplicated_and_teams_dropped() {
    let mut s = Snapshot::new();
    s.add_owner(1, Owner::User(7), 20);
    s.add_owner(1, Owner::User(5), 10);
    s.add_owner(1, Owner::User(7), 20);
    s.add_owner(1, Owner::Team(9), 5);
    s.add_owner(1, Owner::User(3), 20);
    assert_eq!(s.owners_of(1), vec![(10, 5), (20, 3), (20, 7)]);
    assert!(s.owners_of(2).is_empty());
}

#[test]
fn unknown_login_is_empty() {
    let mut s = Snapshot::new();
    s.add_user(4, "alice".to_string());
    assert_eq!(s.login_of(4), "alice");
    assert_eq!(s.login_of(5), "");
}

#[test]
fn superseded_flag_is_dropped() {
    let mut s = Snapshot::new();
    s.add_crate(1, name("taken"));
    s.add_version(version_row(1, version(0, 0, 1, "reserved", ""), 1, None));
    s.add_version(version_row(1, version(1, 0, 0, "", ""), 2, None));
    let prior = vec![prior_row("taken", Some(version(0, 0, 1, "reserved", "")))];
    assert!(flagged_names(&s, &prior).is_empty());
}

#[test]
fn unchanged_flag_survives() {
    let mut s = Snapshot::new();
    s.add_crate(1, name("held"));
    s.add_version(version_row(1, version(0, 1, 0, "", ""), 1, None));
    let prior = vec![
        prior_row("Held", Some(version(0, 1, 0, "", ""))),
        prior_row("gone", None),
    ];
    assert_eq!(flagged_names(&s, &prior), vec!["Held".to_string()]);
    let no_version = vec![prior_row("held", None)];
    assert_eq!(flagged_names(&s, &no_version), vec!["held".to_string()]);
}

#[test]
fn prior_row_without_versions_is_dropped() {
    let mut s = Snapshot::new();
    s.add_crate(1, name("empty-crate"));
    let prior = vec![prior_row("empty-crate", None)];
    assert!(flagged_names(&s, &prior).is_empty());
}

#[test]
fn placeholder_release_is_flagged_without_prior_report() {
    let mut s = Snapshot::new();
    s.add_crate(1, name("zeta"));
    s.add_crate(2, name("Alpha"));
    s.add_crate(3, name("genuine"));
    s.add_version(version_row(1, version(1, 0, 0, "reserved", ""), 1, None));
    s.add_version(version_row(2, version(0, 0, 0, "", "placeholder"), 1, None));
    s.add_version(version_row(3, version(1, 0, 0, "", ""), 1, None));
    assert_eq!(
        flagged_names(&s, &Vec::new()),
        vec!["Alpha".to_string(), "zeta".to_string()]
    );
}

#[test]
fn flagged_set_keeps_one_spelling_per_name() {
    let mut s = Snapshot::new();
    s.add_crate(1, name("my_crate"));
    s.add_version(version_row(1, version(0, 0, 0, "stub", ""), 1, None));
    let prior = vec![prior_row("MY-CRATE", None), prior_row("my-crate", None)];
    assert_eq!(flagged_names(&s, &prior), vec!["MY-CRATE".to_string()]);
}

#[test]
fn publisher_is_authoritative() {
    let a = attribute(Some(9), &vec![(1, 3), (2, 4)]);
    assert_eq!(a.publish_owner, Some(9));
    let mut all = a.all_owners.clone();
    all.sort();
    assert_eq!(all, vec![3, 4, 9]);
}

#[test]
fn single_owner_is_publisher() {
    let a = attribute(None, &vec![(5, 3)]);
    assert_eq!(a.publish_owner, Some(3));
    assert_eq!(a.all_owners, vec![3]);
}

#[test]
fn earliest_owner_wins_when_strictly_first() {
    let a = attribute(None, &vec![(1, 8), (2, 4)]);
    assert_eq!(a.publish_owner, Some(8));
}

#[test]
fn tied_owners_leave_publisher_unresolved() {
    let a = attribute(None, &vec![(1, 4), (1, 8)]);
    assert_eq!(a.publish_owner, None);
    let none = attribute(None, &Vec::new());
    assert_eq!(none.publish_owner, None);
    assert!(none.all_owners.is_empty());
}

#[test]
fn report_rows_carry_login_and_latest_version() {
    let mut s = Snapshot::new();
    s.add_crate(1, name("one"));
    s.add_crate(2, name("two"));
    s.add_version(version_row(1, version(0, 0, 1, "reserved", ""), 1, None));
    s.add_version(version_row(2, version(0, 0, 2, "reserved", ""), 1, None));
    s.add_owner(1, Owner::User(10), 1);
    s.add_owner(2, Owner::User(10), 1);
    s.add_owner(2, Owner::User(11), 1);
    s.add_user(10, "alice".to_string());
    s.add_user(11, "bob".to_string());
    let r = run(&s, &Vec::new());
    let rows = &r.outcome.rows;
    assert_eq!(rows.len(), 2);
    assert_eq!(rows[0].name.as_str(), "one");
    assert_eq!(rows[0].user, "alice");
    assert_eq!(rows[0].version.as_ref().unwrap().patch, 1);
    assert_eq!(rows[1].name.as_str(), "two");
    assert_eq!(rows[1].user, "");
    assert_eq!(rows[1].version.as_ref().unwrap().pre, "reserved");
    assert_eq!(r.leaderboard, vec![(10, 2), (11, 1)]);
}

#[test]
fn leaderboard_counts_all_owners_and_breaks_ties_by_id() {
    let lists = vec![vec![5, 2], vec![2], vec![7, 5], vec![9]];
    assert_eq!(rank_accounts(&lists), vec![(2, 2), (5, 2), (7, 1), (9, 1)]);
    assert!(rank_accounts(&Vec::new()).is_empty());
}

#[test]
fn leaderboard_shows_sixteen() {
    let lists: Vec<Vec<u32>> = (0..20u32).map(|i| vec![i]).collect();
    let top = leaderboard(&lists);
    assert_eq!(top.len(), 16);
    assert_eq!(top[0], (0, 1));
    assert_eq!(top[15], (15, 1));
}

#[test]
fn second_run_on_own_report_is_identical() {
    let mut s = Snapshot::new();
    s.add_crate(1, name("Reserved_Name"));
    s.add_crate(2, name("kept"));
    s.add_crate(3, name("plain"));
    s.add_version(version_row(1, version(0, 0, 0, "reserve", ""), 1, Some(20)));
    s.add_version(version_row(2, version(0, 1, 0, "", ""), 1, None));
    s.add_version(version_row(3, version(2, 0, 0, "", ""), 1, None));
    s.add_owner(2, Owner::User(21), 3);
    s.add_owner(2, Owner::User(20), 4);
    s.add_user(20, "carol".to_string());
    s.add_user(21, "dave".to_string());
    let prior = vec![prior_row("KEPT", Some(version(0, 1, 0, "", "")))];
    let first = run(&s, &prior);
    let again: Vec<ReportRow> = first
        .outcome
        .rows
        .iter()
        .map(|r| ReportRow {
            name: r.name.clone(),
            user: r.user.clone(),
            version: r.version.clone(),
        })
        .collect();
    let second = run(&s, &again);
    let show = |rows: &Vec<ReportRow>| -> Vec<(String, String)> {
        rows.iter()
            .map(|r| (r.name.as_str().to_string(), r.user.clone()))
            .collect()
    };
    assert_eq!(show(&first.outcome.rows), show(&second.outcome.rows));
    assert_eq!(
        show(&first.outcome.rows),
        vec![
            ("KEPT".to_string(), "dave".to_string()),
            ("Reserved_Name".to_string(), "carol".to_string())
        ]
    );
    assert_eq!(first.leaderboard, second.leaderboard);
    assert_eq!(first.leaderboard, vec![(20, 2), (21, 1)]);
}

#[test]
fn name_lookup_ignores_case_and_separator() {
    let mut s = Snapshot::new();
    s.add_crate(4, name("Foo_Bar"));
    s.add_crate(5, name("baz"));
    assert_eq!(s.id_of(&name("foo-bar")), Some(4));
    assert_eq!(s.id_of(&name("BAZ")), Some(5));
    assert_eq!(s.id_of(&name("qux")), None);
    assert_eq!(s.crate_count(), 2);
    assert_eq!(s.crate_at(1).name.as_str(), "baz");
}

#[test]
fn reconcile_orders_flags_by_folded_name() {
    let mut s = Snapshot::new();
    s.add_crate(1, name("b_x"));
    s.add_crate(2, name("B-A"));
    s.add_crate(3, name("a"));
    for id in 1..4u32 {
        s.add_version(version_row(id, version(0, 0, 0, "dummy", ""), 1, None));
    }
    let flagged = reconcile(&s, &Vec::new());
    assert_eq!(flagged.len(), 3);
    assert_eq!(flagged.get(0).name.as_str(), "a");
    assert_eq!(flagged.get(1).name.as_str(), "B-A");
    assert_eq!(flagged.get(2).name.as_str(), "b_x");
    assert_eq!(flagged.get(2).id, 1);
}
