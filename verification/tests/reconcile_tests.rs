use spacehub::folders::RoomMetadata;
use spacehub::folders::SpaceFolder;
use spacehub::folders::UserMetadata;
use spacehub::reconcile::ADMIN_POWER_LEVEL;
use spacehub::reconcile::LocateKey;
use spacehub::reconcile::MemberState;
use spacehub::reconcile::ReportEntry;
use spacehub::reconcile::RoomAction;
use spacehub::reconcile::RoomOutcome;
use spacehub::reconcile::desired_members;
use spacehub::reconcile::diff_membership;
use spacehub::reconcile::ensure_user_action;
use spacehub::reconcile::exit_code;
use spacehub::reconcile::extend_protected;
use spacehub::reconcile::locate_key;
use spacehub::reconcile::room_action;

fn member(mxid: &str, power_level: i32) -> MemberState {
    MemberState {
        mxid: mxid.to_string(),
        power_level,
    }
}

fn user(mxid: &str, power_level: i32) -> UserMetadata {
    UserMetadata {
        mxid: mxid.to_string(),
        power_level,
        external_ids: vec![],
    }
}

fn room_with_users(users: Vec<UserMetadata>, admins: Vec<&str>) -> RoomMetadata {
    let mut r = RoomMetadata::default();
    r.alias = Some("#room:example.org".to_string());
    r.users = users;
    r.admins = admins.into_iter().map(|a| a.to_string()).collect();
    r
}

#[test]
fn second_run_plans_nothing() {
    let desired = vec![member("@alice:example.org", 50), member("@bob:example.org", 0)];
    let live = vec![member("@bob:example.org", 0), member("@alice:example.org", 50)];
    let plan = diff_membership(&desired, &live, &vec![]);
    assert!(plan.adds.is_empty());
    assert!(plan.power_changes.is_empty());
    assert!(plan.removes.is_empty());
}

#[test]
fn new_members_are_added_at_their_level() {
    let desired = vec![member("@alice:example.org", 50), member("@bob:example.org", 0)];
    let live = vec![member("@alice:example.org", 50)];
    let plan = diff_membership(&desired, &live, &vec![]);
    assert_eq!(plan.adds.len(), 1);
    assert_eq!(plan.adds[0].mxid, "@bob:example.org");
    assert_eq!(plan.adds[0].power_level, 0);
    assert!(plan.power_changes.is_empty());
    assert!(plan.removes.is_empty());
}

#[test]
fn dropped_member_is_removed_exactly_once() {
    let desired = vec![member("@alice:example.org", 50)];
    let live = vec![member("@alice:example.org", 50), member("@bob:example.org", 0)];
    let plan = diff_membership(&desired, &live, &vec![]);
    assert!(plan.adds.is_empty());
    assert!(plan.power_changes.is_empty());
    assert_eq!(plan.removes, vec!["@bob:example.org".to_string()]);
}

#[test]
fn ancestor_admin_is_never_removed() {
    let desired = vec![];
    let live = vec![member("@root-admin:example.org", 100)];
    let protected = vec!["@root-admin:example.org".to_string()];
    let plan = diff_membership(&desired, &live, &protected);
    assert!(plan.removes.is_empty());
}

#[test]
fn changed_level_is_set_to_the_desired_value() {
    let desired = vec![member("@alice:example.org", 50)];
    let live = vec![member("@alice:example.org", 0)];
    let plan = diff_membership(&desired, &live, &vec![]);
    assert!(plan.adds.is_empty());
    assert_eq!(plan.power_changes.len(), 1);
    assert_eq!(plan.power_changes[0].mxid, "@alice:example.org");
    assert_eq!(plan.power_changes[0].power_level, 50);
    assert!(plan.removes.is_empty());
}

#[test]
fn staff_group_at_fifty_adds_both_members() {
    let room = room_with_users(
        vec![user("@alice:example.org", 50), user("@bob:example.org", 50)],
        vec![],
    );
    let desired = desired_members(&room);
    let plan = diff_membership(&desired, &vec![], &vec![]);
    assert_eq!(plan.adds.len(), 2);
    let mut added: Vec<(String, i32)> = plan
        .adds
        .iter()
        .map(|m| (m.mxid.clone(), m.power_level))
        .collect();
    added.sort();
    assert_eq!(
        added,
        vec![
            ("@alice:example.org".to_string(), 50),
            ("@bob:example.org".to_string(), 50)
        ]
    );
    assert!(plan.removes.is_empty());
}

#[test]
fn admins_get_the_admin_level() {
    let room = room_with_users(vec![], vec!["@boss:example.org"]);
    let desired = desired_members(&room);
    assert_eq!(desired.len(), 1);
    assert_eq!(desired[0].mxid, "@boss:example.org");
    assert_eq!(desired[0].power_level, ADMIN_POWER_LEVEL);
}

#[test]
fn highest_level_wins_for_a_repeated_account() {
    let room = room_with_users(
        vec![user("@alice:example.org", 10), user("@alice:example.org", 20)],
        vec![],
    );
    let desired = desired_members(&room);
    assert_eq!(desired.len(), 1);
    assert_eq!(desired[0].power_level, 20);
    let admin_room = room_with_users(vec![user("@boss:example.org", 50)], vec!["@boss:example.org"]);
    let desired2 = desired_members(&admin_room);
    assert_eq!(desired2.len(), 1);
    assert_eq!(desired2[0].power_level, ADMIN_POWER_LEVEL);
}

#[test]
fn id_takes_precedence_for_lookup() {
    let mut r = RoomMetadata::default();
    r.id = Some("!abc:example.org".to_string());
    r.alias = Some("#abc:example.org".to_string());
    match locate_key(&r) {
        Some(LocateKey::ById(id)) => assert_eq!(id, "!abc:example.org"),
        other => panic!("expected lookup by id, got {:?}", other.is_some()),
    }
    let mut alias_only = RoomMetadata::default();
    alias_only.alias = Some("#abc:example.org".to_string());
    match locate_key(&alias_only) {
        Some(LocateKey::ByAlias(a)) => assert_eq!(a, "#abc:example.org"),
        _ => panic!("expected lookup by alias"),
    }
    assert!(locate_key(&RoomMetadata::default()).is_none());
}

#[test]
fn alias_only_room_not_found_creates_once() {
    let mut r = RoomMetadata::default();
    r.alias = Some("#new:example.org".to_string());
    r.extra_aliases = vec!["#other:example.org".to_string()];
    match room_action(&r, None, false, None) {
        RoomAction::Create(c) => {
            assert_eq!(c.alias.as_deref(), Some("#new:example.org"));
            assert_eq!(c.extra_aliases, vec!["#other:example.org".to_string()]);
            assert_eq!(c.visibility, "private");
            assert!(!c.is_space);
            assert!(c.parent.is_none());
        }
        RoomAction::Use(_) => panic!("a room that was not found must be created"),
    }
}

#[test]
fn located_room_is_used_as_is() {
    let r = RoomMetadata::default();
    let id = "!found:example.org".to_string();
    match room_action(&r, Some(&id), true, None) {
        RoomAction::Use(s) => assert_eq!(s, "!found:example.org"),
        RoomAction::Create(_) => panic!("a located room must not be created again"),
    }
}

#[test]
fn existing_account_is_left_alone() {
    let u = user("@alice:example.org", 50);
    assert!(ensure_user_action(&u, true).is_none());
}

#[test]
fn missing_account_is_created_with_claims() {
    let mut u = user("@alice:example.org", 50);
    u.external_ids = vec![spacehub::folders::ExternalId {
        auth_provider: "oidc-corp".to_string(),
        external_id: "alice".to_string(),
    }];
    let plan = ensure_user_action(&u, false).expect("missing account must be created");
    assert_eq!(plan.mxid, "@alice:example.org");
    assert_eq!(plan.external_ids.len(), 1);
    assert_eq!(plan.external_ids[0].auth_provider, "oidc-corp");
}

#[test]
fn protected_admins_accumulate_along_the_path() {
    let root = room_with_users(vec![], vec!["@root:example.org"]);
    let child = room_with_users(vec![], vec!["@child:example.org"]);
    let p0: Vec<String> = vec![];
    let p1 = extend_protected(&p0, &root);
    let p2 = extend_protected(&p1, &child);
    assert_eq!(
        p2,
        vec!["@root:example.org".to_string(), "@child:example.org".to_string()]
    );
}

#[test]
fn failed_parent_skips_children_and_still_reports_the_failure() {
    let child = SpaceFolder {
        metadata: Some(room_with_users(vec![], vec![])),
        rooms: vec![RoomMetadata::default()],
        children: vec![SpaceFolder {
            metadata: Some(RoomMetadata::default()),
            rooms: vec![],
            children: vec![],
        }],
    };
    let mut report: Vec<ReportEntry> = vec![ReportEntry {
        path: vec![],
        room: None,
        outcome: RoomOutcome::Failed("create-room failed".to_string()),
    }];
    let mut skipped = child.subtree_skipped(&vec![0]);
    assert_eq!(skipped.len(), 3);
    assert!(skipped
        .iter()
        .all(|e| matches!(e.outcome, RoomOutcome::Skipped)));
    report.append(&mut skipped);
    assert!(matches!(
        &report[0].outcome,
        RoomOutcome::Failed(reason) if reason == "create-room failed"
    ));
    assert_eq!(exit_code(&report), 1);
}

#[test]
fn run_without_failures_exits_zero() {
    let report = vec![
        ReportEntry {
            path: vec![],
            room: None,
            outcome: RoomOutcome::Reconciled,
        },
        ReportEntry {
            path: vec![0],
            room: Some(1),
            outcome: RoomOutcome::Skipped,
        },
    ];
    assert_eq!(exit_code(&report), 0);
}
