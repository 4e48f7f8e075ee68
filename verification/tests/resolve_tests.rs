use spacehub::config;
use spacehub::folders::LdapGroupMetadata;
use spacehub::folders::RoomMetadata;
use spacehub::folders::SpaceFolder;
use spacehub::ldap::DirectorySnapshot;
use spacehub::ldap::LdapResult;
use spacehub::ldap::group_filter;
use spacehub::resolve::ResolveError;
use spacehub::template::mxid_template;
use spacehub::template::render_entry_template;

fn entry(dn: &str, uid: &str) -> LdapResult {
    LdapResult {
        dn: dn.to_string(),
        attrs: vec![("uid".to_string(), vec![uid.to_string()])],
        bin_attrs: vec![],
    }
}

fn staff_room() -> RoomMetadata {
    let mut r = RoomMetadata::default();
    r.alias = Some("#team:example.org".to_string());
    r.ldap_groups = vec![LdapGroupMetadata {
        dn: "cn=staff,dc=example,dc=org".to_string(),
        power_level: 50,
    }];
    r
}

fn staff_snapshot() -> DirectorySnapshot {
    DirectorySnapshot {
        groups: vec![(
            "cn=staff,dc=example,dc=org".to_string(),
            vec![
                entry("uid=alice,dc=example,dc=org", "alice"),
                entry("uid=bob,dc=example,dc=org", "bob"),
            ],
        )],
    }
}

#[test]
fn group_filter_wraps_user_filter_and_group() {
    let f = group_filter("(objectClass=person)", "cn=staff,dc=example,dc=org");
    assert_eq!(
        f,
        "(&(objectClass=person)(memberOf=cn=staff,dc=example,dc=org))"
    );
}

#[test]
fn template_renders_attributes_of_the_entry() {
    let e = entry("uid=alice,dc=example,dc=org", "alice");
    let t = mxid_template("{{ user.attrs.uid[0] }}", "example.org");
    assert_eq!(t, "@{{ user.attrs.uid[0] }}:example.org");
    let rendered = render_entry_template(&t, &e);
    assert_eq!(rendered.as_deref(), Some("@alice:example.org"));
}

#[test]
fn template_parse_error_yields_nothing() {
    let e = entry("uid=alice,dc=example,dc=org", "alice");
    assert!(render_entry_template("{{ user.attrs", &e).is_none());
}

#[test]
fn group_resolution_renders_one_identity_per_member() {
    let room = staff_room();
    let snap = staff_snapshot();
    let entries = snap.members_of(&"cn=staff,dc=example,dc=org".to_string());
    let users = room.ldap_groups[0]
        .get_users_metadatas_for_group(
            entries.unwrap(),
            "{{ user.attrs.uid[0] }}",
            "example.org",
            &None,
        )
        .unwrap();
    assert_eq!(users.len(), 2);
    assert_eq!(users[0].mxid, "@alice:example.org");
    assert_eq!(users[0].power_level, 50);
    assert_eq!(users[1].mxid, "@bob:example.org");
    assert_eq!(users[1].power_level, 50);
}

#[test]
fn external_ids_are_rendered_per_provider() {
    let room = staff_room();
    let snap = staff_snapshot();
    let entries = snap.members_of(&"cn=staff,dc=example,dc=org".to_string());
    let ext = Some(vec![config::ExternalId {
        auth_provider: "oidc-corp".to_string(),
        external_id_template: "{{ user.attrs.uid[0] }}".to_string(),
    }]);
    let users = room.ldap_groups[0]
        .get_users_metadatas_for_group(
            entries.unwrap(),
            "{{ user.attrs.uid[0] }}",
            "example.org",
            &ext,
        )
        .unwrap();
    assert_eq!(users[0].external_ids.len(), 1);
    assert_eq!(users[0].external_ids[0].auth_provider, "oidc-corp");
    assert_eq!(users[0].external_ids[0].external_id, "alice");
}

#[test]
fn populate_attaches_users_to_the_room() {
    let folder = SpaceFolder {
        metadata: Some(staff_room()),
        rooms: vec![],
        children: vec![],
    };
    let (populated, failures) = folder.populate_rooms_users(
        &staff_snapshot(),
        "{{ user.attrs.uid[0] }}",
        "example.org",
        &None,
    );
    assert!(failures.is_empty());
    let users = &populated.metadata.as_ref().unwrap().users;
    assert_eq!(users.len(), 2);
    assert_eq!(users[0].mxid, "@alice:example.org");
    assert_eq!(users[1].mxid, "@bob:example.org");
}

#[test]
fn missing_group_is_reported_and_room_left_alone() {
    let folder = SpaceFolder {
        metadata: Some(staff_room()),
        rooms: vec![],
        children: vec![],
    };
    let empty_snap = DirectorySnapshot { groups: vec![] };
    let (populated, failures) = folder.populate_rooms_users(
        &empty_snap,
        "{{ user.attrs.uid[0] }}",
        "example.org",
        &None,
    );
    assert!(populated.metadata.as_ref().unwrap().users.is_empty());
    assert_eq!(failures.len(), 1);
    assert!(failures[0].path.is_empty());
    assert!(failures[0].room.is_none());
    assert!(matches!(
        &failures[0].error,
        ResolveError::GroupNotFound { dn } if dn == "cn=staff,dc=example,dc=org"
    ));
}

#[test]
fn failed_render_is_reported_and_room_left_alone() {
    let mut room = staff_room();
    room.ldap_groups[0].dn = "cn=staff,dc=example,dc=org".to_string();
    let folder = SpaceFolder {
        metadata: Some(room),
        rooms: vec![],
        children: vec![],
    };
    let (populated, failures) =
        folder.populate_rooms_users(&staff_snapshot(), "{{ broken", "example.org", &None);
    assert!(populated.metadata.as_ref().unwrap().users.is_empty());
    assert_eq!(failures.len(), 1);
    assert!(matches!(
        &failures[0].error,
        ResolveError::RenderFailed { dn } if dn == "cn=staff,dc=example,dc=org"
    ));
}

#[test]
fn failure_in_one_branch_leaves_the_other_resolved() {
    let mut broken = RoomMetadata::default();
    broken.alias = Some("#broken:example.org".to_string());
    broken.ldap_groups = vec![LdapGroupMetadata {
        dn: "cn=absent,dc=example,dc=org".to_string(),
        power_level: 0,
    }];
    let folder = SpaceFolder {
        metadata: Some(staff_room()),
        rooms: vec![broken],
        children: vec![],
    };
    let (populated, failures) = folder.populate_rooms_users(
        &staff_snapshot(),
        "{{ user.attrs.uid[0] }}",
        "example.org",
        &None,
    );
    assert_eq!(populated.metadata.as_ref().unwrap().users.len(), 2);
    assert!(populated.rooms[0].users.is_empty());
    assert_eq!(failures.len(), 1);
    assert_eq!(failures[0].room, Some(0));
}

#[test]
fn staff_group_end_to_end_two_adds_no_removals() {
    let folder = SpaceFolder {
        metadata: Some(staff_room()),
        rooms: vec![],
        children: vec![],
    };
    let (populated, failures) = folder.populate_rooms_users(
        &staff_snapshot(),
        "{{ user.attrs.uid[0] }}",
        "example.org",
        &None,
    );
    assert!(failures.is_empty());
    let desired = spacehub::reconcile::desired_members(populated.metadata.as_ref().unwrap());
    let plan = spacehub::reconcile::diff_membership(&desired, &vec![], &vec![]);
    let mut added: Vec<(String, i32)> = plan
        .adds
        .iter()
        .map(|m| (m.mxid.clone(), m.power_level))
        .collect();
    added.sort();
    assert_eq!(
        added,
        vec![
            ("@alice:example.org".to_string(), 50),
            ("@bob:example.org".to_string(), 50)
        ]
    );
    assert!(plan.power_changes.is_empty());
    assert!(plan.removes.is_empty());
}

#[test]
fn resolution_order_does_not_change_the_user_set() {
    let snap = DirectorySnapshot {
        groups: vec![
            (
                "cn=staff,dc=example,dc=org".to_string(),
                vec![entry("uid=alice,dc=example,dc=org", "alice")],
            ),
            (
                "cn=devs,dc=example,dc=org".to_string(),
                vec![entry("uid=bob,dc=example,dc=org", "bob")],
            ),
        ],
    };
    let g_staff = LdapGroupMetadata {
        dn: "cn=staff,dc=example,dc=org".to_string(),
        power_level: 50,
    };
    let g_devs = LdapGroupMetadata {
        dn: "cn=devs,dc=example,dc=org".to_string(),
        power_level: 10,
    };
    let mut one = RoomMetadata::default();
    one.alias = Some("#one:example.org".to_string());
    one.ldap_groups = vec![
        LdapGroupMetadata {
            dn: g_staff.dn.clone(),
            power_level: g_staff.power_level,
        },
        LdapGroupMetadata {
            dn: g_devs.dn.clone(),
            power_level: g_devs.power_level,
        },
    ];
    let mut two = RoomMetadata::default();
    two.alias = Some("#two:example.org".to_string());
    two.ldap_groups = vec![g_devs, g_staff];
    let folder = SpaceFolder {
        metadata: Some(one),
        rooms: vec![two],
        children: vec![],
    };
    let (populated, failures) = folder.populate_rooms_users(
        &snap,
        "{{ user.attrs.uid[0] }}",
        "example.org",
        &None,
    );
    assert!(failures.is_empty());
    let mut set_one: Vec<(String, i32)> = populated.metadata.as_ref().unwrap().users.iter()
        .map(|u| (u.mxid.clone(), u.power_level))
        .collect();
    let mut set_two: Vec<(String, i32)> = populated.rooms[0]
        .users
        .iter()
        .map(|u| (u.mxid.clone(), u.power_level))
        .collect();
    set_one.sort();
    set_two.sort();
    assert_eq!(set_one, set_two);
    assert_eq!(set_one.len(), 2);
}
