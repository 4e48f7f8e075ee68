use spacehub::folders::LdapGroupMetadata;
use spacehub::folders::NameClass;
use spacehub::folders::RoomMetadata;
use spacehub::folders::SourceEntry;
use spacehub::folders::SpaceFolder;
use spacehub::folders::UserMetadata;
use spacehub::folders::ValidationKind;
use spacehub::folders::classify_name;
use spacehub::mxid::mxid_is_valid;

fn room(id: Option<&str>, alias: Option<&str>) -> RoomMetadata {
    let mut r = RoomMetadata::default();
    r.id = id.map(|s| s.to_string());
    r.alias = alias.map(|s| s.to_string());
    r
}

fn user(mxid: &str, power_level: i32) -> UserMetadata {
    UserMetadata {
        mxid: mxid.to_string(),
        power_level,
        external_ids: vec![],
    }
}

#[test]
fn classify_reserved_metadata_names() {
    assert_eq!(classify_name("metadata.yml"), NameClass::Metadata);
    assert_eq!(classify_name("metadata.yaml"), NameClass::Metadata);
}

#[test]
fn classify_room_declarations() {
    assert_eq!(classify_name("!roomid:example.org"), NameClass::RoomById);
    assert_eq!(classify_name("#alias:example.org"), NameClass::RoomByAlias);
}

#[test]
fn classify_hidden_and_unsupported() {
    assert_eq!(classify_name(".git"), NameClass::Hidden);
    assert_eq!(classify_name(".metadata.yml"), NameClass::Hidden);
    assert_eq!(classify_name("readme.md"), NameClass::Unsupported);
    assert_eq!(classify_name(""), NameClass::Unsupported);
}

#[test]
fn default_room_is_private_and_empty() {
    let r = RoomMetadata::default();
    assert_eq!(r.visibility, "private");
    assert!(r.id.is_none());
    assert!(r.alias.is_none());
    assert!(r.extra_aliases.is_empty());
    assert!(r.ldap_groups.is_empty());
    assert!(r.admins.is_empty());
    assert!(r.users.is_empty());
}

#[test]
fn builder_assembles_folders_from_entries() {
    let entries = vec![
        SourceEntry::Dir {
            name: "team".to_string(),
            entries: vec![
                SourceEntry::File {
                    name: "metadata.yml".to_string(),
                    room: room(None, Some("#team:example.org")),
                },
                SourceEntry::File {
                    name: "#chat:example.org".to_string(),
                    room: room(None, None),
                },
                SourceEntry::File {
                    name: "!fixed:example.org".to_string(),
                    room: room(None, Some("#kept:example.org")),
                },
                SourceEntry::File {
                    name: "notes.txt".to_string(),
                    room: room(None, None),
                },
                SourceEntry::Link {
                    name: "link".to_string(),
                },
                SourceEntry::Dir {
                    name: ".hidden".to_string(),
                    entries: vec![],
                },
                SourceEntry::Dir {
                    name: "sub".to_string(),
                    entries: vec![SourceEntry::File {
                        name: "metadata.yaml".to_string(),
                        room: room(Some("!sub:example.org"), None),
                    }],
                },
            ],
        },
        SourceEntry::File {
            name: "stray.txt".to_string(),
            room: room(None, None),
        },
        SourceEntry::Dir {
            name: ".skipme".to_string(),
            entries: vec![],
        },
    ];
    let forest = SpaceFolder::new(&entries);
    assert_eq!(forest.len(), 1);
    let top = &forest[0];
    let meta = top.metadata.as_ref().expect("metadata file should be read");
    assert_eq!(meta.alias.as_deref(), Some("#team:example.org"));
    assert_eq!(top.rooms.len(), 2);
    assert_eq!(top.rooms[0].alias.as_deref(), Some("#chat:example.org"));
    assert!(top.rooms[0].id.is_none());
    assert_eq!(top.rooms[1].id.as_deref(), Some("!fixed:example.org"));
    assert_eq!(top.rooms[1].alias.as_deref(), Some("#kept:example.org"));
    assert_eq!(top.children.len(), 1);
    let sub_meta = top.children[0].metadata.as_ref().unwrap();
    assert_eq!(sub_meta.id.as_deref(), Some("!sub:example.org"));
}

#[test]
fn later_metadata_file_wins() {
    let entries = vec![
        SourceEntry::File {
            name: "metadata.yml".to_string(),
            room: room(Some("!first:example.org"), None),
        },
        SourceEntry::File {
            name: "metadata.yaml".to_string(),
            room: room(Some("!second:example.org"), None),
        },
    ];
    let forest = SpaceFolder::new(&vec![SourceEntry::Dir {
        name: "d".to_string(),
        entries,
    }]);
    let meta = forest[0].metadata.as_ref().unwrap();
    assert_eq!(meta.id.as_deref(), Some("!second:example.org"));
}

#[test]
fn check_accepts_valid_tree() {
    let mut meta = room(None, Some("#top:example.org"));
    meta.admins = vec!["@admin:example.org".to_string()];
    meta.users = vec![user("@alice:example.org", 50)];
    let folder = SpaceFolder {
        metadata: Some(meta),
        rooms: vec![room(Some("!r:example.org"), None)],
        children: vec![SpaceFolder {
            metadata: Some(room(None, Some("#child:example.org"))),
            rooms: vec![],
            children: vec![],
        }],
    };
    assert!(folder.check().is_empty());
}

#[test]
fn check_reports_missing_metadata() {
    let folder = SpaceFolder {
        metadata: Some(room(Some("!top:example.org"), None)),
        rooms: vec![],
        children: vec![SpaceFolder {
            metadata: None,
            rooms: vec![],
            children: vec![],
        }],
    };
    let errs = folder.check();
    assert_eq!(errs.len(), 1);
    assert_eq!(errs[0].path, vec![0]);
    assert!(errs[0].room.is_none());
    assert!(matches!(errs[0].kind, ValidationKind::MissingMetadata));
}

#[test]
fn check_reports_missing_identifier() {
    let folder = SpaceFolder {
        metadata: Some(room(None, None)),
        rooms: vec![],
        children: vec![],
    };
    let errs = folder.check();
    assert_eq!(errs.len(), 1);
    assert!(matches!(errs[0].kind, ValidationKind::MissingIdentifier));
}

#[test]
fn check_reports_every_invalid_user_id() {
    let mut meta = room(Some("!top:example.org"), None);
    meta.admins = vec!["not an mxid".to_string()];
    let mut child_room = room(None, Some("#r:example.org"));
    child_room.users = vec![user("also wrong", 0)];
    let folder = SpaceFolder {
        metadata: Some(meta),
        rooms: vec![child_room],
        children: vec![],
    };
    let errs = folder.check();
    assert_eq!(errs.len(), 2);
    assert!(matches!(
        &errs[0].kind,
        ValidationKind::InvalidUserId { mxid } if mxid == "not an mxid"
    ));
    assert_eq!(errs[1].room, Some(0));
    assert!(matches!(
        &errs[1].kind,
        ValidationKind::InvalidUserId { mxid } if mxid == "also wrong"
    ));
}

#[test]
fn mxid_syntax_is_ruma_verdict() {
    assert!(mxid_is_valid("@alice:example.org"));
    assert!(mxid_is_valid("@bob:matrix.example.com"));
    assert!(!mxid_is_valid("alice"));
    assert!(!mxid_is_valid("@no colon here"));
    assert!(!mxid_is_valid(""));
}

#[test]
fn get_all_users_walks_the_whole_tree() {
    let mut meta = room(None, Some("#top:example.org"));
    meta.users = vec![user("@a:example.org", 0)];
    let mut r = room(None, Some("#r:example.org"));
    r.users = vec![user("@b:example.org", 50)];
    let mut child_meta = room(None, Some("#c:example.org"));
    child_meta.users = vec![user("@c:example.org", 100)];
    let folder = SpaceFolder {
        metadata: Some(meta),
        rooms: vec![r],
        children: vec![SpaceFolder {
            metadata: Some(child_meta),
            rooms: vec![],
            children: vec![],
        }],
    };
    let users = folder.get_all_users();
    let mxids: Vec<&str> = users.iter().map(|u| u.mxid.as_str()).collect();
    assert_eq!(
        mxids,
        vec!["@a:example.org", "@b:example.org", "@c:example.org"]
    );
}

#[test]
fn group_dns_lists_queries_in_order() {
    let mut meta = room(None, Some("#top:example.org"));
    meta.ldap_groups = vec![LdapGroupMetadata {
        dn: "cn=staff,dc=example,dc=org".to_string(),
        power_level: 50,
    }];
    let mut r = room(None, Some("#r:example.org"));
    r.ldap_groups = vec![LdapGroupMetadata {
        dn: "cn=devs,dc=example,dc=org".to_string(),
        power_level: 0,
    }];
    let folder = SpaceFolder {
        metadata: Some(meta),
        rooms: vec![r],
        children: vec![],
    };
    let dns = folder.group_dns();
    assert_eq!(
        dns,
        vec![
            "cn=staff,dc=example,dc=org".to_string(),
            "cn=devs,dc=example,dc=org".to_string()
        ]
    );
}
