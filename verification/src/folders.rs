//! The desired-state tree: spaces as directories, rooms as files, group
//! references granting power levels, and the users resolved from them.
//! Holds the tree builder, its validation, and the whole-tree user view.

use vstd::prelude::*;
use vstd::string::StrSliceExecFns;
use vstd::string::StringExecFns;
use crate::mxid::mxid_ok;
use crate::mxid::mxid_is_valid;

verus! {

/// An external-identity claim attached to a provisioned account: the
/// authentication provider and the id the provider knows the user by.
pub struct ExternalId {
    /// The authentication provider to which the user is associated.
    pub auth_provider: String,
    /// The ID known to the auth provider associated with this user.
    pub external_id: String,
}

/// The mathematical value of an [`ExternalId`].
#[verifier::ext_equal]
pub ghost struct ExternalIdV {
    pub auth_provider: Seq<char>,
    pub external_id: Seq<char>,
}

impl View for ExternalId {
    type V = ExternalIdV;

    open spec fn view(&self) -> ExternalIdV {
        ExternalIdV { auth_provider: self.auth_provider@, external_id: self.external_id@ }
    }
}

impl DeepView for ExternalId {
    type V = ExternalIdV;

    open spec fn deep_view(&self) -> ExternalIdV {
        self.view()
    }
}

impl Clone for ExternalId {
    fn clone(&self) -> (res: Self)
        ensures
            res@ == self@,
    {
        ExternalId {
            auth_provider: self.auth_provider.clone(),
            external_id: self.external_id.clone(),
        }
    }
}

/// One desired member of a room: the platform user id, the power level the
/// membership grants, and the external-identity claims to provision the
/// account with.  Identity is the full triple: the same account resolved at
/// two power levels is two distinct values.
pub struct UserMetadata {
    pub mxid: String,
    pub power_level: i32,
    pub external_ids: Vec<ExternalId>,
}

/// The mathematical value of a [`UserMetadata`].
#[verifier::ext_equal]
pub ghost struct UserMetadataV {
    pub mxid: Seq<char>,
    pub power_level: int,
    pub external_ids: Seq<ExternalIdV>,
}

impl View for UserMetadata {
    type V = UserMetadataV;

    open spec fn view(&self) -> UserMetadataV {
        UserMetadataV {
            mxid: self.mxid@,
            power_level: self.power_level as int,
            external_ids: self.external_ids.deep_view(),
        }
    }
}

impl DeepView for UserMetadata {
    type V = UserMetadataV;

    open spec fn deep_view(&self) -> UserMetadataV {
        self.view()
    }
}

impl Clone for UserMetadata {
    fn clone(&self) -> (res: Self)
        ensures
            res@ == self@,
    {
        let res = UserMetadata {
            mxid: self.mxid.clone(),
            power_level: self.power_level,
            external_ids: clone_external_ids(&self.external_ids),
        };
        proof {
            assert(res@ =~= self@);
        }
        res
    }
}

fn clone_external_ids(v: &Vec<ExternalId>) -> (res: Vec<ExternalId>)
    ensures
        res.deep_view() == v.deep_view(),
{
    let mut res: Vec<ExternalId> = Vec::new();
    let mut i: usize = 0;
    while i < v.len()
        invariant
            i <= v.len(),
            res@.len() == i,
            forall|j: int| 0 <= j < i ==> res@[j]@ == v@[j]@,
        decreases v.len() - i,
    {
        res.push(v[i].clone());
        i = i + 1;
    }
    proof {
        assert(res.deep_view() =~= v.deep_view());
    }
    res
}

pub(crate) fn clone_strings(v: &Vec<String>) -> (res: Vec<String>)
    ensures
        res.deep_view() == v.deep_view(),
{
    let mut res: Vec<String> = Vec::new();
    let mut i: usize = 0;
    while i < v.len()
        invariant
            i <= v.len(),
            res@.len() == i,
            forall|j: int| 0 <= j < i ==> res@[j]@ == v@[j]@,
        decreases v.len() - i,
    {
        res.push(v[i].clone());
        i = i + 1;
    }
    proof {
        assert(res.deep_view() =~= v.deep_view());
    }
    res
}

pub(crate) fn clone_users(v: &Vec<UserMetadata>) -> (res: Vec<UserMetadata>)
    ensures
        res.deep_view() == v.deep_view(),
{
    let mut res: Vec<UserMetadata> = Vec::new();
    let mut i: usize = 0;
    while i < v.len()
        invariant
            i <= v.len(),
            res@.len() == i,
            forall|j: int| 0 <= j < i ==> res@[j]@ == v@[j]@,
        decreases v.len() - i,
    {
        res.push(v[i].clone());
        i = i + 1;
    }
    proof {
        assert(res.deep_view() =~= v.deep_view());
    }
    res
}

/// One group reference: membership in the directory group at `dn` grants
/// `power_level` in the room that carries the reference.
pub struct LdapGroupMetadata {
    pub dn: String,
    pub power_level: i32,
}

/// The mathematical value of an [`LdapGroupMetadata`].
#[verifier::ext_equal]
pub ghost struct LdapGroupMetadataV {
    pub dn: Seq<char>,
    pub power_level: int,
}

impl View for LdapGroupMetadata {
    type V = LdapGroupMetadataV;

    open spec fn view(&self) -> LdapGroupMetadataV {
        LdapGroupMetadataV { dn: self.dn@, power_level: self.power_level as int }
    }
}

impl DeepView for LdapGroupMetadata {
    type V = LdapGroupMetadataV;

    open spec fn deep_view(&self) -> LdapGroupMetadataV {
        self.view()
    }
}

impl Clone for LdapGroupMetadata {
    fn clone(&self) -> (res: Self)
        ensures
            res@ == self@,
    {
        LdapGroupMetadata { dn: self.dn.clone(), power_level: self.power_level }
    }
}

pub(crate) fn clone_groups(v: &Vec<LdapGroupMetadata>) -> (res: Vec<LdapGroupMetadata>)
    ensures
        res.deep_view() == v.deep_view(),
{
    let mut res: Vec<LdapGroupMetadata> = Vec::new();
    let mut i: usize = 0;
    while i < v.len()
        invariant
            i <= v.len(),
            res@.len() == i,
            forall|j: int| 0 <= j < i ==> res@[j]@ == v@[j]@,
        decreases v.len() - i,
    {
        res.push(v[i].clone());
        i = i + 1;
    }
    proof {
        assert(res.deep_view() =~= v.deep_view());
    }
    res
}

/// The desired state of one room or space.
pub struct RoomMetadata {
    pub id: Option<String>,
    pub alias: Option<String>,
    pub extra_aliases: Vec<String>,
    pub visibility: String,
    pub ldap_groups: Vec<LdapGroupMetadata>,
    pub admins: Vec<String>,
    pub users: Vec<UserMetadata>,
}

/// The mathematical value of a [`RoomMetadata`].
#[verifier::ext_equal]
pub ghost struct RoomMetadataV {
    pub id: Option<Seq<char>>,
    pub alias: Option<Seq<char>>,
    pub extra_aliases: Seq<Seq<char>>,
    pub visibility: Seq<char>,
    pub ldap_groups: Seq<LdapGroupMetadataV>,
    pub admins: Seq<Seq<char>>,
    pub users: Seq<UserMetadataV>,
}

impl View for RoomMetadata {
    type V = RoomMetadataV;

    open spec fn view(&self) -> RoomMetadataV {
        RoomMetadataV {
            id: self.id.deep_view(),
            alias: self.alias.deep_view(),
            extra_aliases: self.extra_aliases.deep_view(),
            visibility: self.visibility@,
            ldap_groups: self.ldap_groups.deep_view(),
            admins: self.admins.deep_view(),
            users: self.users.deep_view(),
        }
    }
}

impl DeepView for RoomMetadata {
    type V = RoomMetadataV;

    open spec fn deep_view(&self) -> RoomMetadataV {
        self.view()
    }
}

fn clone_opt_string(v: &Option<String>) -> (res: Option<String>)
    ensures
        res.deep_view() == v.deep_view(),
{
    match v {
        Some(s) => Some(s.clone()),
        None => None,
    }
}

impl Clone for RoomMetadata {
    fn clone(&self) -> (res: Self)
        ensures
            res@ == self@,
    {
        let res = RoomMetadata {
            id: clone_opt_string(&self.id),
            alias: clone_opt_string(&self.alias),
            extra_aliases: clone_strings(&self.extra_aliases),
            visibility: self.visibility.clone(),
            ldap_groups: clone_groups(&self.ldap_groups),
            admins: clone_strings(&self.admins),
            users: clone_users(&self.users),
        };
        proof {
            assert(res@ =~= self@);
        }
        res
    }
}

/// The default desired state of a room: private, with nothing else set.
pub open spec fn spec_default_room() -> RoomMetadataV {
    RoomMetadataV {
        id: None,
        alias: None,
        extra_aliases: Seq::empty(),
        visibility: "private"@,
        ldap_groups: Seq::empty(),
        admins: Seq::empty(),
        users: Seq::empty(),
    }
}

impl RoomMetadata {
    /// The default values a room declaration starts from before its file's
    /// fields are applied: private visibility and everything else empty.
    pub fn default() -> (r: Self)
        ensures
            r@ == spec_default_room(),
    {
        let r = RoomMetadata {
            id: None,
            alias: None,
            extra_aliases: Vec::new(),
            visibility: String::from_str("private"),
            ldap_groups: Vec::new(),
            admins: Vec::new(),
            users: Vec::new(),
        };
        proof {
            assert(r@ =~= spec_default_room());
        }
        r
    }
}

/// One directory of the source tree: the room/space metadata of the
/// directory itself, the rooms declared by files inside it, and the nested
/// directories, each a space of its own.
pub struct SpaceFolder {
    pub metadata: Option<RoomMetadata>,
    pub rooms: Vec<RoomMetadata>,
    pub children: Vec<SpaceFolder>,
}

/// The mathematical value of a [`SpaceFolder`].
#[verifier::ext_equal]
pub ghost struct SpaceFolderV {
    pub metadata: Option<RoomMetadataV>,
    pub rooms: Seq<RoomMetadataV>,
    pub children: Seq<SpaceFolderV>,
}

impl View for SpaceFolder {
    type V = SpaceFolderV;

    open spec fn view(&self) -> SpaceFolderV
        decreases self,
    {
        SpaceFolderV {
            metadata: self.metadata.deep_view(),
            rooms: self.rooms.deep_view(),
            children: folders_view(self.children@),
        }
    }
}

/// The views of a sequence of folders, element by element.
pub open spec fn folders_view(s: Seq<SpaceFolder>) -> Seq<SpaceFolderV>
    decreases s,
{
    if s.len() == 0 {
        Seq::empty()
    } else {
        seq![s[0].view()] + folders_view(s.drop_first())
    }
}

/// `folders_view` maps the element views pointwise.
pub proof fn lemma_folders_view(s: Seq<SpaceFolder>)
    ensures
        folders_view(s).len() == s.len(),
        forall|i: int| 0 <= i < s.len() ==> folders_view(s)[i] == #[trigger] s[i].view(),
    decreases s.len(),
{
    if s.len() > 0 {
        lemma_folders_view(s.drop_first());
        assert forall|i: int| 0 <= i < s.len() implies folders_view(s)[i] == #[trigger] s[i]
            .view() by {
            if i > 0 {
                assert(s.drop_first()[i - 1] == s[i]);
                assert(folders_view(s) == seq![s[0].view()] + folders_view(s.drop_first()));
                assert(folders_view(s)[i] == folders_view(s.drop_first())[i - 1]);
                assert(folders_view(s.drop_first())[i - 1] == s.drop_first()[i - 1].view());
            }
        }
    }
}

impl DeepView for SpaceFolder {
    type V = SpaceFolderV;

    open spec fn deep_view(&self) -> SpaceFolderV {
        self.view()
    }
}

/// What a directory entry's name means to the tree builder.
#[derive(PartialEq, Eq, Structural, Clone, Copy, Debug)]
pub enum NameClass {
    /// The reserved file holding the directory's own room metadata.
    Metadata,
    /// A child-room declaration keyed by a literal room id.
    RoomById,
    /// A child-room declaration keyed by a literal room alias.
    RoomByAlias,
    /// A name starting with a dot: ignored entirely.
    Hidden,
    /// Anything else: reported by the caller and skipped.
    Unsupported,
}

/// How the builder reads a name: dot-names are ignored, the reserved
/// metadata names populate the directory's own room, and a leading room-id
/// or alias sigil declares a child room keyed by the full name.
pub open spec fn spec_classify(name: Seq<char>) -> NameClass {
    if name.len() > 0 && name[0] == '.' {
        NameClass::Hidden
    } else if name == "metadata.yml"@ || name == "metadata.yaml"@ {
        NameClass::Metadata
    } else if name.len() > 0 && name[0] == '!' {
        NameClass::RoomById
    } else if name.len() > 0 && name[0] == '#' {
        NameClass::RoomByAlias
    } else {
        NameClass::Unsupported
    }
}

/// Character-wise string equality.
fn str_eq(a: &str, b: &str) -> (r: bool)
    ensures
        r == (a@ == b@),
{
    let an = a.unicode_len();
    let bn = b.unicode_len();
    if an != bn {
        return false;
    }
    let mut i: usize = 0;
    while i < an
        invariant
            i <= an,
            an == a@.len(),
            bn == b@.len(),
            an == bn,
            forall|j: int| 0 <= j < i ==> a@[j] == b@[j],
        decreases an - i,
    {
        if a.get_char(i) != b.get_char(i) {
            return false;
        }
        i = i + 1;
    }
    proof {
        assert(a@ =~= b@);
    }
    true
}

/// Classifies one directory-entry name.
pub fn classify_name(name: &str) -> (c: NameClass)
    ensures
        c == spec_classify(name@),
{
    let n = name.unicode_len();
    if n > 0 && name.get_char(0) == '.' {
        NameClass::Hidden
    } else if str_eq(name, "metadata.yml") || str_eq(name, "metadata.yaml") {
        NameClass::Metadata
    } else if n > 0 && name.get_char(0) == '!' {
        NameClass::RoomById
    } else if n > 0 && name.get_char(0) == '#' {
        NameClass::RoomByAlias
    } else {
        NameClass::Unsupported
    }
}

/// One entry of the source tree as the caller hands it in: a regular file
/// with its parsed room body, a directory with its own entries, or a
/// symbolic link (unsupported, skipped).
pub enum SourceEntry {
    File { name: String, room: RoomMetadata },
    Dir { name: String, entries: Vec<SourceEntry> },
    Link { name: String },
}

/// The mathematical value of a [`SourceEntry`].
#[verifier::ext_equal]
pub ghost enum SourceEntryV {
    File { name: Seq<char>, room: RoomMetadataV },
    Dir { name: Seq<char>, entries: Seq<SourceEntryV> },
    Link { name: Seq<char> },
}

impl View for SourceEntry {
    type V = SourceEntryV;

    open spec fn view(&self) -> SourceEntryV
        decreases self,
    {
        match self {
            SourceEntry::File { name, room } => SourceEntryV::File { name: name@, room: room@ },
            SourceEntry::Dir { name, entries } => SourceEntryV::Dir {
                name: name@,
                entries: entries_view(entries@),
            },
            SourceEntry::Link { name } => SourceEntryV::Link { name: name@ },
        }
    }
}

impl DeepView for SourceEntry {
    type V = SourceEntryV;

    open spec fn deep_view(&self) -> SourceEntryV {
        self.view()
    }
}

/// The views of a sequence of source entries, element by element.
pub open spec fn entries_view(s: Seq<SourceEntry>) -> Seq<SourceEntryV>
    decreases s,
{
    if s.len() == 0 {
        Seq::empty()
    } else {
        seq![s[0].view()] + entries_view(s.drop_first())
    }
}

/// `entries_view` maps the element views pointwise.
pub proof fn lemma_entries_view(s: Seq<SourceEntry>)
    ensures
        entries_view(s).len() == s.len(),
        forall|i: int| 0 <= i < s.len() ==> entries_view(s)[i] == #[trigger] s[i].view(),
    decreases s.len(),
{
    if s.len() > 0 {
        lemma_entries_view(s.drop_first());
        assert forall|i: int| 0 <= i < s.len() implies entries_view(s)[i] == #[trigger] s[i]
            .view() by {
            if i > 0 {
                assert(s.drop_first()[i - 1] == s[i]);
                assert(entries_view(s) == seq![s[0].view()] + entries_view(s.drop_first()));
                assert(entries_view(s)[i] == entries_view(s.drop_first())[i - 1]);
                assert(entries_view(s.drop_first())[i - 1] == s.drop_first()[i - 1].view());
            }
        }
    }
}

/// A folder before any entry is applied.
pub open spec fn empty_folder() -> SpaceFolderV {
    SpaceFolderV { metadata: None, rooms: Seq::empty(), children: Seq::empty() }
}

/// The effect of one directory entry on the folder under construction: the
/// reserved metadata names set the folder's own room (the last such file
/// wins), a room-id or alias name appends a child room keyed by the full
/// file name, a visible subdirectory appends a child space, and everything
/// else is left to the caller to report.
pub open spec fn apply_entry(f: SpaceFolderV, e: SourceEntryV) -> SpaceFolderV
    decreases e,
{
    match e {
        SourceEntryV::File { name, room } => match spec_classify(name) {
            NameClass::Metadata => SpaceFolderV { metadata: Some(room), ..f },
            NameClass::RoomById => SpaceFolderV {
                rooms: f.rooms.push(RoomMetadataV { id: Some(name), ..room }),
                ..f
            },
            NameClass::RoomByAlias => SpaceFolderV {
                rooms: f.rooms.push(RoomMetadataV { alias: Some(name), ..room }),
                ..f
            },
            _ => f,
        },
        SourceEntryV::Dir { name, entries } => if spec_classify(name) is Hidden {
            f
        } else {
            SpaceFolderV { children: f.children.push(fold_entries(empty_folder(), entries)), ..f }
        },
        SourceEntryV::Link { .. } => f,
    }
}

/// Applies a directory's entries in order, starting from `f`.
pub open spec fn fold_entries(f: SpaceFolderV, entries: Seq<SourceEntryV>) -> SpaceFolderV
    decreases entries,
{
    if entries.len() == 0 {
        f
    } else {
        fold_entries(apply_entry(f, entries[0]), entries.drop_first())
    }
}

/// The folder built from a directory's entries.
pub open spec fn built_folder(entries: Seq<SourceEntryV>) -> SpaceFolderV {
    fold_entries(empty_folder(), entries)
}

/// The forest built from the top-level entries: one root per visible
/// subdirectory, in order; top-level files and links are ignored.
pub open spec fn built_forest(entries: Seq<SourceEntryV>) -> Seq<SpaceFolderV>
    decreases entries,
{
    if entries.len() == 0 {
        Seq::empty()
    } else {
        forest_step(entries[0]) + built_forest(entries.drop_first())
    }
}

/// The roots contributed by one top-level entry.
pub open spec fn forest_step(e: SourceEntryV) -> Seq<SpaceFolderV>
    decreases e,
{
    match e {
        SourceEntryV::Dir { name, entries } => if spec_classify(name) is Hidden {
            Seq::empty()
        } else {
            seq![built_folder(entries)]
        },
        _ => Seq::empty(),
    }
}

/// Folding a directory's entries one further entry is applying that entry
/// to the folded result.
pub proof fn lemma_fold_snoc(f: SpaceFolderV, s: Seq<SourceEntryV>, e: SourceEntryV)
    ensures
        fold_entries(f, s.push(e)) == apply_entry(fold_entries(f, s), e),
    decreases s.len(),
{
    if s.len() == 0 {
        assert(s.push(e)[0] == e);
        assert(s.push(e).drop_first() =~= Seq::<SourceEntryV>::empty());
        assert(fold_entries(apply_entry(f, e), Seq::<SourceEntryV>::empty()) == apply_entry(f, e));
        assert(fold_entries(f, s) == f);
    } else {
        assert(s.push(e)[0] == s[0]);
        assert(s.push(e).drop_first() =~= s.drop_first().push(e));
        lemma_fold_snoc(apply_entry(f, s[0]), s.drop_first(), e);
        assert(fold_entries(f, s.push(e)) == fold_entries(apply_entry(f, s[0]), s.drop_first().push(e)));
        assert(fold_entries(f, s) == fold_entries(apply_entry(f, s[0]), s.drop_first()));
    }
}

/// The forest of one further top-level entry is the forest so far plus that
/// entry's contribution.
pub proof fn lemma_forest_snoc(s: Seq<SourceEntryV>, e: SourceEntryV)
    ensures
        built_forest(s.push(e)) == built_forest(s) + forest_step(e),
    decreases s.len(),
{
    if s.len() == 0 {
        assert(s.push(e)[0] == e);
        assert(s.push(e).drop_first() =~= Seq::<SourceEntryV>::empty());
        assert(built_forest(Seq::<SourceEntryV>::empty()) == Seq::<SpaceFolderV>::empty());
        assert(built_forest(s.push(e)) == forest_step(e) + built_forest(Seq::<SourceEntryV>::empty()));
        assert(built_forest(s.push(e)) =~= built_forest(s) + forest_step(e));
    } else {
        assert(s.push(e)[0] == s[0]);
        assert(s.push(e).drop_first() =~= s.drop_first().push(e));
        lemma_forest_snoc(s.drop_first(), e);
        assert(built_forest(s.push(e)) == forest_step(s[0]) + built_forest(s.drop_first().push(e)));
        assert(built_forest(s) == forest_step(s[0]) + built_forest(s.drop_first()));
        assert(built_forest(s.push(e)) =~= built_forest(s) + forest_step(e));
    }
}

/// Appending a folder to a sequence appends its view.
pub proof fn lemma_folders_view_snoc(s: Seq<SpaceFolder>, x: SpaceFolder)
    ensures
        folders_view(s.push(x)) == folders_view(s) + seq![x@],
    decreases s.len(),
{
    if s.len() == 0 {
        assert(s.push(x)[0] == x);
        assert(s.push(x).drop_first() =~= Seq::<SpaceFolder>::empty());
        assert(folders_view(Seq::<SpaceFolder>::empty()) == Seq::<SpaceFolderV>::empty());
        assert(folders_view(s.push(x)) == seq![x.view()] + folders_view(Seq::<SpaceFolder>::empty()));
        assert(folders_view(s.push(x)) =~= folders_view(s) + seq![x@]);
    } else {
        assert(s.push(x)[0] == s[0]);
        assert(s.push(x).drop_first() =~= s.drop_first().push(x));
        lemma_folders_view_snoc(s.drop_first(), x);
        assert(folders_view(s.push(x)) == seq![s[0].view()] + folders_view(s.drop_first().push(x)));
        assert(folders_view(s) == seq![s[0].view()] + folders_view(s.drop_first()));
        assert(folders_view(s.push(x)) =~= folders_view(s) + seq![x@]);
    }
}

impl SpaceFolder {
    /// Builds the folder for one directory from its entries, in order.
    fn new_rec(entries: &Vec<SourceEntry>) -> (folder: SpaceFolder)
        ensures
            folder@ == built_folder(entries_view(entries@)),
        decreases entries@,
    {
        let mut folder = SpaceFolder { metadata: None, rooms: Vec::new(), children: Vec::new() };
        let ghost evs = entries_view(entries@);
        proof {
            lemma_entries_view(entries@);
            assert(folder@ =~= fold_entries(empty_folder(), evs.take(0)));
        }
        let mut i: usize = 0;
        while i < entries.len()
            invariant
                i <= entries.len(),
                evs == entries_view(entries@),
                evs.len() == entries@.len(),
                forall|j: int| 0 <= j < entries@.len() ==> evs[j] == #[trigger] entries@[j].view(),
                folder@ == fold_entries(empty_folder(), evs.take(i as int)),
            decreases entries@.len() - i,
        {
            let ghost pre = folder@;
            match &entries[i] {
                SourceEntry::File { name, room } => {
                    match classify_name(name.as_str()) {
                        NameClass::Metadata => {
                            folder.metadata = Some(room.clone());
                            proof {
                                assert(evs[i as int] == entries@[i as int].view());
                                assert(entries@[i as int].view() == SourceEntryV::File {
                                    name: name@,
                                    room: room@,
                                });
                                assert(folder@ =~= apply_entry(pre, evs[i as int]));
                            }
                        },
                        NameClass::RoomById => {
                            let mut r = room.clone();
                            r.id = Some(name.clone());
                            folder.rooms.push(r);
                            proof {
                                assert(evs[i as int] == entries@[i as int].view());
                                assert(entries@[i as int].view() == SourceEntryV::File {
                                    name: name@,
                                    room: room@,
                                });
                                assert(folder@ =~= apply_entry(pre, evs[i as int]));
                            }
                        },
                        NameClass::RoomByAlias => {
                            let mut r = room.clone();
                            r.alias = Some(name.clone());
                            folder.rooms.push(r);
                            proof {
                                assert(evs[i as int] == entries@[i as int].view());
                                assert(entries@[i as int].view() == SourceEntryV::File {
                                    name: name@,
                                    room: room@,
                                });
                                assert(folder@ =~= apply_entry(pre, evs[i as int]));
                            }
                        },
                        _ => {
                            proof {
                                assert(evs[i as int] == entries@[i as int].view());
                                assert(entries@[i as int].view() == SourceEntryV::File {
                                    name: name@,
                                    room: room@,
                                });
                                assert(folder@ =~= apply_entry(pre, evs[i as int]));
                            }
                        },
                    }
                },
                SourceEntry::Dir { name, entries: sub } => {
                    match classify_name(name.as_str()) {
                        NameClass::Hidden => {
                            proof {
                                assert(evs[i as int] == entries@[i as int].view());
                                assert(entries@[i as int].view() == SourceEntryV::Dir {
                                    name: name@,
                                    entries: entries_view(sub@),
                                });
                                assert(folder@ =~= apply_entry(pre, evs[i as int]));
                            }
                        },
                        _ => {
                            proof {
                                assert(decreases_to!(entries@ => sub@));
                            }
                            let child = SpaceFolder::new_rec(sub);
                            let ghost pre_children = folder.children@;
                            let ghost childg = child;
                            folder.children.push(child);
                            proof {
                                assert(evs[i as int] == entries@[i as int].view());
                                assert(entries@[i as int].view() == SourceEntryV::Dir {
                                    name: name@,
                                    entries: entries_view(sub@),
                                });
                                lemma_folders_view_snoc(pre_children, childg);
                                assert(folders_view(pre_children) + seq![childg@]
                                    =~= folders_view(pre_children).push(childg@));
                                assert(pre.children.push(built_folder(entries_view(sub@)))
                                    == folders_view(pre_children).push(childg@));
                                assert(folder@ =~= apply_entry(pre, evs[i as int]));
                            }
                        },
                    }
                },
                SourceEntry::Link { name } => {
                    proof {
                        assert(evs[i as int] == entries@[i as int].view());
                        assert(entries@[i as int].view() == SourceEntryV::Link { name: name@ });
                        assert(folder@ =~= apply_entry(pre, evs[i as int]));
                    }
                },
            }
            proof {
                lemma_fold_snoc(empty_folder(), evs.take(i as int), evs[i as int]);
                assert(evs.take(i as int).push(evs[i as int]) =~= evs.take(i + 1));
            }
            i = i + 1;
        }
        proof {
            assert(evs.take(entries@.len() as int) =~= evs);
        }
        folder
    }

    /// Builds the forest of top-level spaces from the top-level entries:
    /// one root per visible subdirectory; other entries are ignored.
    pub fn new(entries: &Vec<SourceEntry>) -> (forest: Vec<SpaceFolder>)
        ensures
            folders_view(forest@) == built_forest(entries_view(entries@)),
    {
        let mut forest: Vec<SpaceFolder> = Vec::new();
        let ghost evs = entries_view(entries@);
        proof {
            lemma_entries_view(entries@);
            assert(folders_view(forest@) =~= built_forest(evs.take(0)));
        }
        let mut i: usize = 0;
        while i < entries.len()
            invariant
                i <= entries.len(),
                evs == entries_view(entries@),
                evs.len() == entries@.len(),
                forall|j: int| 0 <= j < entries@.len() ==> evs[j] == #[trigger] entries@[j].view(),
                folders_view(forest@) == built_forest(evs.take(i as int)),
            decreases entries@.len() - i,
        {
            let ghost pre = forest@;
            match &entries[i] {
                SourceEntry::Dir { name, entries: sub } => {
                    match classify_name(name.as_str()) {
                        NameClass::Hidden => {
                            proof {
                                assert(evs[i as int] == entries@[i as int].view());
                                assert(entries@[i as int].view() == SourceEntryV::Dir {
                                    name: name@,
                                    entries: entries_view(sub@),
                                });
                                assert(forest_step(evs[i as int]) =~= Seq::<SpaceFolderV>::empty());
                            }
                        },
                        _ => {
                            let child = SpaceFolder::new_rec(sub);
                            let ghost childg = child;
                            forest.push(child);
                            proof {
                                assert(evs[i as int] == entries@[i as int].view());
                                assert(entries@[i as int].view() == SourceEntryV::Dir {
                                    name: name@,
                                    entries: entries_view(sub@),
                                });
                                lemma_folders_view_snoc(pre, childg);
                            }
                        },
                    }
                },
                _ => {
                    proof {
                        assert(evs[i as int] == entries@[i as int].view());
                        assert(forest_step(evs[i as int]) =~= Seq::<SpaceFolderV>::empty());
                    }
                },
            }
            proof {
                lemma_forest_snoc(evs.take(i as int), evs[i as int]);
                assert(evs.take(i as int).push(evs[i as int]) =~= evs.take(i + 1));
                assert(folders_view(forest@) =~= built_forest(evs.take(i + 1)));
            }
            i = i + 1;
        }
        proof {
            assert(evs.take(entries@.len() as int) =~= evs);
        }
        forest
    }
}

/// Whether a room declaration carries a room id or an alias (both may be
/// present; the id takes precedence for lookup).
pub open spec fn room_has_identifier(r: RoomMetadataV) -> bool {
    r.id is Some || r.alias is Some
}

/// Whether every user identifier a room pins or has resolved is
/// syntactically valid.
pub open spec fn room_mxids_ok(r: RoomMetadataV) -> bool {
    &&& forall|i: int| 0 <= i < r.admins.len() ==> mxid_ok(#[trigger] r.admins[i])
    &&& forall|i: int| 0 <= i < r.users.len() ==> mxid_ok(#[trigger] r.users[i].mxid)
}

/// A single room declaration passes validation.
pub open spec fn room_valid(r: RoomMetadataV) -> bool {
    room_has_identifier(r) && room_mxids_ok(r)
}

/// A single directory passes validation: its own metadata is present and
/// valid, and so is each room declared inside it.
pub open spec fn node_valid(f: SpaceFolderV) -> bool {
    &&& f.metadata matches Some(m) && room_valid(m)
    &&& forall|i: int| 0 <= i < f.rooms.len() ==> room_valid(#[trigger] f.rooms[i])
}

/// Every reachable directory of the tree passes validation.
pub open spec fn tree_valid(f: SpaceFolderV) -> bool
    decreases f,
{
    node_valid(f) && (forall|i: int|
        0 <= i < f.children.len() ==> tree_valid(#[trigger] f.children[i]))
}

/// What one validation error reports.
pub enum ValidationKind {
    /// A directory lacks its own metadata file.
    MissingMetadata,
    /// A room declaration carries neither a room id nor an alias.
    MissingIdentifier,
    /// A pinned or resolved user identifier is not syntactically valid.
    InvalidUserId { mxid: String },
}

/// One validation error, with enough context to locate the offending
/// declaration: the path of child indices from the root, and the index of
/// the child room inside that directory (`None` for the directory's own
/// metadata).
pub struct ValidationError {
    pub path: Vec<usize>,
    pub room: Option<usize>,
    pub kind: ValidationKind,
}

/// The directory reached by following `path`, a sequence of child indices.
pub open spec fn node_at(f: SpaceFolderV, path: Seq<usize>) -> Option<SpaceFolderV>
    decreases path.len(),
{
    if path.len() == 0 {
        Some(f)
    } else if (path[0] as int) < f.children.len() {
        node_at(f.children[path[0] as int], path.drop_first())
    } else {
        None
    }
}

/// Whether `kind` reports a real defect of the room declaration `r`.
pub open spec fn room_defect(r: RoomMetadataV, kind: ValidationKind) -> bool {
    match kind {
        ValidationKind::MissingMetadata => false,
        ValidationKind::MissingIdentifier => !room_has_identifier(r),
        ValidationKind::InvalidUserId { mxid } => !mxid_ok(mxid@) && (r.admins.contains(mxid@)
            || exists|i: int| 0 <= i < r.users.len() && #[trigger] r.users[i].mxid == mxid@),
    }
}

/// Whether the error described by `relpath`, `room` and `kind` reports a
/// real defect of the tree `f`.
pub open spec fn defect_in(
    f: SpaceFolderV,
    relpath: Seq<usize>,
    room: Option<usize>,
    kind: ValidationKind,
) -> bool {
    match node_at(f, relpath) {
        Some(n) => match room {
            None => match kind {
                ValidationKind::MissingMetadata => n.metadata is None,
                _ => n.metadata matches Some(m) && room_defect(m, kind),
            },
            Some(j) => (j as int) < n.rooms.len() && room_defect(n.rooms[j as int], kind),
        },
        None => false,
    }
}

pub(crate) fn clone_usizes(v: &Vec<usize>) -> (res: Vec<usize>)
    ensures
        res@ == v@,
{
    let mut res: Vec<usize> = Vec::new();
    let mut i: usize = 0;
    while i < v.len()
        invariant
            i <= v.len(),
            res@ == v@.take(i as int),
        decreases v.len() - i,
    {
        res.push(v[i]);
        proof {
            assert(res@ =~= v@.take(i + 1));
        }
        i = i + 1;
    }
    proof {
        assert(v@.take(v.len() as int) =~= v@);
    }
    res
}

/// Whether `e` is an error of the room `room`, recorded under `base` and
/// `room_idx`, reporting a real defect.
pub open spec fn err_for_room(
    e: ValidationError,
    room: RoomMetadataV,
    base: Seq<usize>,
    room_idx: Option<usize>,
) -> bool {
    e.path@ == base && e.room == room_idx && room_defect(room, e.kind)
}

/// Appends to `errs` one error for each defect of the single room
/// declaration `room`: a missing identifier, and each syntactically invalid
/// pinned or resolved user identifier.
#[verifier::rlimit(60)]
fn room_check(
    room: &RoomMetadata,
    path: &Vec<usize>,
    room_idx: Option<usize>,
    errs: &mut Vec<ValidationError>,
)
    ensures
        old(errs)@.len() <= final(errs)@.len(),
        forall|k: int| 0 <= k < old(errs)@.len() ==> final(errs)@[k] == old(errs)@[k],
        (final(errs)@.len() == old(errs)@.len()) <==> room_valid(room@),
        forall|k: int|
            old(errs)@.len() <= k < final(errs)@.len() ==> err_for_room(
                #[trigger] final(errs)@[k],
                room@,
                path@,
                room_idx,
            ),
{
    let ghost start = errs@.len() as int;
    if room.id.is_none() && room.alias.is_none() {
        let e = ValidationError {
            path: clone_usizes(path),
            room: room_idx,
            kind: ValidationKind::MissingIdentifier,
        };
        let ghost eg = e;
        errs.push(e);
        proof {
            assert(err_for_room(eg, room@, path@, room_idx));
            assert(errs@[errs@.len() - 1] == eg);
        }
    }
    let mut i: usize = 0;
    while i < room.admins.len()
        invariant
            i <= room.admins@.len(),
            0 <= start <= errs@.len(),
            forall|k: int| 0 <= k < start ==> errs@[k] == old(errs)@[k],
            (errs@.len() == start) <==> (room_has_identifier(room@) && forall|j: int|
                0 <= j < i ==> mxid_ok(#[trigger] room@.admins[j])),
            forall|k: int|
                start <= k < errs@.len() ==> err_for_room(
                    #[trigger] errs@[k],
                    room@,
                    path@,
                    room_idx,
                ),
        decreases room.admins@.len() - i,
    {
        let ghost pre_errs = errs@;
        proof {
            assert(room@.admins[i as int] == room.admins@[i as int]@);
        }
        if !mxid_is_valid(room.admins[i].as_str()) {
            let bad = room.admins[i].clone();
            proof {
                assert(room@.admins[i as int] == bad@);
                assert(room@.admins.contains(bad@));
            }
            let e = ValidationError {
                path: clone_usizes(path),
                room: room_idx,
                kind: ValidationKind::InvalidUserId { mxid: bad },
            };
            let ghost eg = e;
            errs.push(e);
            proof {
                assert(errs@ == pre_errs.push(eg));
                assert forall|k: int| #![trigger errs@[k]]
                    start <= k && k < errs@.len() implies err_for_room(
                    errs@[k],
                    room@,
                    path@,
                    room_idx,
                ) by {
                    if k < pre_errs.len() {
                        assert(pre_errs.push(eg)[k] == pre_errs[k]);
                        assert(err_for_room(pre_errs[k], room@, path@, room_idx));
                    } else {
                        assert(pre_errs.push(eg)[k] == eg);
                        assert(err_for_room(eg, room@, path@, room_idx));
                    }
                }
            }
        }
        i = i + 1;
    }
    let mut u: usize = 0;
    while u < room.users.len()
        invariant
            u <= room.users@.len(),
            0 <= start <= errs@.len(),
            forall|k: int| 0 <= k < start ==> errs@[k] == old(errs)@[k],
            (errs@.len() == start) <==> (room_has_identifier(room@) && (forall|j: int|
                0 <= j < room@.admins.len() ==> mxid_ok(#[trigger] room@.admins[j])) && (forall|
                j: int,
            |
                0 <= j < u ==> mxid_ok(#[trigger] room@.users[j].mxid))),
            forall|k: int|
                start <= k < errs@.len() ==> err_for_room(
                    #[trigger] errs@[k],
                    room@,
                    path@,
                    room_idx,
                ),
        decreases room.users@.len() - u,
    {
        let ghost pre_errs = errs@;
        proof {
            assert(room@.users[u as int] == room.users@[u as int]@);
        }
        if !mxid_is_valid(room.users[u].mxid.as_str()) {
            let bad = room.users[u].mxid.clone();
            proof {
                assert(room@.users[u as int].mxid == bad@);
                assert(exists|j: int|
                    0 <= j < room@.users.len() && #[trigger] room@.users[j].mxid == bad@);
            }
            let e = ValidationError {
                path: clone_usizes(path),
                room: room_idx,
                kind: ValidationKind::InvalidUserId { mxid: bad },
            };
            let ghost eg = e;
            errs.push(e);
            proof {
                assert(errs@ == pre_errs.push(eg));
                assert forall|k: int| #![trigger errs@[k]]
                    start <= k && k < errs@.len() implies err_for_room(
                    errs@[k],
                    room@,
                    path@,
                    room_idx,
                ) by {
                    if k < pre_errs.len() {
                        assert(pre_errs.push(eg)[k] == pre_errs[k]);
                        assert(err_for_room(pre_errs[k], room@, path@, room_idx));
                    } else {
                        assert(pre_errs.push(eg)[k] == eg);
                        assert(err_for_room(eg, room@, path@, room_idx));
                    }
                }
            }
        }
        u = u + 1;
    }
}

/// Whether every reachable directory has its own metadata and every room
/// declaration carries an id or an alias: the structural half of
/// validation.
pub open spec fn tree_shape_valid(f: SpaceFolderV) -> bool
    decreases f,
{
    &&& f.metadata matches Some(m) && room_has_identifier(m)
    &&& forall|i: int| 0 <= i < f.rooms.len() ==> room_has_identifier(#[trigger] f.rooms[i])
    &&& forall|i: int|
        0 <= i < f.children.len() ==> tree_shape_valid(#[trigger] f.children[i])
}

/// Whether every pinned or resolved user identifier anywhere in the tree
/// is syntactically valid: the identifier half of validation.
pub open spec fn tree_mxids_valid(f: SpaceFolderV) -> bool
    decreases f,
{
    &&& (match f.metadata {
        Some(m) => room_mxids_ok(m),
        None => true,
    })
    &&& forall|i: int| 0 <= i < f.rooms.len() ==> room_mxids_ok(#[trigger] f.rooms[i])
    &&& forall|i: int|
        0 <= i < f.children.len() ==> tree_mxids_valid(#[trigger] f.children[i])
}

/// Validation splits into its two halves: a tree passes exactly when its
/// shape is right and all its user identifiers are valid.  In particular,
/// on a tree whose identifiers are all valid, [`SpaceFolder::check`]
/// returns no errors exactly when every reachable directory has its
/// metadata and every room an id or alias.
pub proof fn lemma_tree_valid_split(f: SpaceFolderV)
    ensures
        tree_valid(f) <==> (tree_shape_valid(f) && tree_mxids_valid(f)),
    decreases f,
{
    assert forall|i: int| 0 <= i < f.children.len() implies (tree_valid(#[trigger] f.children[i])
        <==> (tree_shape_valid(f.children[i]) && tree_mxids_valid(f.children[i]))) by {
        lemma_tree_valid_split(f.children[i]);
    }
}

/// Whether `e`, recorded somewhere below `base`, reports a real defect of
/// the tree `f` rooted at `base`.
pub open spec fn err_witness(f: SpaceFolderV, base: Seq<usize>, e: ValidationError) -> bool {
    &&& e.path@.len() >= base.len()
    &&& e.path@.take(base.len() as int) == base
    &&& defect_in(f, e.path@.skip(base.len() as int), e.room, e.kind)
}

impl SpaceFolder {
    /// Validates the subtree rooted at this directory, appending one error
    /// per defect; `path` locates this directory under the root.
    fn check_rec(&self, path: &Vec<usize>, errs: &mut Vec<ValidationError>)
        ensures
            old(errs)@.len() <= final(errs)@.len(),
            forall|k: int| 0 <= k < old(errs)@.len() ==> final(errs)@[k] == old(errs)@[k],
            (final(errs)@.len() == old(errs)@.len()) <==> tree_valid(self@),
            forall|k: int|
                old(errs)@.len() <= k < final(errs)@.len() ==> err_witness(
                    self@,
                    path@,
                    #[trigger] final(errs)@[k],
                ),
        decreases *self,
    {
        let ghost start = errs@.len() as int;
        let ghost base = path@;
        match &self.metadata {
            None => {
                let e = ValidationError {
                    path: clone_usizes(path),
                    room: None,
                    kind: ValidationKind::MissingMetadata,
                };
                let ghost eg = e;
                let ghost pre = errs@;
                errs.push(e);
                proof {
                    assert(eg.path@.skip(base.len() as int) =~= Seq::<usize>::empty());
                    assert(eg.path@.take(base.len() as int) =~= base);
                    assert(node_at(self@, Seq::<usize>::empty()) == Some(self@));
                    assert(err_witness(self@, base, eg));
                    assert(errs@ == pre.push(eg));
                }
            },
            Some(m) => {
                let ghost pre = errs@;
                room_check(m, path, None, errs);
                proof {
                    assert(self@.metadata == Some(m@));
                    assert forall|k: int| #![trigger errs@[k]]
                        start <= k && k < errs@.len() implies err_witness(
                        self@,
                        base,
                        errs@[k],
                    ) by {
                        assert(errs@[k] == errs@[k]);
                        let e = errs@[k];
                        assert(err_for_room(e, m@, base, None));
                        assert(e.path@.skip(base.len() as int) =~= Seq::<usize>::empty());
                        assert(e.path@.take(base.len() as int) =~= base);
                        assert(node_at(self@, Seq::<usize>::empty()) == Some(self@));
                        assert(room_defect(m@, e.kind));
                        assert(!(e.kind is MissingMetadata));
                    }
                }
            },
        }
        let ghost after_meta = errs@.len() as int;
        let ghost meta_valid = self@.metadata matches Some(m) && room_valid(m);
        proof {
            assert((errs@.len() == start) <==> meta_valid);
        }
        let mut j: usize = 0;
        while j < self.rooms.len()
            invariant
                j <= self.rooms@.len(),
                0 <= start <= errs@.len(),
                base == path@,
                forall|k: int| 0 <= k < start ==> errs@[k] == old(errs)@[k],
                meta_valid == (self@.metadata matches Some(m) && room_valid(m)),
                self@.rooms == self.rooms.deep_view(),
                (errs@.len() == start) <==> (meta_valid && forall|jj: int|
                    0 <= jj < j ==> room_valid(#[trigger] self@.rooms[jj])),
                forall|k: int|
                    start <= k < errs@.len() ==> err_witness(self@, base, #[trigger] errs@[k]),
            decreases self.rooms@.len() - j,
        {
            let ghost pre = errs@;
            proof {
                assert(self@.rooms[j as int] == self.rooms@[j as int]@);
            }
            room_check(&self.rooms[j], path, Some(j), errs);
            proof {
                assert forall|k: int| #![trigger errs@[k]]
                    start <= k && k < errs@.len() implies err_witness(self@, base, errs@[k]) by {
                    if k < pre.len() {
                        assert(errs@[k] == pre[k]);
                        assert(err_witness(self@, base, pre[k]));
                    } else {
                        let e = errs@[k];
                        assert(err_for_room(e, self@.rooms[j as int], base, Some(j)));
                        assert(e.path@.skip(base.len() as int) =~= Seq::<usize>::empty());
                        assert(e.path@.take(base.len() as int) =~= base);
                        assert(node_at(self@, Seq::<usize>::empty()) == Some(self@));
                    }
                }
            }
            j = j + 1;
        }
        let ghost rooms_valid = forall|jj: int|
            0 <= jj < self@.rooms.len() ==> room_valid(#[trigger] self@.rooms[jj]);
        proof {
            assert((errs@.len() == start) <==> (meta_valid && rooms_valid));
            assert((meta_valid && rooms_valid) == node_valid(self@));
            lemma_folders_view(self.children@);
        }
        let mut c: usize = 0;
        while c < self.children.len()
            invariant
                c <= self.children@.len(),
                0 <= start <= errs@.len(),
                base == path@,
                forall|k: int| 0 <= k < start ==> errs@[k] == old(errs)@[k],
                self@.children == folders_view(self.children@),
                self@.children.len() == self.children@.len(),
                forall|i: int|
                    0 <= i < self.children@.len() ==> self@.children[i] == #[trigger] self
                        .children@[i].view(),
                (errs@.len() == start) <==> (node_valid(self@) && forall|cc: int|
                    0 <= cc < c ==> tree_valid(#[trigger] self@.children[cc])),
                forall|k: int|
                    start <= k < errs@.len() ==> err_witness(self@, base, #[trigger] errs@[k]),
            decreases self.children@.len() - c,
        {
            let mut cpath = clone_usizes(path);
            cpath.push(c);
            let ghost pre = errs@;
            proof {
                assert(decreases_to!(*self => self.children@[c as int]));
            }
            self.children[c].check_rec(&cpath, errs);
            proof {
                assert(self@.children[c as int] == self.children@[c as int]@);
                assert forall|k: int| #![trigger errs@[k]]
                    start <= k && k < errs@.len() implies err_witness(self@, base, errs@[k]) by {
                    if k < pre.len() {
                        assert(errs@[k] == pre[k]);
                        assert(err_witness(self@, base, pre[k]));
                    } else {
                        let e = errs@[k];
                        assert(err_witness(self.children@[c as int]@, cpath@, e));
                        let p = e.path@;
                        assert(p.take(base.len() as int + 1) == base.push(c));
                        assert(p.take(base.len() as int) =~= base) by {
                            assert forall|x: int| 0 <= x < base.len() implies p.take(
                                base.len() as int,
                            )[x] == base[x] by {
                                assert(p.take(base.len() as int + 1)[x] == base.push(c)[x]);
                            }
                        }
                        let rel = p.skip(base.len() as int);
                        assert(p.take(base.len() as int + 1)[base.len() as int] == c);
                        assert(rel[0] == p[base.len() as int]);
                        assert(rel[0] == c);
                        assert(rel.drop_first() =~= p.skip(base.len() as int + 1));
                        assert(node_at(self@, rel) == node_at(
                            self@.children[c as int],
                            rel.drop_first(),
                        ));
                        assert(defect_in(self@, rel, e.room, e.kind));
                    }
                }
            }
            c = c + 1;
        }
        proof {
            assert((errs@.len() == start) <==> tree_valid(self@));
        }
    }

    /// Validates the whole subtree rooted at this directory and returns all
    /// its errors: the result is empty exactly when every reachable
    /// directory has metadata with an id or alias and every pinned or
    /// resolved user identifier is syntactically valid; and every returned
    /// error reports a real defect at the path it names.
    pub fn check(&self) -> (errs: Vec<ValidationError>)
        ensures
            (errs@.len() == 0) <==> tree_valid(self@),
            forall|k: int|
                0 <= k < errs@.len() ==> defect_in(
                    self@,
                    (#[trigger] errs@[k]).path@,
                    errs@[k].room,
                    errs@[k].kind,
                ),
    {
        let path: Vec<usize> = Vec::new();
        let mut errs: Vec<ValidationError> = Vec::new();
        self.check_rec(&path, &mut errs);
        proof {
            assert forall|k: int|
                0 <= k < errs@.len() implies defect_in(
                self@,
                (#[trigger] errs@[k]).path@,
                errs@[k].room,
                errs@[k].kind,
            ) by {
                let e = errs@[k];
                assert(err_witness(self@, path@, e));
                assert(e.path@.skip(0) =~= e.path@);
            }
        }
        errs
    }
}

/// The users of a directory's own room, if it has one.
pub open spec fn room_users_part(m: Option<RoomMetadataV>) -> Seq<UserMetadataV> {
    match m {
        Some(r) => r.users,
        None => Seq::empty(),
    }
}

/// The users of a sequence of rooms, concatenated in order.
pub open spec fn rooms_users_seq(rooms: Seq<RoomMetadataV>) -> Seq<UserMetadataV>
    decreases rooms,
{
    if rooms.len() == 0 {
        Seq::empty()
    } else {
        rooms[0].users + rooms_users_seq(rooms.drop_first())
    }
}

/// The users of a sequence of subtrees, concatenated in order.
pub open spec fn children_users_seq(cs: Seq<SpaceFolderV>) -> Seq<UserMetadataV>
    decreases cs,
{
    if cs.len() == 0 {
        Seq::empty()
    } else {
        all_users_seq(cs[0]) + children_users_seq(cs.drop_first())
    }
}

/// Every desired user of the subtree: the directory's own room's users,
/// then each declared room's, then each child subtree's, in order.  This is
/// the reporting view that decides which accounts must be provisioned.
pub open spec fn all_users_seq(f: SpaceFolderV) -> Seq<UserMetadataV>
    decreases f,
{
    room_users_part(f.metadata) + rooms_users_seq(f.rooms) + children_users_seq(f.children)
}

/// One further room contributes its users at the end.
pub proof fn lemma_rooms_users_snoc(s: Seq<RoomMetadataV>, r: RoomMetadataV)
    ensures
        rooms_users_seq(s.push(r)) == rooms_users_seq(s) + r.users,
    decreases s.len(),
{
    if s.len() == 0 {
        assert(s.push(r)[0] == r);
        assert(s.push(r).drop_first() =~= Seq::<RoomMetadataV>::empty());
        assert(rooms_users_seq(Seq::<RoomMetadataV>::empty()) == Seq::<UserMetadataV>::empty());
        assert(rooms_users_seq(s.push(r)) =~= rooms_users_seq(s) + r.users);
    } else {
        assert(s.push(r)[0] == s[0]);
        assert(s.push(r).drop_first() =~= s.drop_first().push(r));
        lemma_rooms_users_snoc(s.drop_first(), r);
        assert(rooms_users_seq(s.push(r)) == s[0].users + rooms_users_seq(s.drop_first().push(r)));
        assert(rooms_users_seq(s) == s[0].users + rooms_users_seq(s.drop_first()));
        assert(rooms_users_seq(s.push(r)) =~= rooms_users_seq(s) + r.users);
    }
}

/// One further subtree contributes its users at the end.
pub proof fn lemma_children_users_snoc(s: Seq<SpaceFolderV>, f: SpaceFolderV)
    ensures
        children_users_seq(s.push(f)) == children_users_seq(s) + all_users_seq(f),
    decreases s.len(),
{
    if s.len() == 0 {
        assert(s.push(f)[0] == f);
        assert(s.push(f).drop_first() =~= Seq::<SpaceFolderV>::empty());
        assert(children_users_seq(Seq::<SpaceFolderV>::empty()) == Seq::<UserMetadataV>::empty());
        assert(children_users_seq(s.push(f)) =~= children_users_seq(s) + all_users_seq(f));
    } else {
        assert(s.push(f)[0] == s[0]);
        assert(s.push(f).drop_first() =~= s.drop_first().push(f));
        lemma_children_users_snoc(s.drop_first(), f);
        assert(children_users_seq(s.push(f)) == all_users_seq(s[0]) + children_users_seq(
            s.drop_first().push(f),
        ));
        assert(children_users_seq(s) == all_users_seq(s[0]) + children_users_seq(s.drop_first()));
        assert(children_users_seq(s.push(f)) =~= children_users_seq(s) + all_users_seq(f));
    }
}

impl SpaceFolder {
    /// All desired users of the subtree, in declaration order: the
    /// directory's own room's resolved users, each declared room's, then
    /// each child subtree's.  A user resolved in several places appears
    /// once per place.
    pub fn get_all_users(&self) -> (users: Vec<UserMetadata>)
        ensures
            users.deep_view() == all_users_seq(self@),
        decreases *self,
    {
        let mut users: Vec<UserMetadata> = Vec::new();
        match &self.metadata {
            Some(m) => {
                let mut part = clone_users(&m.users);
                users.append(&mut part);
            },
            None => {},
        }
        proof {
            assert(users.deep_view() =~= room_users_part(self@.metadata));
        }
        let ghost meta_part = room_users_part(self@.metadata);
        let mut j: usize = 0;
        while j < self.rooms.len()
            invariant
                j <= self.rooms@.len(),
                meta_part == room_users_part(self@.metadata),
                self@.rooms == self.rooms.deep_view(),
                self@.rooms.len() == self.rooms@.len(),
                users.deep_view() == meta_part + rooms_users_seq(self@.rooms.take(j as int)),
            decreases self.rooms@.len() - j,
        {
            let mut part = clone_users(&self.rooms[j].users);
            let ghost pre = users.deep_view();
            let ghost part_deep = part.deep_view();
            users.append(&mut part);
            proof {
                assert(users.deep_view() =~= pre + part_deep);
                assert(self@.rooms[j as int] == self.rooms@[j as int]@);
                lemma_rooms_users_snoc(self@.rooms.take(j as int), self@.rooms[j as int]);
                assert(self@.rooms.take(j as int).push(self@.rooms[j as int]) =~= self@.rooms.take(
                    j as int + 1,
                ));
                assert(pre + part_deep =~= meta_part + rooms_users_seq(
                    self@.rooms.take(j as int + 1),
                ));
            }
            j = j + 1;
        }
        proof {
            assert(self@.rooms.take(self.rooms@.len() as int) =~= self@.rooms);
            lemma_folders_view(self.children@);
        }
        let ghost rooms_part = rooms_users_seq(self@.rooms);
        let mut c: usize = 0;
        while c < self.children.len()
            invariant
                c <= self.children@.len(),
                meta_part == room_users_part(self@.metadata),
                rooms_part == rooms_users_seq(self@.rooms),
                self@.children == folders_view(self.children@),
                self@.children.len() == self.children@.len(),
                forall|i: int|
                    0 <= i < self.children@.len() ==> self@.children[i] == #[trigger] self
                        .children@[i].view(),
                users.deep_view() == meta_part + rooms_part + children_users_seq(
                    self@.children.take(c as int),
                ),
            decreases self.children@.len() - c,
        {
            proof {
                assert(decreases_to!(*self => self.children@[c as int]));
            }
            let mut part = self.children[c].get_all_users();
            let ghost pre = users.deep_view();
            let ghost part_deep = part.deep_view();
            users.append(&mut part);
            proof {
                assert(users.deep_view() =~= pre + part_deep);
                lemma_children_users_snoc(self@.children.take(c as int), self@.children[c as int]);
                assert(self@.children.take(c as int).push(self@.children[c as int])
                    =~= self@.children.take(c as int + 1));
                assert(pre + part_deep =~= meta_part + rooms_part + children_users_seq(
                    self@.children.take(c as int + 1),
                ));
            }
            c = c + 1;
        }
        proof {
            assert(self@.children.take(self.children@.len() as int) =~= self@.children);
            assert(users.deep_view() =~= all_users_seq(self@));
        }
        users
    }
}

/// The DNs named by a sequence of group references, in order.
pub open spec fn groups_dns(gs: Seq<LdapGroupMetadataV>) -> Seq<Seq<char>>
    decreases gs,
{
    if gs.len() == 0 {
        Seq::empty()
    } else {
        seq![gs[0].dn] + groups_dns(gs.drop_first())
    }
}

/// The group DNs of a directory's own room, if it has one.
pub open spec fn room_dns_part(m: Option<RoomMetadataV>) -> Seq<Seq<char>> {
    match m {
        Some(r) => groups_dns(r.ldap_groups),
        None => Seq::empty(),
    }
}

/// The group DNs of a sequence of rooms, concatenated in order.
pub open spec fn rooms_dns_seq(rooms: Seq<RoomMetadataV>) -> Seq<Seq<char>>
    decreases rooms,
{
    if rooms.len() == 0 {
        Seq::empty()
    } else {
        groups_dns(rooms[0].ldap_groups) + rooms_dns_seq(rooms.drop_first())
    }
}

/// The group DNs of a sequence of subtrees, concatenated in order.
pub open spec fn children_dns_seq(cs: Seq<SpaceFolderV>) -> Seq<Seq<char>>
    decreases cs,
{
    if cs.len() == 0 {
        Seq::empty()
    } else {
        all_dns_seq(cs[0]) + children_dns_seq(cs.drop_first())
    }
}

/// Every group DN the subtree references, in declaration order.  This is
/// the list of membership queries a run must make.
pub open spec fn all_dns_seq(f: SpaceFolderV) -> Seq<Seq<char>>
    decreases f,
{
    room_dns_part(f.metadata) + rooms_dns_seq(f.rooms) + children_dns_seq(f.children)
}

/// One further group reference contributes its DN at the end.
pub proof fn lemma_groups_dns_snoc(s: Seq<LdapGroupMetadataV>, g: LdapGroupMetadataV)
    ensures
        groups_dns(s.push(g)) == groups_dns(s) + seq![g.dn],
    decreases s.len(),
{
    if s.len() == 0 {
        assert(s.push(g)[0] == g);
        assert(s.push(g).drop_first() =~= Seq::<LdapGroupMetadataV>::empty());
        assert(groups_dns(Seq::<LdapGroupMetadataV>::empty()) == Seq::<Seq<char>>::empty());
        assert(groups_dns(s.push(g)) =~= groups_dns(s) + seq![g.dn]);
    } else {
        assert(s.push(g)[0] == s[0]);
        assert(s.push(g).drop_first() =~= s.drop_first().push(g));
        lemma_groups_dns_snoc(s.drop_first(), g);
        assert(groups_dns(s.push(g)) == seq![s[0].dn] + groups_dns(s.drop_first().push(g)));
        assert(groups_dns(s) == seq![s[0].dn] + groups_dns(s.drop_first()));
        assert(groups_dns(s.push(g)) =~= groups_dns(s) + seq![g.dn]);
    }
}

/// One further room contributes its group DNs at the end.
pub proof fn lemma_rooms_dns_snoc(s: Seq<RoomMetadataV>, r: RoomMetadataV)
    ensures
        rooms_dns_seq(s.push(r)) == rooms_dns_seq(s) + groups_dns(r.ldap_groups),
    decreases s.len(),
{
    if s.len() == 0 {
        assert(s.push(r)[0] == r);
        assert(s.push(r).drop_first() =~= Seq::<RoomMetadataV>::empty());
        assert(rooms_dns_seq(Seq::<RoomMetadataV>::empty()) == Seq::<Seq<char>>::empty());
        assert(rooms_dns_seq(s.push(r)) =~= rooms_dns_seq(s) + groups_dns(r.ldap_groups));
    } else {
        assert(s.push(r)[0] == s[0]);
        assert(s.push(r).drop_first() =~= s.drop_first().push(r));
        lemma_rooms_dns_snoc(s.drop_first(), r);
        assert(rooms_dns_seq(s.push(r)) == groups_dns(s[0].ldap_groups) + rooms_dns_seq(
            s.drop_first().push(r),
        ));
        assert(rooms_dns_seq(s) == groups_dns(s[0].ldap_groups) + rooms_dns_seq(s.drop_first()));
        assert(rooms_dns_seq(s.push(r)) =~= rooms_dns_seq(s) + groups_dns(r.ldap_groups));
    }
}

/// One further subtree contributes its group DNs at the end.
pub proof fn lemma_children_dns_snoc(s: Seq<SpaceFolderV>, f: SpaceFolderV)
    ensures
        children_dns_seq(s.push(f)) == children_dns_seq(s) + all_dns_seq(f),
    decreases s.len(),
{
    if s.len() == 0 {
        assert(s.push(f)[0] == f);
        assert(s.push(f).drop_first() =~= Seq::<SpaceFolderV>::empty());
        assert(children_dns_seq(Seq::<SpaceFolderV>::empty()) == Seq::<Seq<char>>::empty());
        assert(children_dns_seq(s.push(f)) =~= children_dns_seq(s) + all_dns_seq(f));
    } else {
        assert(s.push(f)[0] == s[0]);
        assert(s.push(f).drop_first() =~= s.drop_first().push(f));
        lemma_children_dns_snoc(s.drop_first(), f);
        assert(children_dns_seq(s.push(f)) == all_dns_seq(s[0]) + children_dns_seq(
            s.drop_first().push(f),
        ));
        assert(children_dns_seq(s) == all_dns_seq(s[0]) + children_dns_seq(s.drop_first()));
        assert(children_dns_seq(s.push(f)) =~= children_dns_seq(s) + all_dns_seq(f));
    }
}

/// Appends the DNs of one room's group references to `dst`.
fn push_groups_dns(dst: &mut Vec<String>, groups: &Vec<LdapGroupMetadata>)
    ensures
        final(dst).deep_view() == old(dst).deep_view() + groups_dns(groups.deep_view()),
{
    let ghost start = dst.deep_view();
    let ghost gv = groups.deep_view();
    let mut g: usize = 0;
    while g < groups.len()
        invariant
            g <= groups@.len(),
            gv == groups.deep_view(),
            gv.len() == groups@.len(),
            dst.deep_view() == start + groups_dns(gv.take(g as int)),
        decreases groups@.len() - g,
    {
        let ghost pre = dst.deep_view();
        let d = groups[g].dn.clone();
        let ghost dg = d@;
        dst.push(d);
        proof {
            assert(dst.deep_view() =~= pre.push(dg));
            assert(gv[g as int] == groups@[g as int]@);
            lemma_groups_dns_snoc(gv.take(g as int), gv[g as int]);
            assert(gv.take(g as int).push(gv[g as int]) =~= gv.take(g as int + 1));
            assert(pre.push(dg) =~= start + groups_dns(gv.take(g as int + 1)));
        }
        g = g + 1;
    }
    proof {
        assert(gv.take(groups@.len() as int) =~= gv);
    }
}

impl SpaceFolder {
    /// Every group DN the subtree references, in declaration order: the
    /// list of membership queries a run must make before resolution.
    pub fn group_dns(&self) -> (dns: Vec<String>)
        ensures
            dns.deep_view() == all_dns_seq(self@),
        decreases *self,
    {
        let mut dns: Vec<String> = Vec::new();
        match &self.metadata {
            Some(m) => {
                push_groups_dns(&mut dns, &m.ldap_groups);
            },
            None => {},
        }
        proof {
            assert(dns.deep_view() =~= room_dns_part(self@.metadata));
        }
        let ghost meta_part = room_dns_part(self@.metadata);
        let mut j: usize = 0;
        while j < self.rooms.len()
            invariant
                j <= self.rooms@.len(),
                meta_part == room_dns_part(self@.metadata),
                self@.rooms == self.rooms.deep_view(),
                self@.rooms.len() == self.rooms@.len(),
                dns.deep_view() == meta_part + rooms_dns_seq(self@.rooms.take(j as int)),
            decreases self.rooms@.len() - j,
        {
            let ghost pre = dns.deep_view();
            push_groups_dns(&mut dns, &self.rooms[j].ldap_groups);
            proof {
                assert(self@.rooms[j as int] == self.rooms@[j as int]@);
                assert(dns.deep_view() == pre + groups_dns(self@.rooms[j as int].ldap_groups));
                lemma_rooms_dns_snoc(self@.rooms.take(j as int), self@.rooms[j as int]);
                assert(self@.rooms.take(j as int).push(self@.rooms[j as int]) =~= self@.rooms.take(
                    j as int + 1,
                ));
                assert(dns.deep_view() =~= meta_part + rooms_dns_seq(self@.rooms.take(j as int + 1)));
            }
            j = j + 1;
        }
        proof {
            assert(self@.rooms.take(self.rooms@.len() as int) =~= self@.rooms);
            lemma_folders_view(self.children@);
        }
        let ghost rooms_part = rooms_dns_seq(self@.rooms);
        let mut c: usize = 0;
        while c < self.children.len()
            invariant
                c <= self.children@.len(),
                meta_part == room_dns_part(self@.metadata),
                rooms_part == rooms_dns_seq(self@.rooms),
                self@.children == folders_view(self.children@),
                self@.children.len() == self.children@.len(),
                forall|i: int|
                    0 <= i < self.children@.len() ==> self@.children[i] == #[trigger] self
                        .children@[i].view(),
                dns.deep_view() == meta_part + rooms_part + children_dns_seq(
                    self@.children.take(c as int),
                ),
            decreases self.children@.len() - c,
        {
            proof {
                assert(decreases_to!(*self => self.children@[c as int]));
            }
            let mut part = self.children[c].group_dns();
            let ghost pre = dns.deep_view();
            let ghost part_deep = part.deep_view();
            dns.append(&mut part);
            proof {
                assert(dns.deep_view() =~= pre + part_deep);
                lemma_children_dns_snoc(self@.children.take(c as int), self@.children[c as int]);
                assert(self@.children.take(c as int).push(self@.children[c as int])
                    =~= self@.children.take(c as int + 1));
                assert(pre + part_deep =~= meta_part + rooms_part + children_dns_seq(
                    self@.children.take(c as int + 1),
                ));
            }
            c = c + 1;
        }
        proof {
            assert(self@.children.take(self.children@.len() as int) =~= self@.children);
            assert(dns.deep_view() =~= all_dns_seq(self@));
        }
        dns
    }
}

} // verus!
