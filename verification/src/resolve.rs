//! The membership aggregator: resolves each room's group references
//! against a directory snapshot, renders one user identity per directory
//! entry through the template engine, and attaches the resolved users to
//! the tree.  Resolution is all-or-nothing per room: a group that is not in
//! the snapshot, or an identity that fails to render, leaves that room
//! untouched and is reported, without stopping other rooms.

use vstd::prelude::*;
use crate::config;
use crate::folders::ExternalId;
use crate::folders::ExternalIdV;
use crate::folders::LdapGroupMetadata;
use crate::folders::LdapGroupMetadataV;
use crate::folders::RoomMetadata;
use crate::folders::RoomMetadataV;
use crate::folders::SpaceFolder;
use crate::folders::SpaceFolderV;
use crate::folders::UserMetadata;
use crate::folders::UserMetadataV;
use crate::folders::clone_users;
use crate::folders::folders_view;
use crate::folders::lemma_folders_view;
use crate::ldap::DirectorySnapshot;
use crate::ldap::LdapResult;
use crate::ldap::LdapResultV;
use crate::ldap::group_lookup;
use crate::template::mxid_template;
use crate::template::render_entry_template;
use crate::template::render_of;
use crate::template::spec_mxid_template;

verus! {

/// Why the resolution of one room failed.
pub enum ResolveError {
    /// The snapshot holds no entry list for this group: its membership
    /// query failed or was never made.
    GroupNotFound { dn: String },
    /// Rendering an identity for a member of this group failed.
    RenderFailed { dn: String },
}

/// One room whose resolution failed: the path of child indices to its
/// directory, the index of the child room there (`None` for the
/// directory's own room), and why.
pub struct ResolveFailure {
    pub path: Vec<usize>,
    pub room: Option<usize>,
    pub error: ResolveError,
}

/// The configured external-id templates, with "none configured" read as an
/// empty list.
pub open spec fn ext_templates(o: Option<Seq<config::ExternalIdV>>) -> Seq<config::ExternalIdV> {
    match o {
        Some(s) => s,
        None => Seq::empty(),
    }
}

/// The rendered user identifier for one directory entry.
pub open spec fn spec_entry_mxid(e: LdapResultV, lp: Seq<char>, sv: Seq<char>) -> Option<
    Seq<char>,
> {
    render_of(spec_mxid_template(lp, sv), e.dn, e.attrs, e.bin_attrs)
}

/// The rendered external-id claims for one directory entry, or `None` when
/// any template fails on it.
pub open spec fn spec_entry_ext_ids(e: LdapResultV, ts: Seq<config::ExternalIdV>) -> Option<
    Seq<ExternalIdV>,
>
    decreases ts,
{
    if ts.len() == 0 {
        Some(Seq::empty())
    } else {
        match render_of(ts[0].external_id_template, e.dn, e.attrs, e.bin_attrs) {
            None => None,
            Some(v) => match spec_entry_ext_ids(e, ts.drop_first()) {
                None => None,
                Some(rest) => Some(
                    seq![(ExternalIdV { auth_provider: ts[0].auth_provider, external_id: v })]
                        + rest,
                ),
            },
        }
    }
}

/// The full identity rendered for one directory entry at one power level,
/// or `None` when the identifier or any external id fails to render.
pub open spec fn spec_entry_user(
    e: LdapResultV,
    pl: int,
    lp: Seq<char>,
    sv: Seq<char>,
    ts: Seq<config::ExternalIdV>,
) -> Option<UserMetadataV> {
    match spec_entry_mxid(e, lp, sv) {
        None => None,
        Some(m) => match spec_entry_ext_ids(e, ts) {
            None => None,
            Some(xs) => Some(
                (UserMetadataV { mxid: m, power_level: pl, external_ids: xs }),
            ),
        },
    }
}

/// The identities rendered for a group's entries, in order, or `None` when
/// any of them fails to render.
pub open spec fn spec_group_users(
    entries: Seq<LdapResultV>,
    pl: int,
    lp: Seq<char>,
    sv: Seq<char>,
    ts: Seq<config::ExternalIdV>,
) -> Option<Seq<UserMetadataV>>
    decreases entries,
{
    if entries.len() == 0 {
        Some(Seq::empty())
    } else {
        match spec_entry_user(entries[0], pl, lp, sv, ts) {
            None => None,
            Some(u) => match spec_group_users(entries.drop_first(), pl, lp, sv, ts) {
                None => None,
                Some(rest) => Some(seq![u] + rest),
            },
        }
    }
}

/// `spec_entry_ext_ids` succeeds exactly when every template renders, and
/// then pairs each configured provider with its rendered value, in order.
pub proof fn lemma_ext_ids_char(e: LdapResultV, ts: Seq<config::ExternalIdV>)
    ensures
        (spec_entry_ext_ids(e, ts) is Some) <==> (forall|j: int|
            0 <= j < ts.len() ==> render_of(
                (#[trigger] ts[j]).external_id_template,
                e.dn,
                e.attrs,
                e.bin_attrs,
            ) is Some),
        spec_entry_ext_ids(e, ts) matches Some(xs) ==> xs.len() == ts.len() && (forall|j: int|
            0 <= j < ts.len() ==> xs[j] == (ExternalIdV {
                auth_provider: (#[trigger] ts[j]).auth_provider,
                external_id: render_of(ts[j].external_id_template, e.dn, e.attrs, e.bin_attrs)->0,
            })),
    decreases ts.len(),
{
    if ts.len() > 0 {
        lemma_ext_ids_char(e, ts.drop_first());
        assert(forall|j: int|
            1 <= j < ts.len() ==> #[trigger] ts[j] == ts.drop_first()[j - 1]);
        if spec_entry_ext_ids(e, ts) is Some {
            let xs = spec_entry_ext_ids(e, ts)->0;
            let rest = spec_entry_ext_ids(e, ts.drop_first())->0;
            assert(xs == seq![(ExternalIdV {
                auth_provider: ts[0].auth_provider,
                external_id: render_of(ts[0].external_id_template, e.dn, e.attrs, e.bin_attrs)->0,
            })] + rest);
            assert(forall|j: int| 1 <= j < ts.len() ==> xs[j] == rest[j - 1]);
        }
    }
}

/// `spec_group_users` succeeds exactly when every entry's identity
/// renders, and then lists one identity per entry, in order.
pub proof fn lemma_group_users_char(
    entries: Seq<LdapResultV>,
    pl: int,
    lp: Seq<char>,
    sv: Seq<char>,
    ts: Seq<config::ExternalIdV>,
)
    ensures
        (spec_group_users(entries, pl, lp, sv, ts) is Some) <==> (forall|j: int|
            0 <= j < entries.len() ==> spec_entry_user(#[trigger] entries[j], pl, lp, sv, ts)
                is Some),
        spec_group_users(entries, pl, lp, sv, ts) matches Some(us) ==> us.len() == entries.len()
            && (forall|j: int|
            0 <= j < entries.len() ==> us[j] == spec_entry_user(
                #[trigger] entries[j],
                pl,
                lp,
                sv,
                ts,
            )->0),
    decreases entries.len(),
{
    if entries.len() > 0 {
        lemma_group_users_char(entries.drop_first(), pl, lp, sv, ts);
        assert(forall|j: int|
            1 <= j < entries.len() ==> #[trigger] entries[j] == entries.drop_first()[j - 1]);
        if spec_group_users(entries, pl, lp, sv, ts) is Some {
            let us = spec_group_users(entries, pl, lp, sv, ts)->0;
            let rest = spec_group_users(entries.drop_first(), pl, lp, sv, ts)->0;
            assert(us == seq![spec_entry_user(entries[0], pl, lp, sv, ts)->0] + rest);
            assert(forall|j: int| 1 <= j < entries.len() ==> us[j] == rest[j - 1]);
        }
    }
}

/// Renders the configured external-id claims for one directory entry.
fn entry_external_ids(entry: &LdapResult, ts: &Vec<config::ExternalId>) -> (r: Option<
    Vec<ExternalId>,
>)
    ensures
        match r {
            Some(v) => spec_entry_ext_ids(entry@, ts.deep_view()) == Some(v.deep_view()),
            None => spec_entry_ext_ids(entry@, ts.deep_view()) is None,
        },
{
    let ghost tsv = ts.deep_view();
    let mut out: Vec<ExternalId> = Vec::new();
    let mut i: usize = 0;
    while i < ts.len()
        invariant
            i <= ts@.len(),
            tsv == ts.deep_view(),
            tsv.len() == ts@.len(),
            out@.len() == i,
            forall|j: int|
                0 <= j < i ==> render_of(
                    (#[trigger] tsv[j]).external_id_template,
                    entry@.dn,
                    entry@.attrs,
                    entry@.bin_attrs,
                ) is Some,
            forall|j: int|
                0 <= j < i ==> out.deep_view()[j] == (ExternalIdV {
                    auth_provider: (#[trigger] tsv[j]).auth_provider,
                    external_id: render_of(
                        tsv[j].external_id_template,
                        entry@.dn,
                        entry@.attrs,
                        entry@.bin_attrs,
                    )->0,
                }),
        decreases ts@.len() - i,
    {
        proof {
            assert(tsv[i as int] == ts@[i as int]@);
        }
        match render_entry_template(ts[i].external_id_template.as_str(), entry) {
            None => {
                proof {
                    lemma_ext_ids_char(entry@, tsv);
                }
                return None;
            },
            Some(v) => {
                out.push(ExternalId { auth_provider: ts[i].auth_provider.clone(), external_id: v });
            },
        }
        i = i + 1;
    }
    proof {
        lemma_ext_ids_char(entry@, tsv);
        assert(spec_entry_ext_ids(entry@, tsv) is Some);
        let xs = spec_entry_ext_ids(entry@, tsv)->0;
        assert forall|j: int| 0 <= j < tsv.len() implies xs[j] == out.deep_view()[j] by {
            assert(xs[j] == (ExternalIdV {
                auth_provider: tsv[j].auth_provider,
                external_id: render_of(
                    tsv[j].external_id_template,
                    entry@.dn,
                    entry@.attrs,
                    entry@.bin_attrs,
                )->0,
            }));
        }
        assert(xs =~= out.deep_view());
        assert(spec_entry_ext_ids(entry@, tsv) == Some(out.deep_view()));
    }
    Some(out)
}

impl LdapGroupMetadata {
    /// Renders one user identity per entry of this group's membership, at
    /// this group's power level, or reports that some identity cannot be
    /// rendered.
    pub fn get_users_metadatas_for_group(
        &self,
        entries: &Vec<LdapResult>,
        localpart_template: &str,
        mx_server_name: &str,
        synapse_external_ids: &Option<Vec<config::ExternalId>>,
    ) -> (r: Option<Vec<UserMetadata>>)
        ensures
            match r {
                Some(v) => spec_group_users(
                    entries.deep_view(),
                    self.power_level as int,
                    localpart_template@,
                    mx_server_name@,
                    ext_templates(synapse_external_ids.deep_view()),
                ) == Some(v.deep_view()),
                None => spec_group_users(
                    entries.deep_view(),
                    self.power_level as int,
                    localpart_template@,
                    mx_server_name@,
                    ext_templates(synapse_external_ids.deep_view()),
                ) is None,
            },
    {
        let t = mxid_template(localpart_template, mx_server_name);
        let empty_ts: Vec<config::ExternalId> = Vec::new();
        let ts: &Vec<config::ExternalId> = match synapse_external_ids {
            Some(v) => v,
            None => &empty_ts,
        };
        let ghost tsx = ext_templates(synapse_external_ids.deep_view());
        proof {
            assert(ts.deep_view() =~= tsx);
        }
        let ghost esv = entries.deep_view();
        let ghost pl = self.power_level as int;
        let ghost lp = localpart_template@;
        let ghost sv = mx_server_name@;
        let mut out: Vec<UserMetadata> = Vec::new();
        let mut i: usize = 0;
        while i < entries.len()
            invariant
                i <= entries@.len(),
                esv == entries.deep_view(),
                esv.len() == entries@.len(),
                tsx == ts.deep_view(),
                tsx == ext_templates(synapse_external_ids.deep_view()),
                lp == localpart_template@,
                sv == mx_server_name@,
                t@ == spec_mxid_template(lp, sv),
                pl == self.power_level as int,
                out@.len() == i,
                forall|j: int|
                    0 <= j < i ==> spec_entry_user(#[trigger] esv[j], pl, lp, sv, tsx) is Some,
                forall|j: int|
                    0 <= j < i ==> out.deep_view()[j] == spec_entry_user(
                        #[trigger] esv[j],
                        pl,
                        lp,
                        sv,
                        tsx,
                    )->0,
            decreases entries@.len() - i,
        {
            proof {
                assert(esv[i as int] == entries@[i as int]@);
            }
            let mxid = match render_entry_template(t.as_str(), &entries[i]) {
                None => {
                    proof {
                        assert(spec_entry_mxid(esv[i as int], lp, sv) is None);
                        lemma_group_users_char(esv, pl, lp, sv, tsx);
                    }
                    return None;
                },
                Some(m) => m,
            };
            let ext = match entry_external_ids(&entries[i], ts) {
                None => {
                    proof {
                        assert(spec_entry_ext_ids(esv[i as int], tsx) is None);
                        lemma_group_users_char(esv, pl, lp, sv, tsx);
                    }
                    return None;
                },
                Some(x) => x,
            };
            let u = UserMetadata {
                mxid,
                power_level: self.power_level,
                external_ids: ext,
            };
            proof {
                assert(u@ == spec_entry_user(esv[i as int], pl, lp, sv, tsx)->0);
            }
            out.push(u);
            i = i + 1;
        }
        proof {
            lemma_group_users_char(esv, pl, lp, sv, tsx);
            assert(spec_group_users(esv, pl, lp, sv, tsx) is Some);
            let us = spec_group_users(esv, pl, lp, sv, tsx)->0;
            assert forall|j: int| 0 <= j < esv.len() implies us[j] == out.deep_view()[j] by {
                assert(us[j] == spec_entry_user(esv[j], pl, lp, sv, tsx)->0);
            }
            assert(us =~= out.deep_view());
            assert(spec_group_users(esv, pl, lp, sv, tsx) == Some(out.deep_view()));
        }
        Some(out)
    }
}

/// Whether one room's group references can all be resolved: each group is
/// in the snapshot and each of its members' identities renders.
pub open spec fn room_resolvable(
    r: RoomMetadataV,
    snap: Seq<(Seq<char>, Seq<LdapResultV>)>,
    lp: Seq<char>,
    sv: Seq<char>,
    ts: Seq<config::ExternalIdV>,
) -> bool {
    forall|i: int|
        0 <= i < r.ldap_groups.len() ==> {
            let g = #[trigger] r.ldap_groups[i];
            group_lookup(snap, g.dn) matches Some(es) && spec_group_users(es, g.power_level, lp, sv, ts)
                is Some
        }
}

/// What one group reference contributes to a room's resolution: the
/// identities rendered for its members, or nothing when it cannot be
/// resolved (the room is then left untouched and reported).
pub open spec fn group_contrib(
    g: LdapGroupMetadataV,
    snap: Seq<(Seq<char>, Seq<LdapResultV>)>,
    lp: Seq<char>,
    sv: Seq<char>,
    ts: Seq<config::ExternalIdV>,
) -> Seq<UserMetadataV> {
    match group_lookup(snap, g.dn) {
        Some(es) => match spec_group_users(es, g.power_level, lp, sv, ts) {
            Some(us) => us,
            None => Seq::empty(),
        },
        None => Seq::empty(),
    }
}

/// The users a room's group references contribute, concatenated in
/// reference order.
pub open spec fn groups_added_users(
    gs: Seq<LdapGroupMetadataV>,
    snap: Seq<(Seq<char>, Seq<LdapResultV>)>,
    lp: Seq<char>,
    sv: Seq<char>,
    ts: Seq<config::ExternalIdV>,
) -> Seq<UserMetadataV>
    decreases gs,
{
    if gs.len() == 0 {
        Seq::empty()
    } else {
        group_contrib(gs[0], snap, lp, sv, ts) + groups_added_users(gs.drop_first(), snap, lp, sv, ts)
    }
}

/// A user is among what the references contribute exactly when some
/// reference contributes it.
pub proof fn lemma_groups_added_membership(
    gs: Seq<LdapGroupMetadataV>,
    snap: Seq<(Seq<char>, Seq<LdapResultV>)>,
    lp: Seq<char>,
    sv: Seq<char>,
    ts: Seq<config::ExternalIdV>,
)
    ensures
        forall|u: UserMetadataV|
            groups_added_users(gs, snap, lp, sv, ts).contains(u) <==> exists|i: int|
                0 <= i < gs.len() && (#[trigger] group_contrib(gs[i], snap, lp, sv, ts)).contains(
                    u,
                ),
    decreases gs.len(),
{
    if gs.len() > 0 {
        lemma_groups_added_membership(gs.drop_first(), snap, lp, sv, ts);
        let head = group_contrib(gs[0], snap, lp, sv, ts);
        let rest = groups_added_users(gs.drop_first(), snap, lp, sv, ts);
        assert(groups_added_users(gs, snap, lp, sv, ts) == head + rest);
        assert forall|u: UserMetadataV|
            groups_added_users(gs, snap, lp, sv, ts).contains(u) implies exists|i: int|
            0 <= i < gs.len() && (#[trigger] group_contrib(gs[i], snap, lp, sv, ts)).contains(
            u) by {
            let w = choose|w: int| 0 <= w < (head + rest).len() && (head + rest)[w] == u;
            if w < head.len() {
                assert(head[w] == u);
                assert(head.contains(u));
                assert((group_contrib(gs[0], snap, lp, sv, ts)).contains(u));
            } else {
                assert(rest[w - head.len()] == u);
                assert(rest.contains(u));
                let i = choose|i: int|
                    0 <= i < gs.drop_first().len() && (#[trigger] group_contrib(
                        gs.drop_first()[i],
                        snap,
                        lp,
                        sv,
                        ts,
                    )).contains(u);
                assert(gs[i + 1] == gs.drop_first()[i]);
                assert((group_contrib(gs[i + 1], snap, lp, sv, ts)).contains(u));
            }
        }
        assert forall|u: UserMetadataV|
            (exists|i: int|
                0 <= i < gs.len() && (#[trigger] group_contrib(gs[i], snap, lp, sv, ts)).contains(
                    u,
                )) implies groups_added_users(gs, snap, lp, sv, ts).contains(u) by {
            let i = choose|i: int|
                0 <= i < gs.len() && (#[trigger] group_contrib(gs[i], snap, lp, sv, ts)).contains(
                    u,
                );
            if i == 0 {
                let w = choose|w: int| 0 <= w < head.len() && head[w] == u;
                assert((head + rest)[w] == u);
            } else {
                assert(gs.drop_first()[i - 1] == gs[i]);
                assert((group_contrib(gs.drop_first()[i - 1], snap, lp, sv, ts)).contains(u));
                assert(rest.contains(u));
                let w = choose|w: int| 0 <= w < rest.len() && rest[w] == u;
                assert((head + rest)[head.len() + w] == u);
            }
        }
    }
}

/// Resolution is order-independent: two rooms whose group references name
/// the same set of groups at the same power levels, resolved against the
/// same snapshot, server name and templates, gain the same set of users,
/// whatever order the references are listed and processed in.
pub proof fn lemma_resolution_order_independent(
    refs1: Seq<LdapGroupMetadataV>,
    refs2: Seq<LdapGroupMetadataV>,
    snap: Seq<(Seq<char>, Seq<LdapResultV>)>,
    lp: Seq<char>,
    sv: Seq<char>,
    ts: Seq<config::ExternalIdV>,
)
    requires
        forall|g: LdapGroupMetadataV| refs1.contains(g) <==> refs2.contains(g),
    ensures
        groups_added_users(refs1, snap, lp, sv, ts).to_set() == groups_added_users(
            refs2,
            snap,
            lp,
            sv,
            ts,
        ).to_set(),
{
    lemma_groups_added_membership(refs1, snap, lp, sv, ts);
    lemma_groups_added_membership(refs2, snap, lp, sv, ts);
    assert forall|u: UserMetadataV|
        groups_added_users(refs1, snap, lp, sv, ts).contains(u) implies groups_added_users(
        refs2,
        snap,
        lp,
        sv,
        ts,
    ).contains(u) by {
        let i = choose|i: int|
            0 <= i < refs1.len() && (#[trigger] group_contrib(refs1[i], snap, lp, sv, ts)).contains(
                u,
            );
        assert(refs1.contains(refs1[i]));
        assert(refs2.contains(refs1[i]));
        let j = choose|j: int| 0 <= j < refs2.len() && refs2[j] == refs1[i];
        assert((group_contrib(refs2[j], snap, lp, sv, ts)).contains(u));
    }
    assert forall|u: UserMetadataV|
        groups_added_users(refs2, snap, lp, sv, ts).contains(u) implies groups_added_users(
        refs1,
        snap,
        lp,
        sv,
        ts,
    ).contains(u) by {
        let i = choose|i: int|
            0 <= i < refs2.len() && (#[trigger] group_contrib(refs2[i], snap, lp, sv, ts)).contains(
                u,
            );
        assert(refs2.contains(refs2[i]));
        assert(refs1.contains(refs2[i]));
        let j = choose|j: int| 0 <= j < refs1.len() && refs1[j] == refs2[i];
        assert((group_contrib(refs1[j], snap, lp, sv, ts)).contains(u));
    }
    assert(groups_added_users(refs1, snap, lp, sv, ts).to_set() =~= groups_added_users(
        refs2,
        snap,
        lp,
        sv,
        ts,
    ).to_set());
}

/// One further group reference contributes its users at the end.
pub proof fn lemma_groups_added_snoc(
    gs: Seq<LdapGroupMetadataV>,
    g: LdapGroupMetadataV,
    snap: Seq<(Seq<char>, Seq<LdapResultV>)>,
    lp: Seq<char>,
    sv: Seq<char>,
    ts: Seq<config::ExternalIdV>,
)
    ensures
        groups_added_users(gs.push(g), snap, lp, sv, ts) == groups_added_users(gs, snap, lp, sv, ts)
            + (match group_lookup(snap, g.dn) {
            Some(es) => match spec_group_users(es, g.power_level, lp, sv, ts) {
                Some(us) => us,
                None => Seq::empty(),
            },
            None => Seq::empty(),
        }),
    decreases gs.len(),
{
    let tail = (match group_lookup(snap, g.dn) {
        Some(es) => match spec_group_users(es, g.power_level, lp, sv, ts) {
            Some(us) => us,
            None => Seq::<UserMetadataV>::empty(),
        },
        None => Seq::<UserMetadataV>::empty(),
    });
    if gs.len() == 0 {
        assert(gs.push(g)[0] == g);
        assert(gs.push(g).drop_first() =~= Seq::<LdapGroupMetadataV>::empty());
        assert(groups_added_users(Seq::<LdapGroupMetadataV>::empty(), snap, lp, sv, ts)
            == Seq::<UserMetadataV>::empty());
        assert(groups_added_users(gs.push(g), snap, lp, sv, ts) =~= groups_added_users(
            gs,
            snap,
            lp,
            sv,
            ts,
        ) + tail);
    } else {
        assert(gs.push(g)[0] == gs[0]);
        assert(gs.push(g).drop_first() =~= gs.drop_first().push(g));
        lemma_groups_added_snoc(gs.drop_first(), g, snap, lp, sv, ts);
        assert(groups_added_users(gs.push(g), snap, lp, sv, ts) =~= groups_added_users(
            gs,
            snap,
            lp,
            sv,
            ts,
        ) + tail);
    }
}

/// A room after resolution: its resolved users extended by what its group
/// references contribute, in order, when all of them resolve; the room
/// unchanged otherwise.
pub open spec fn resolved_room(
    r: RoomMetadataV,
    snap: Seq<(Seq<char>, Seq<LdapResultV>)>,
    lp: Seq<char>,
    sv: Seq<char>,
    ts: Seq<config::ExternalIdV>,
) -> RoomMetadataV {
    if room_resolvable(r, snap, lp, sv, ts) {
        RoomMetadataV { users: r.users + groups_added_users(r.ldap_groups, snap, lp, sv, ts), ..r }
    } else {
        r
    }
}

/// Each room of a sequence after resolution, in order.
pub open spec fn rooms_resolved(
    rooms: Seq<RoomMetadataV>,
    snap: Seq<(Seq<char>, Seq<LdapResultV>)>,
    lp: Seq<char>,
    sv: Seq<char>,
    ts: Seq<config::ExternalIdV>,
) -> Seq<RoomMetadataV>
    decreases rooms,
{
    if rooms.len() == 0 {
        Seq::empty()
    } else {
        seq![resolved_room(rooms[0], snap, lp, sv, ts)] + rooms_resolved(
            rooms.drop_first(),
            snap,
            lp,
            sv,
            ts,
        )
    }
}

/// Each subtree of a sequence after resolution, in order.
pub open spec fn children_populated(
    cs: Seq<SpaceFolderV>,
    snap: Seq<(Seq<char>, Seq<LdapResultV>)>,
    lp: Seq<char>,
    sv: Seq<char>,
    ts: Seq<config::ExternalIdV>,
) -> Seq<SpaceFolderV>
    decreases cs,
{
    if cs.len() == 0 {
        Seq::empty()
    } else {
        seq![populated(cs[0], snap, lp, sv, ts)] + children_populated(
            cs.drop_first(),
            snap,
            lp,
            sv,
            ts,
        )
    }
}

/// The whole tree after resolution: every room of every reachable
/// directory resolved against the snapshot.
pub open spec fn populated(
    f: SpaceFolderV,
    snap: Seq<(Seq<char>, Seq<LdapResultV>)>,
    lp: Seq<char>,
    sv: Seq<char>,
    ts: Seq<config::ExternalIdV>,
) -> SpaceFolderV
    decreases f,
{
    SpaceFolderV {
        metadata: match f.metadata {
            Some(m) => Some(resolved_room(m, snap, lp, sv, ts)),
            None => None,
        },
        rooms: rooms_resolved(f.rooms, snap, lp, sv, ts),
        children: children_populated(f.children, snap, lp, sv, ts),
    }
}

/// Whether every room of every reachable directory resolves.
pub open spec fn tree_resolvable(
    f: SpaceFolderV,
    snap: Seq<(Seq<char>, Seq<LdapResultV>)>,
    lp: Seq<char>,
    sv: Seq<char>,
    ts: Seq<config::ExternalIdV>,
) -> bool
    decreases f,
{
    &&& (match f.metadata {
        Some(m) => room_resolvable(m, snap, lp, sv, ts),
        None => true,
    })
    &&& (forall|i: int|
        0 <= i < f.rooms.len() ==> room_resolvable(#[trigger] f.rooms[i], snap, lp, sv, ts))
    &&& (forall|i: int|
        0 <= i < f.children.len() ==> tree_resolvable(#[trigger] f.children[i], snap, lp, sv, ts))
}

/// One further room after resolution, at the end.
pub proof fn lemma_rooms_resolved_snoc(
    s: Seq<RoomMetadataV>,
    r: RoomMetadataV,
    snap: Seq<(Seq<char>, Seq<LdapResultV>)>,
    lp: Seq<char>,
    sv: Seq<char>,
    ts: Seq<config::ExternalIdV>,
)
    ensures
        rooms_resolved(s.push(r), snap, lp, sv, ts) == rooms_resolved(s, snap, lp, sv, ts) + seq![
            resolved_room(r, snap, lp, sv, ts),
        ],
    decreases s.len(),
{
    if s.len() == 0 {
        assert(s.push(r)[0] == r);
        assert(s.push(r).drop_first() =~= Seq::<RoomMetadataV>::empty());
        assert(rooms_resolved(Seq::<RoomMetadataV>::empty(), snap, lp, sv, ts)
            == Seq::<RoomMetadataV>::empty());
        assert(rooms_resolved(s.push(r), snap, lp, sv, ts) =~= rooms_resolved(s, snap, lp, sv, ts)
            + seq![resolved_room(r, snap, lp, sv, ts)]);
    } else {
        assert(s.push(r)[0] == s[0]);
        assert(s.push(r).drop_first() =~= s.drop_first().push(r));
        lemma_rooms_resolved_snoc(s.drop_first(), r, snap, lp, sv, ts);
        assert(rooms_resolved(s.push(r), snap, lp, sv, ts) =~= rooms_resolved(s, snap, lp, sv, ts)
            + seq![resolved_room(r, snap, lp, sv, ts)]);
    }
}

/// One further subtree after resolution, at the end.
pub proof fn lemma_children_populated_snoc(
    s: Seq<SpaceFolderV>,
    f: SpaceFolderV,
    snap: Seq<(Seq<char>, Seq<LdapResultV>)>,
    lp: Seq<char>,
    sv: Seq<char>,
    ts: Seq<config::ExternalIdV>,
)
    ensures
        children_populated(s.push(f), snap, lp, sv, ts) == children_populated(s, snap, lp, sv, ts)
            + seq![populated(f, snap, lp, sv, ts)],
    decreases s.len(),
{
    if s.len() == 0 {
        assert(s.push(f)[0] == f);
        assert(s.push(f).drop_first() =~= Seq::<SpaceFolderV>::empty());
        assert(children_populated(Seq::<SpaceFolderV>::empty(), snap, lp, sv, ts)
            == Seq::<SpaceFolderV>::empty());
        assert(children_populated(s.push(f), snap, lp, sv, ts) =~= children_populated(
            s,
            snap,
            lp,
            sv,
            ts,
        ) + seq![populated(f, snap, lp, sv, ts)]);
    } else {
        assert(s.push(f)[0] == s[0]);
        assert(s.push(f).drop_first() =~= s.drop_first().push(f));
        lemma_children_populated_snoc(s.drop_first(), f, snap, lp, sv, ts);
        assert(children_populated(s.push(f), snap, lp, sv, ts) =~= children_populated(
            s,
            snap,
            lp,
            sv,
            ts,
        ) + seq![populated(f, snap, lp, sv, ts)]);
    }
}

/// Resolves one room against the snapshot: on success the room with its
/// users extended, on failure the room unchanged and the reason.
fn resolve_room(
    room: &RoomMetadata,
    snap: &DirectorySnapshot,
    localpart_template: &str,
    mx_server_name: &str,
    synapse_external_ids: &Option<Vec<config::ExternalId>>,
) -> (r: (RoomMetadata, Option<ResolveError>))
    ensures
        r.0@ == resolved_room(
            room@,
            snap.groups.deep_view(),
            localpart_template@,
            mx_server_name@,
            ext_templates(synapse_external_ids.deep_view()),
        ),
        (r.1 is None) <==> room_resolvable(
            room@,
            snap.groups.deep_view(),
            localpart_template@,
            mx_server_name@,
            ext_templates(synapse_external_ids.deep_view()),
        ),
{
    let ghost snapv = snap.groups.deep_view();
    let ghost lp = localpart_template@;
    let ghost sv = mx_server_name@;
    let ghost tsx = ext_templates(synapse_external_ids.deep_view());
    let ghost gv = room.ldap_groups.deep_view();
    let mut added: Vec<UserMetadata> = Vec::new();
    let mut g: usize = 0;
    while g < room.ldap_groups.len()
        invariant
            g <= room.ldap_groups@.len(),
            snapv == snap.groups.deep_view(),
            lp == localpart_template@,
            sv == mx_server_name@,
            tsx == ext_templates(synapse_external_ids.deep_view()),
            gv == room.ldap_groups.deep_view(),
            gv.len() == room.ldap_groups@.len(),
            gv == room@.ldap_groups,
            forall|j: int|
                0 <= j < g ==> {
                    let gr = #[trigger] gv[j];
                    group_lookup(snapv, gr.dn) matches Some(es) && spec_group_users(
                        es,
                        gr.power_level,
                        lp,
                        sv,
                        tsx,
                    ) is Some
                },
            added.deep_view() == groups_added_users(gv.take(g as int), snapv, lp, sv, tsx),
        decreases room.ldap_groups@.len() - g,
    {
        proof {
            assert(gv[g as int] == room.ldap_groups@[g as int]@);
        }
        let entries = match snap.members_of(&room.ldap_groups[g].dn) {
            None => {
                proof {
                    assert(group_lookup(snapv, gv[g as int].dn) is None);
                }
                return (room.clone(), Some(ResolveError::GroupNotFound {
                    dn: room.ldap_groups[g].dn.clone(),
                }));
            },
            Some(es) => es,
        };
        let users = match room.ldap_groups[g].get_users_metadatas_for_group(
            entries,
            localpart_template,
            mx_server_name,
            synapse_external_ids,
        ) {
            None => {
                proof {
                    assert(spec_group_users(entries.deep_view(), gv[g as int].power_level, lp, sv, tsx)
                        is None);
                }
                return (room.clone(), Some(ResolveError::RenderFailed {
                    dn: room.ldap_groups[g].dn.clone(),
                }));
            },
            Some(us) => us,
        };
        let ghost pre = added.deep_view();
        let ghost users_deep = users.deep_view();
        let mut users_mut = users;
        added.append(&mut users_mut);
        proof {
            assert(added.deep_view() =~= pre + users_deep);
            lemma_groups_added_snoc(gv.take(g as int), gv[g as int], snapv, lp, sv, tsx);
            assert(gv.take(g as int).push(gv[g as int]) =~= gv.take(g as int + 1));
            assert(added.deep_view() =~= groups_added_users(gv.take(g as int + 1), snapv, lp, sv, tsx));
        }
        g = g + 1;
    }
    proof {
        assert(gv.take(room.ldap_groups@.len() as int) =~= gv);
        assert(room_resolvable(room@, snapv, lp, sv, tsx));
    }
    let mut out = room.clone();
    let mut users = clone_users(&room.users);
    users.append(&mut added);
    out.users = users;
    proof {
        assert(out@.users =~= room@.users + groups_added_users(gv, snapv, lp, sv, tsx));
        assert(out@ =~= resolved_room(room@, snapv, lp, sv, tsx));
    }
    (out, None)
}

impl SpaceFolder {
    /// Resolves every room of the subtree against the snapshot, returning
    /// the populated tree and one failure report per room whose resolution
    /// failed; such a room is left untouched, and other rooms and branches
    /// are still resolved.  `path` locates this directory for the reports.
    fn populate_rec(
        &self,
        snap: &DirectorySnapshot,
        localpart_template: &str,
        mx_server_name: &str,
        synapse_external_ids: &Option<Vec<config::ExternalId>>,
        path: &Vec<usize>,
    ) -> (r: (SpaceFolder, Vec<ResolveFailure>))
        ensures
            r.0@ == populated(
                self@,
                snap.groups.deep_view(),
                localpart_template@,
                mx_server_name@,
                ext_templates(synapse_external_ids.deep_view()),
            ),
            (r.1@.len() == 0) <==> tree_resolvable(
                self@,
                snap.groups.deep_view(),
                localpart_template@,
                mx_server_name@,
                ext_templates(synapse_external_ids.deep_view()),
            ),
        decreases *self,
    {
        let ghost snapv = snap.groups.deep_view();
        let ghost lp = localpart_template@;
        let ghost sv = mx_server_name@;
        let ghost tsx = ext_templates(synapse_external_ids.deep_view());
        let mut failures: Vec<ResolveFailure> = Vec::new();
        let new_meta: Option<RoomMetadata> = match &self.metadata {
            None => None,
            Some(m) => {
                let (nm, fail) = resolve_room(
                    m,
                    snap,
                    localpart_template,
                    mx_server_name,
                    synapse_external_ids,
                );
                match fail {
                    Some(e) => {
                        failures.push(ResolveFailure {
                            path: crate::folders::clone_usizes(path),
                            room: None,
                            error: e,
                        });
                    },
                    None => {},
                }
                Some(nm)
            },
        };
        let ghost meta_ok = match self@.metadata {
            Some(m) => room_resolvable(m, snapv, lp, sv, tsx),
            None => true,
        };
        proof {
            assert((failures@.len() == 0) <==> meta_ok);
        }
        let mut new_rooms: Vec<RoomMetadata> = Vec::new();
        let mut j: usize = 0;
        while j < self.rooms.len()
            invariant
                j <= self.rooms@.len(),
                snapv == snap.groups.deep_view(),
                lp == localpart_template@,
                sv == mx_server_name@,
                tsx == ext_templates(synapse_external_ids.deep_view()),
                self@.rooms == self.rooms.deep_view(),
                self@.rooms.len() == self.rooms@.len(),
                meta_ok == (match self@.metadata {
                    Some(m) => room_resolvable(m, snapv, lp, sv, tsx),
                    None => true,
                }),
                new_rooms.deep_view() == rooms_resolved(self@.rooms.take(j as int), snapv, lp, sv, tsx),
                (failures@.len() == 0) <==> (meta_ok && forall|jj: int|
                    0 <= jj < j ==> room_resolvable(#[trigger] self@.rooms[jj], snapv, lp, sv, tsx)),
            decreases self.rooms@.len() - j,
        {
            proof {
                assert(self@.rooms[j as int] == self.rooms@[j as int]@);
            }
            let (nr, fail) = resolve_room(
                &self.rooms[j],
                snap,
                localpart_template,
                mx_server_name,
                synapse_external_ids,
            );
            match fail {
                Some(e) => {
                    failures.push(ResolveFailure {
                        path: crate::folders::clone_usizes(path),
                        room: Some(j),
                        error: e,
                    });
                },
                None => {},
            }
            let ghost pre = new_rooms.deep_view();
            let ghost nrv = nr@;
            new_rooms.push(nr);
            proof {
                assert(new_rooms.deep_view() =~= pre.push(nrv));
                lemma_rooms_resolved_snoc(self@.rooms.take(j as int), self@.rooms[j as int], snapv, lp, sv, tsx);
                assert(self@.rooms.take(j as int).push(self@.rooms[j as int]) =~= self@.rooms.take(
                    j as int + 1,
                ));
                assert(new_rooms.deep_view() =~= rooms_resolved(
                    self@.rooms.take(j as int + 1),
                    snapv,
                    lp,
                    sv,
                    tsx,
                ));
            }
            j = j + 1;
        }
        proof {
            assert(self@.rooms.take(self.rooms@.len() as int) =~= self@.rooms);
            lemma_folders_view(self.children@);
        }
        let ghost rooms_ok = forall|jj: int|
            0 <= jj < self@.rooms.len() ==> room_resolvable(#[trigger] self@.rooms[jj], snapv, lp, sv, tsx);
        let mut new_children: Vec<SpaceFolder> = Vec::new();
        let mut c: usize = 0;
        while c < self.children.len()
            invariant
                c <= self.children@.len(),
                snapv == snap.groups.deep_view(),
                lp == localpart_template@,
                sv == mx_server_name@,
                tsx == ext_templates(synapse_external_ids.deep_view()),
                meta_ok == (match self@.metadata {
                    Some(m) => room_resolvable(m, snapv, lp, sv, tsx),
                    None => true,
                }),
                rooms_ok == (forall|jj: int|
                    0 <= jj < self@.rooms.len() ==> room_resolvable(
                        #[trigger] self@.rooms[jj],
                        snapv,
                        lp,
                        sv,
                        tsx,
                    )),
                self@.children == folders_view(self.children@),
                self@.children.len() == self.children@.len(),
                forall|i: int|
                    0 <= i < self.children@.len() ==> self@.children[i] == #[trigger] self
                        .children@[i].view(),
                folders_view(new_children@) == children_populated(
                    self@.children.take(c as int),
                    snapv,
                    lp,
                    sv,
                    tsx,
                ),
                (failures@.len() == 0) <==> (meta_ok && rooms_ok && forall|cc: int|
                    0 <= cc < c ==> tree_resolvable(#[trigger] self@.children[cc], snapv, lp, sv, tsx)),
            decreases self.children@.len() - c,
        {
            let mut cpath = crate::folders::clone_usizes(path);
            cpath.push(c);
            proof {
                assert(decreases_to!(*self => self.children@[c as int]));
            }
            let (nc, mut cfails) = self.children[c].populate_rec(
                snap,
                localpart_template,
                mx_server_name,
                synapse_external_ids,
                &cpath,
            );
            let ghost had_fail = cfails@.len() > 0;
            let ghost pre_children = new_children@;
            let ghost ncv = nc@;
            new_children.push(nc);
            failures.append(&mut cfails);
            proof {
                assert(self@.children[c as int] == self.children@[c as int]@);
                crate::folders::lemma_folders_view_snoc(pre_children, new_children@[new_children@.len() - 1]);
                assert(folders_view(new_children@) =~= folders_view(pre_children) + seq![ncv]);
                lemma_children_populated_snoc(
                    self@.children.take(c as int),
                    self@.children[c as int],
                    snapv,
                    lp,
                    sv,
                    tsx,
                );
                assert(self@.children.take(c as int).push(self@.children[c as int])
                    =~= self@.children.take(c as int + 1));
                assert(folders_view(new_children@) =~= children_populated(
                    self@.children.take(c as int + 1),
                    snapv,
                    lp,
                    sv,
                    tsx,
                ));
            }
            c = c + 1;
        }
        proof {
            assert(self@.children.take(self.children@.len() as int) =~= self@.children);
        }
        let out = SpaceFolder { metadata: new_meta, rooms: new_rooms, children: new_children };
        proof {
            assert(out@ =~= populated(self@, snapv, lp, sv, tsx));
            assert((failures@.len() == 0) <==> tree_resolvable(self@, snapv, lp, sv, tsx));
        }
        (out, failures)
    }

    /// Resolves every room of the subtree against the snapshot: each
    /// room's `users` is extended with one identity per member of each of
    /// its group references, rendered through the configured templates.  A
    /// room with a group missing from the snapshot or an identity that
    /// fails to render is left untouched and reported; the rest of the
    /// tree is still resolved.
    pub fn populate_rooms_users(
        &self,
        snap: &DirectorySnapshot,
        localpart_template: &str,
        mx_server_name: &str,
        synapse_external_ids: &Option<Vec<config::ExternalId>>,
    ) -> (r: (SpaceFolder, Vec<ResolveFailure>))
        ensures
            r.0@ == populated(
                self@,
                snap.groups.deep_view(),
                localpart_template@,
                mx_server_name@,
                ext_templates(synapse_external_ids.deep_view()),
            ),
            (r.1@.len() == 0) <==> tree_resolvable(
                self@,
                snap.groups.deep_view(),
                localpart_template@,
                mx_server_name@,
                ext_templates(synapse_external_ids.deep_view()),
            ),
    {
        let path: Vec<usize> = Vec::new();
        self.populate_rec(snap, localpart_template, mx_server_name, synapse_external_ids, &path)
    }
}

} // verus!
