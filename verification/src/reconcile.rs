//! The reconciliation planner: what to look up, what to create, and the
//! minimal membership mutations that make a live room match its desired
//! state.  The caller performs the remote calls and feeds the results back;
//! every decision is taken here.

use vstd::prelude::*;
use crate::folders::ExternalId;
use crate::folders::RoomMetadata;
use crate::folders::RoomMetadataV;
use crate::folders::SpaceFolder;
use crate::folders::SpaceFolderV;
use crate::folders::UserMetadata;
use crate::folders::clone_strings;
use crate::folders::clone_usizes;
use crate::folders::folders_view;
use crate::folders::lemma_folders_view;

verus! {

/// The power level granted to explicitly pinned admins.
pub const ADMIN_POWER_LEVEL: i32 = 100;

/// One member as the planner sees it: the user id and a power level.
pub struct MemberState {
    pub mxid: String,
    pub power_level: i32,
}

/// The mathematical value of a [`MemberState`].
#[verifier::ext_equal]
pub ghost struct MemberStateV {
    pub mxid: Seq<char>,
    pub power_level: int,
}

impl View for MemberState {
    type V = MemberStateV;

    open spec fn view(&self) -> MemberStateV {
        MemberStateV { mxid: self.mxid@, power_level: self.power_level as int }
    }
}

impl DeepView for MemberState {
    type V = MemberStateV;

    open spec fn deep_view(&self) -> MemberStateV {
        self.view()
    }
}

impl Clone for MemberState {
    fn clone(&self) -> (res: Self)
        ensures
            res@ == self@,
    {
        MemberState { mxid: self.mxid.clone(), power_level: self.power_level }
    }
}

/// Whether some member of `s` carries the id `m`.
pub open spec fn has_mxid(s: Seq<MemberStateV>, m: Seq<char>) -> bool {
    exists|i: int| 0 <= i < s.len() && (#[trigger] s[i]).mxid == m
}

/// Whether no id appears twice in `s`.
pub open spec fn unique_mxids(s: Seq<MemberStateV>) -> bool {
    forall|i: int, j: int| 0 <= i < j < s.len() ==> (#[trigger] s[i]).mxid != (#[trigger] s[j]).mxid
}

/// The member list read as a map from user id to power level; an id that
/// appears several times keeps its first power level.
pub open spec fn member_map(s: Seq<MemberStateV>) -> Map<Seq<char>, int>
    decreases s,
{
    if s.len() == 0 {
        Map::empty()
    } else {
        member_map(s.drop_first()).insert(s[0].mxid, s[0].power_level)
    }
}

/// The member map's domain is the set of ids in the list, and on a list
/// without repeated ids each member keeps its own level.
pub proof fn lemma_member_map(s: Seq<MemberStateV>)
    ensures
        forall|m: Seq<char>| #[trigger] member_map(s).dom().contains(m) <==> has_mxid(s, m),
        unique_mxids(s) ==> forall|i: int|
            0 <= i < s.len() ==> member_map(s)[(#[trigger] s[i]).mxid] == s[i].power_level,
    decreases s.len(),
{
    if s.len() > 0 {
        lemma_member_map(s.drop_first());
        assert forall|m: Seq<char>| #[trigger] member_map(s).dom().contains(m) implies has_mxid(
            s,
            m,
        ) by {
            if m == s[0].mxid {
                assert(s[0].mxid == m);
            } else {
                assert(member_map(s.drop_first()).dom().contains(m));
                let i = choose|i: int|
                    0 <= i < s.drop_first().len() && (#[trigger] s.drop_first()[i]).mxid == m;
                assert(s[i + 1] == s.drop_first()[i]);
                assert((s[i + 1]).mxid == m);
            }
        }
        assert forall|m: Seq<char>| has_mxid(s, m) implies #[trigger] member_map(s).dom().contains(
            m,
        ) by {
            let i = choose|i: int| 0 <= i < s.len() && (#[trigger] s[i]).mxid == m;
            assert(member_map(s) == member_map(s.drop_first()).insert(s[0].mxid, s[0].power_level));
            if s[0].mxid == m {
            } else {
                assert(i != 0);
                assert(s.drop_first()[i - 1] == s[i]);
                assert(has_mxid(s.drop_first(), m));
                assert(member_map(s.drop_first()).dom().contains(m));
            }
        }
        if unique_mxids(s) {
            assert forall|i: int, j: int|
                0 <= i < j < s.drop_first().len() implies (#[trigger] s.drop_first()[i]).mxid != (
            #[trigger] s.drop_first()[j]).mxid by {
                assert(s.drop_first()[i] == s[i + 1]);
                assert(s.drop_first()[j] == s[j + 1]);
            }
            assert(unique_mxids(s.drop_first()));
            assert forall|i: int|
                0 <= i < s.len() implies member_map(s)[(#[trigger] s[i]).mxid] == s[i].power_level by {
                if i == 0 {
                } else {
                    assert(s.drop_first()[i - 1] == s[i]);
                    assert(member_map(s.drop_first())[s[i].mxid] == s[i].power_level);
                    assert(s[0].mxid != s[i].mxid);
                }
            }
        }
    }
}

/// The membership mutations that reconcile one room: members to invite at
/// a power level, members whose power level must change, and members to
/// remove.
pub struct MembershipPlan {
    pub adds: Vec<MemberState>,
    pub power_changes: Vec<MemberState>,
    pub removes: Vec<String>,
}

/// How often `m` occurs in `s`.
pub open spec fn count_str(s: Seq<Seq<char>>, m: Seq<char>) -> nat
    decreases s,
{
    if s.len() == 0 {
        0
    } else {
        (if s[0] == m {
            1nat
        } else {
            0nat
        }) + count_str(s.drop_first(), m)
    }
}

/// In a list without repeats, an element it holds occurs exactly once.
pub proof fn lemma_count_unique(s: Seq<Seq<char>>, m: Seq<char>)
    requires
        forall|i: int, j: int| 0 <= i < j < s.len() ==> s[i] != s[j],
    ensures
        s.contains(m) ==> count_str(s, m) == 1,
        !s.contains(m) ==> count_str(s, m) == 0,
    decreases s.len(),
{
    if s.len() > 0 {
        assert forall|i: int, j: int|
            0 <= i < j < s.drop_first().len() implies (#[trigger] s.drop_first()[i]) != (
        #[trigger] s.drop_first()[j]) by {
            assert(s.drop_first()[i] == s[i + 1]);
            assert(s.drop_first()[j] == s[j + 1]);
        }
        lemma_count_unique(s.drop_first(), m);
        if s[0] == m {
            if s.drop_first().contains(m) {
                let i = choose|i: int|
                    0 <= i < s.drop_first().len() && #[trigger] s.drop_first()[i] == m;
                assert(s[i + 1] == m);
                assert(false);
            }
        } else {
            if s.contains(m) {
                let i = choose|i: int| 0 <= i < s.len() && #[trigger] s[i] == m;
                assert(s.drop_first()[i - 1] == s[i]);
                assert(s.drop_first().contains(m));
            } else {
                assert(!s.drop_first().contains(m)) by {
                    if s.drop_first().contains(m) {
                        let i = choose|i: int|
                            0 <= i < s.drop_first().len() && #[trigger] s.drop_first()[i] == m;
                        assert(s[i + 1] == m);
                    }
                }
            }
        }
    }
}

/// The power level of `mxid` in `v`, if it is a member.
fn find_level(v: &Vec<MemberState>, mxid: &String) -> (r: Option<i32>)
    ensures
        match r {
            Some(pl) => exists|i: int|
                0 <= i < v.deep_view().len() && #[trigger] v.deep_view()[i] == (MemberStateV {
                    mxid: mxid@,
                    power_level: pl as int,
                }),
            None => !has_mxid(v.deep_view(), mxid@),
        },
{
    let ghost vv = v.deep_view();
    let mut i: usize = 0;
    while i < v.len()
        invariant
            i <= v@.len(),
            vv == v.deep_view(),
            vv.len() == v@.len(),
            forall|j: int| 0 <= j < i ==> (#[trigger] vv[j]).mxid != mxid@,
        decreases v@.len() - i,
    {
        proof {
            assert(vv[i as int] == v@[i as int]@);
        }
        if v[i].mxid == *mxid {
            return Some(v[i].power_level);
        }
        i = i + 1;
    }
    None
}

/// Whether `s` is one of the strings in `v`.
fn contains_str(v: &Vec<String>, s: &String) -> (r: bool)
    ensures
        r == v.deep_view().contains(s@),
{
    let ghost vv = v.deep_view();
    let mut i: usize = 0;
    while i < v.len()
        invariant
            i <= v@.len(),
            vv == v.deep_view(),
            vv.len() == v@.len(),
            forall|j: int| 0 <= j < i ==> vv[j] != s@,
        decreases v@.len() - i,
    {
        proof {
            assert(vv[i as int] == v@[i as int]@);
        }
        if v[i] == *s {
            proof {
                assert(vv.contains(s@));
            }
            return true;
        }
        i = i + 1;
    }
    proof {
        if vv.contains(s@) {
            let j = choose|j: int| 0 <= j < vv.len() && vv[j] == s@;
            assert(false);
        }
    }
    false
}

/// Diffs a room's desired membership against its live membership.
///
/// Every desired member missing live is added at its desired level, every
/// member of both whose level differs is changed to the desired level, and
/// every live member that is neither desired nor protected is removed —
/// each exactly once, and nothing else.  `protected` holds the admins
/// pinned by ancestor directories: they are never removed here.  When live
/// already equals desired, member for member and level for level, the plan
/// is empty: running reconciliation again mutates nothing.
pub fn diff_membership(desired: &Vec<MemberState>, live: &Vec<MemberState>, protected: &Vec<String>) -> (p:
    MembershipPlan)
    requires
        unique_mxids(desired.deep_view()),
        unique_mxids(live.deep_view()),
    ensures
        ({
            let d = desired.deep_view();
            let l = live.deep_view();
            let prot = protected.deep_view();
            &&& forall|k: int|
                0 <= k < p.adds@.len() ==> {
                    let a = (#[trigger] p.adds@[k])@;
                    d.contains(a) && !has_mxid(l, a.mxid)
                }
            &&& forall|i: int|
                0 <= i < d.len() ==> (!has_mxid(l, (#[trigger] d[i]).mxid) ==> p.adds.deep_view()
                    .contains(d[i]))
            &&& unique_mxids(p.adds.deep_view())
            &&& forall|k: int|
                0 <= k < p.power_changes@.len() ==> {
                    let ch = (#[trigger] p.power_changes@[k])@;
                    d.contains(ch) && exists|i: int|
                        0 <= i < l.len() && (#[trigger] l[i]).mxid == ch.mxid && l[i].power_level
                            != ch.power_level
                }
            &&& forall|i: int, j: int|
                0 <= i < d.len() && 0 <= j < l.len() && (#[trigger] d[i]).mxid == (
                #[trigger] l[j]).mxid && d[i].power_level != l[j].power_level
                    ==> p.power_changes.deep_view().contains(d[i])
            &&& unique_mxids(p.power_changes.deep_view())
            &&& forall|k: int|
                0 <= k < p.removes@.len() ==> {
                    let m = (#[trigger] p.removes@[k])@;
                    has_mxid(l, m) && !has_mxid(d, m) && !prot.contains(m)
                }
            &&& forall|j: int|
                0 <= j < l.len() ==> {
                    let m = (#[trigger] l[j]).mxid;
                    (!has_mxid(d, m) && !prot.contains(m)) ==> count_str(p.removes.deep_view(), m)
                        == 1
                }
            &&& forall|i: int, j: int|
                0 <= i < j < p.removes@.len() ==> (#[trigger] p.removes@[i])@ != (
                #[trigger] p.removes@[j])@
            &&& (member_map(l) == member_map(d) ==> p.adds@.len() == 0 && p.power_changes@.len()
                == 0 && p.removes@.len() == 0)
        }),
{
    let ghost d = desired.deep_view();
    let ghost l = live.deep_view();
    let ghost prot = protected.deep_view();
    let mut adds: Vec<MemberState> = Vec::new();
    let mut power_changes: Vec<MemberState> = Vec::new();
    let mut i: usize = 0;
    while i < desired.len()
        invariant
            i <= desired@.len(),
            d == desired.deep_view(),
            l == live.deep_view(),
            d.len() == desired@.len(),
            unique_mxids(d),
            unique_mxids(l),
            forall|k: int|
                0 <= k < adds.deep_view().len() ==> {
                    let a = #[trigger] adds.deep_view()[k];
                    d.contains(a) && !has_mxid(l, a.mxid)
                },
            forall|j: int|
                0 <= j < i ==> (!has_mxid(l, (#[trigger] d[j]).mxid) ==> adds.deep_view().contains(
                    d[j],
                )),
            forall|k: int|
                0 <= k < adds.deep_view().len() ==> exists|j: int|
                    0 <= j < i && #[trigger] adds.deep_view()[k] == d[j],
            unique_mxids(adds.deep_view()),
            forall|k: int|
                0 <= k < power_changes.deep_view().len() ==> {
                    let ch = #[trigger] power_changes.deep_view()[k];
                    d.contains(ch) && exists|j: int|
                        0 <= j < l.len() && (#[trigger] l[j]).mxid == ch.mxid && l[j].power_level
                            != ch.power_level
                },
            forall|j: int, jj: int|
                0 <= j < i && 0 <= jj < l.len() && (#[trigger] d[j]).mxid == (#[trigger] l[jj]).mxid
                    && d[j].power_level != l[jj].power_level ==> power_changes.deep_view().contains(
                    d[j],
                ),
            forall|k: int|
                0 <= k < power_changes.deep_view().len() ==> exists|j: int|
                    0 <= j < i && #[trigger] power_changes.deep_view()[k] == d[j],
            unique_mxids(power_changes.deep_view()),
        decreases desired@.len() - i,
    {
        proof {
            assert(d[i as int] == desired@[i as int]@);
        }
        match find_level(live, &desired[i].mxid) {
            None => {
                let ghost pre = adds.deep_view();
                adds.push(desired[i].clone());
                proof {
                    assert(adds.deep_view() =~= pre.push(d[i as int]));
                    assert(d.contains(d[i as int]));
                    assert(adds.deep_view().contains(d[i as int])) by {
                        assert(adds.deep_view()[pre.len() as int] == d[i as int]);
                    }
                    assert forall|x: MemberStateV| pre.contains(x) implies adds.deep_view()
                        .contains(x) by {
                        let w = choose|w: int| 0 <= w < pre.len() && pre[w] == x;
                        assert(adds.deep_view()[w] == x);
                    }
                    assert forall|i1: int, j1: int|
                        0 <= i1 < j1 < adds.deep_view().len() implies (#[trigger] adds.deep_view()[
                        i1]).mxid != (#[trigger] adds.deep_view()[j1]).mxid by {
                        if j1 == adds.deep_view().len() - 1 {
                            let x = choose|x: int|
                                0 <= x < i && #[trigger] adds.deep_view()[i1] == d[x];
                            assert(adds.deep_view()[j1] == d[i as int]);
                            assert(d[x].mxid != d[i as int].mxid);
                        }
                    }
                }
            },
            Some(lpl) => {
                if lpl != desired[i].power_level {
                    let ghost pre = power_changes.deep_view();
                    power_changes.push(desired[i].clone());
                    proof {
                        assert(power_changes.deep_view() =~= pre.push(d[i as int]));
                        assert(d.contains(d[i as int]));
                        assert(power_changes.deep_view().contains(d[i as int])) by {
                            assert(power_changes.deep_view()[pre.len() as int] == d[i as int]);
                        }
                        let wi = choose|w: int|
                            0 <= w < l.len() && #[trigger] l[w] == (MemberStateV {
                                mxid: d[i as int].mxid,
                                power_level: lpl as int,
                            });
                        assert(l[wi].mxid == d[i as int].mxid && l[wi].power_level != d[
                            i as int
                        ].power_level);
                        assert forall|x: MemberStateV| pre.contains(x) implies power_changes
                            .deep_view().contains(x) by {
                            let w = choose|w: int| 0 <= w < pre.len() && pre[w] == x;
                            assert(power_changes.deep_view()[w] == x);
                        }
                        assert forall|i1: int, j1: int|
                            0 <= i1 < j1 < power_changes.deep_view().len() implies (
                        #[trigger] power_changes.deep_view()[i1]).mxid != (
                        #[trigger] power_changes.deep_view()[j1]).mxid by {
                            if j1 == power_changes.deep_view().len() - 1 {
                                let x = choose|x: int|
                                    0 <= x < i && #[trigger] power_changes.deep_view()[i1] == d[x];
                                assert(power_changes.deep_view()[j1] == d[i as int]);
                                assert(d[x].mxid != d[i as int].mxid);
                            }
                        }
                    }
                } else {
                    proof {
                        let wi = choose|w: int|
                            0 <= w < l.len() && #[trigger] l[w] == (MemberStateV {
                                mxid: d[i as int].mxid,
                                power_level: lpl as int,
                            });
                        assert(has_mxid(l, d[i as int].mxid));
                        assert forall|jj: int|
                            0 <= jj < l.len() && (d[i as int]).mxid == (#[trigger] l[jj]).mxid
                                implies l[jj].power_level == d[i as int].power_level by {
                            if jj != wi {
                                assert(l[wi].mxid == l[jj].mxid);
                            }
                        }
                    }
                }
            },
        }
        i = i + 1;
    }
    let mut removes: Vec<String> = Vec::new();
    let mut j: usize = 0;
    while j < live.len()
        invariant
            j <= live@.len(),
            d == desired.deep_view(),
            l == live.deep_view(),
            prot == protected.deep_view(),
            l.len() == live@.len(),
            unique_mxids(l),
            forall|k: int|
                0 <= k < removes.deep_view().len() ==> {
                    let m = #[trigger] removes.deep_view()[k];
                    has_mxid(l, m) && !has_mxid(d, m) && !prot.contains(m)
                },
            forall|jj: int|
                0 <= jj < j ==> {
                    let m = (#[trigger] l[jj]).mxid;
                    (!has_mxid(d, m) && !prot.contains(m)) ==> removes.deep_view().contains(m)
                },
            forall|k: int|
                0 <= k < removes.deep_view().len() ==> exists|jj: int|
                    0 <= jj < j && #[trigger] removes.deep_view()[k] == l[jj].mxid,
            forall|i1: int, j1: int|
                0 <= i1 < j1 < removes.deep_view().len() ==> (#[trigger] removes.deep_view()[i1])
                    != (#[trigger] removes.deep_view()[j1]),
        decreases live@.len() - j,
    {
        proof {
            assert(l[j as int] == live@[j as int]@);
        }
        let in_desired = find_level(desired, &live[j].mxid);
        let is_protected = contains_str(protected, &live[j].mxid);
        if in_desired.is_none() && !is_protected {
            let ghost pre = removes.deep_view();
            removes.push(live[j].mxid.clone());
            proof {
                assert(removes.deep_view() =~= pre.push(l[j as int].mxid));
                assert(has_mxid(l, l[j as int].mxid));
                assert(removes.deep_view().contains(l[j as int].mxid)) by {
                    assert(removes.deep_view()[pre.len() as int] == l[j as int].mxid);
                }
                assert forall|x: Seq<char>| pre.contains(x) implies removes.deep_view().contains(
                    x,
                ) by {
                    let w = choose|w: int| 0 <= w < pre.len() && pre[w] == x;
                    assert(removes.deep_view()[w] == x);
                }
                assert forall|i1: int, j1: int|
                    0 <= i1 < j1 < removes.deep_view().len() implies (#[trigger] removes
                    .deep_view()[i1]) != (#[trigger] removes.deep_view()[j1]) by {
                    if j1 == removes.deep_view().len() - 1 {
                        let x = choose|x: int|
                            0 <= x < j && #[trigger] removes.deep_view()[i1] == l[x].mxid;
                        assert(removes.deep_view()[j1] == l[j as int].mxid);
                        assert(l[x].mxid != l[j as int].mxid);
                    }
                }
            }
        }
        j = j + 1;
    }
    proof {
        assert forall|jj: int|
            0 <= jj < l.len() && !has_mxid(d, (#[trigger] l[jj]).mxid) && !prot.contains(
            l[jj].mxid) implies count_str(removes.deep_view(), l[jj].mxid) == 1 by {
            assert(removes.deep_view().contains(l[jj].mxid));
            lemma_count_unique(removes.deep_view(), l[jj].mxid);
        }
        lemma_member_map(d);
        lemma_member_map(l);
        if member_map(l) == member_map(d) {
            if adds.deep_view().len() > 0 {
                let a = adds.deep_view()[0];
                assert(d.contains(a));
                assert(has_mxid(d, a.mxid)) by {
                    let x = choose|x: int| 0 <= x < d.len() && #[trigger] d[x] == a;
                    assert(d[x].mxid == a.mxid);
                }
                assert(member_map(d).dom().contains(a.mxid));
                assert(member_map(l).dom().contains(a.mxid));
                assert(has_mxid(l, a.mxid));
                assert(false);
            }
            if power_changes.deep_view().len() > 0 {
                let ch = power_changes.deep_view()[0];
                assert(d.contains(ch));
                let x = choose|x: int| 0 <= x < d.len() && #[trigger] d[x] == ch;
                let y = choose|y: int|
                    0 <= y < l.len() && (#[trigger] l[y]).mxid == ch.mxid && l[y].power_level
                        != ch.power_level;
                assert(member_map(d)[d[x].mxid] == d[x].power_level);
                assert(member_map(l)[l[y].mxid] == l[y].power_level);
                assert(false);
            }
            if removes.deep_view().len() > 0 {
                let m = removes.deep_view()[0];
                assert(has_mxid(l, m) && !has_mxid(d, m));
                assert(member_map(l).dom().contains(m));
                assert(member_map(d).dom().contains(m));
                assert(false);
            }
        }
        assert forall|k: int|
            0 <= k < adds@.len() implies {
            let a = (#[trigger] adds@[k])@;
            d.contains(a) && !has_mxid(l, a.mxid)
        } by {
            assert(adds.deep_view()[k] == adds@[k]@);
        }
        assert forall|k: int|
            0 <= k < power_changes@.len() implies {
            let ch = (#[trigger] power_changes@[k])@;
            d.contains(ch) && exists|ii: int|
                0 <= ii < l.len() && (#[trigger] l[ii]).mxid == ch.mxid && l[ii].power_level
                    != ch.power_level
        } by {
            assert(power_changes.deep_view()[k] == power_changes@[k]@);
        }
        assert forall|k: int|
            0 <= k < removes@.len() implies {
            let m = (#[trigger] removes@[k])@;
            has_mxid(l, m) && !has_mxid(d, m) && !prot.contains(m)
        } by {
            assert(removes.deep_view()[k] == removes@[k]@);
        }
        assert forall|i1: int, j1: int|
            0 <= i1 < j1 < removes@.len() implies (#[trigger] removes@[i1])@ != (
        #[trigger] removes@[j1])@ by {
            assert(removes.deep_view()[i1] == removes@[i1]@);
            assert(removes.deep_view()[j1] == removes@[j1]@);
        }
    }
    MembershipPlan { adds, power_changes, removes }
}

/// A room's desired members before deduplication: each resolved user at
/// its resolved power level, then each pinned admin at
/// [`ADMIN_POWER_LEVEL`].
pub open spec fn combined_members(r: RoomMetadataV) -> Seq<MemberStateV> {
    r.users.map_values(
        |u: crate::folders::UserMetadataV| MemberStateV { mxid: u.mxid, power_level: u.power_level },
    ) + r.admins.map_values(
        |a: Seq<char>| MemberStateV { mxid: a, power_level: ADMIN_POWER_LEVEL as int },
    )
}

/// The highest power level `m` holds anywhere in `s` (meaningful when `m`
/// occurs in `s`).
pub open spec fn max_level(s: Seq<MemberStateV>, m: Seq<char>) -> int
    decreases s,
{
    if s.len() == 0 {
        0
    } else {
        let rest = max_level(s.drop_first(), m);
        if s[0].mxid == m {
            if !has_mxid(s.drop_first(), m) || s[0].power_level > rest {
                s[0].power_level
            } else {
                rest
            }
        } else {
            rest
        }
    }
}

/// Whether `mxid` occurs in `v` at or after `from`.
fn has_from(v: &Vec<MemberState>, from: usize, mxid: &String) -> (r: bool)
    requires
        from <= v@.len(),
    ensures
        r == has_mxid(v.deep_view().skip(from as int), mxid@),
    decreases v@.len() - from,
{
    let ghost suffix = v.deep_view().skip(from as int);
    if from == v.len() {
        proof {
            assert(suffix =~= Seq::<MemberStateV>::empty());
        }
        return false;
    }
    proof {
        assert(suffix[0] == v.deep_view()[from as int]);
        assert(v.deep_view()[from as int] == v@[from as int]@);
        assert(suffix.drop_first() =~= v.deep_view().skip(from as int + 1));
    }
    if v[from].mxid == *mxid {
        proof {
            assert(suffix[0].mxid == mxid@);
        }
        return true;
    }
    let r = has_from(v, from + 1, mxid);
    proof {
        if r {
            let i = choose|i: int|
                0 <= i < suffix.drop_first().len() && (#[trigger] suffix.drop_first()[i]).mxid
                    == mxid@;
            assert(suffix[i + 1] == suffix.drop_first()[i]);
        } else {
            if has_mxid(suffix, mxid@) {
                let i = choose|i: int| 0 <= i < suffix.len() && (#[trigger] suffix[i]).mxid == mxid@;
                assert(i != 0);
                assert(suffix.drop_first()[i - 1] == suffix[i]);
                assert(false);
            }
        }
    }
    r
}

/// The highest power level `mxid` holds in `v` at or after `from`.
fn max_from(v: &Vec<MemberState>, from: usize, mxid: &String) -> (r: i32)
    requires
        from <= v@.len(),
    ensures
        r as int == max_level(v.deep_view().skip(from as int), mxid@),
    decreases v@.len() - from,
{
    let ghost suffix = v.deep_view().skip(from as int);
    if from == v.len() {
        proof {
            assert(suffix =~= Seq::<MemberStateV>::empty());
        }
        return 0;
    }
    proof {
        assert(suffix[0] == v.deep_view()[from as int]);
        assert(v.deep_view()[from as int] == v@[from as int]@);
        assert(suffix.drop_first() =~= v.deep_view().skip(from as int + 1));
    }
    let rest = max_from(v, from + 1, mxid);
    if v[from].mxid == *mxid {
        let present_later = has_from(v, from + 1, mxid);
        if !present_later || v[from].power_level > rest {
            v[from].power_level
        } else {
            rest
        }
    } else {
        rest
    }
}

/// The deduplicated desired member list of one room: every account that a
/// resolved user or a pinned admin names, each exactly once, at the
/// highest power level any of its occurrences grants (an explicit policy
/// for an account resolved at several levels: the highest wins).
pub fn desired_members(room: &RoomMetadata) -> (d: Vec<MemberState>)
    ensures
        ({
            let all = combined_members(room@);
            &&& unique_mxids(d.deep_view())
            &&& forall|k: int|
                0 <= k < d.deep_view().len() ==> has_mxid(
                    all,
                    (#[trigger] d.deep_view()[k]).mxid,
                ) && d.deep_view()[k].power_level == max_level(all, d.deep_view()[k].mxid)
            &&& forall|j: int|
                0 <= j < all.len() ==> has_mxid(d.deep_view(), (#[trigger] all[j]).mxid)
        }),
{
    let ghost allv = combined_members(room@);
    let mut all: Vec<MemberState> = Vec::new();
    let mut i: usize = 0;
    while i < room.users.len()
        invariant
            i <= room.users@.len(),
            allv == combined_members(room@),
            room@.users == room.users.deep_view(),
            room@.users.len() == room.users@.len(),
            all@.len() == i,
            forall|j: int|
                0 <= j < i ==> (#[trigger] all.deep_view()[j]) == (MemberStateV {
                    mxid: room@.users[j].mxid,
                    power_level: room@.users[j].power_level,
                }),
        decreases room.users@.len() - i,
    {
        proof {
            assert(room@.users[i as int] == room.users@[i as int]@);
        }
        let ghost pre = all.deep_view();
        all.push(
            MemberState {
                mxid: room.users[i].mxid.clone(),
                power_level: room.users[i].power_level,
            },
        );
        proof {
            assert(all.deep_view() =~= pre.push(
                (MemberStateV {
                    mxid: room@.users[i as int].mxid,
                    power_level: room@.users[i as int].power_level,
                }),
            ));
        }
        i = i + 1;
    }
    let ghost ucount = room.users@.len() as int;
    let mut a: usize = 0;
    while a < room.admins.len()
        invariant
            a <= room.admins@.len(),
            allv == combined_members(room@),
            room@.users == room.users.deep_view(),
            room@.users.len() == room.users@.len(),
            room@.admins == room.admins.deep_view(),
            room@.admins.len() == room.admins@.len(),
            ucount == room@.users.len(),
            all@.len() == ucount + a,
            forall|j: int|
                0 <= j < ucount ==> (#[trigger] all.deep_view()[j]) == (MemberStateV {
                    mxid: room@.users[j].mxid,
                    power_level: room@.users[j].power_level,
                }),
            forall|j: int|
                ucount <= j < ucount + a ==> (#[trigger] all.deep_view()[j]) == (MemberStateV {
                    mxid: room@.admins[j - ucount],
                    power_level: ADMIN_POWER_LEVEL as int,
                }),
        decreases room.admins@.len() - a,
    {
        proof {
            assert(room@.admins[a as int] == room.admins@[a as int]@);
        }
        let ghost pre = all.deep_view();
        all.push(
            MemberState { mxid: room.admins[a].clone(), power_level: ADMIN_POWER_LEVEL },
        );
        proof {
            assert(all.deep_view() =~= pre.push(
                (MemberStateV {
                    mxid: room@.admins[a as int],
                    power_level: ADMIN_POWER_LEVEL as int,
                }),
            ));
        }
        a = a + 1;
    }
    proof {
        assert(allv.len() == room@.users.len() + room@.admins.len());
        assert forall|j: int| 0 <= j < allv.len() implies all.deep_view()[j] == allv[j] by {
            if j < ucount {
                assert(allv[j] == room@.users.map_values(
                    |u: crate::folders::UserMetadataV| MemberStateV {
                        mxid: u.mxid,
                        power_level: u.power_level,
                    },
                )[j]);
            } else {
                assert(allv[j] == room@.admins.map_values(
                    |ad: Seq<char>| MemberStateV {
                        mxid: ad,
                        power_level: ADMIN_POWER_LEVEL as int,
                    },
                )[j - ucount]);
            }
        }
        assert(all.deep_view() =~= allv);
    }
    let mut d: Vec<MemberState> = Vec::new();
    let mut k: usize = 0;
    while k < all.len()
        invariant
            k <= all@.len(),
            allv == combined_members(room@),
            allv == all.deep_view(),
            allv.len() == all@.len(),
            unique_mxids(d.deep_view()),
            forall|x: int|
                0 <= x < d.deep_view().len() ==> has_mxid(
                    allv,
                    (#[trigger] d.deep_view()[x]).mxid,
                ) && d.deep_view()[x].power_level == max_level(allv, d.deep_view()[x].mxid),
            forall|j: int|
                0 <= j < k ==> exists|x: int|
                    0 <= x < d.deep_view().len() && (#[trigger] allv[j]).mxid == d.deep_view()[
                        x
                    ].mxid,
        decreases all@.len() - k,
    {
        proof {
            assert(allv[k as int] == all@[k as int]@);
        }
        if find_level(&d, &all[k].mxid).is_none() {
            let lvl = max_from(&all, 0, &all[k].mxid);
            let ghost pre = d.deep_view();
            d.push(MemberState { mxid: all[k].mxid.clone(), power_level: lvl });
            proof {
                assert(all.deep_view().skip(0) =~= allv);
                assert(d.deep_view() =~= pre.push(
                    (MemberStateV { mxid: allv[k as int].mxid, power_level: lvl as int }),
                ));
                assert(has_mxid(allv, allv[k as int].mxid));
                assert forall|x: MemberStateV| pre.contains(x) implies d.deep_view().contains(
                    x,
                ) by {
                    let w = choose|w: int| 0 <= w < pre.len() && pre[w] == x;
                    assert(d.deep_view()[w] == x);
                }
                assert forall|i1: int, j1: int|
                    0 <= i1 < j1 < d.deep_view().len() implies (#[trigger] d.deep_view()[i1]).mxid
                    != (#[trigger] d.deep_view()[j1]).mxid by {
                    if j1 == d.deep_view().len() - 1 {
                        assert(!has_mxid(pre, allv[k as int].mxid));
                        assert(pre[i1].mxid != allv[k as int].mxid);
                    }
                }
                assert forall|j: int|
                    0 <= j < k + 1 implies exists|x: int|
                    0 <= x < d.deep_view().len() && (#[trigger] allv[j]).mxid == d.deep_view()[
                        x
                    ].mxid by {
                    if j < k {
                        let x = choose|x: int|
                            0 <= x < pre.len() && (allv[j]).mxid == (#[trigger] pre[x]).mxid;
                        assert(d.deep_view()[x].mxid == allv[j].mxid);
                    } else {
                        assert(d.deep_view()[pre.len() as int].mxid == allv[k as int].mxid);
                    }
                }
            }
        } else {
            proof {
                let w = choose|w: int|
                    0 <= w < d.deep_view().len() && #[trigger] d.deep_view()[w] == (MemberStateV {
                        mxid: allv[k as int].mxid,
                        power_level: d.deep_view()[w].power_level,
                    });
                assert forall|j: int|
                    0 <= j < k + 1 implies exists|x: int|
                    0 <= x < d.deep_view().len() && (#[trigger] allv[j]).mxid == d.deep_view()[
                        x
                    ].mxid by {
                    if j == k {
                        assert(d.deep_view()[w].mxid == allv[k as int].mxid);
                    }
                }
            }
        }
        k = k + 1;
    }
    proof {
        assert forall|j: int|
            0 <= j < combined_members(room@).len() implies has_mxid(
            d.deep_view(),
            (#[trigger] combined_members(room@)[j]).mxid,
        ) by {
            assert(combined_members(room@)[j] == allv[j]);
            let x = choose|x: int|
                0 <= x < d.deep_view().len() && (allv[j]).mxid == d.deep_view()[x].mxid;
            assert(0 <= x < d.deep_view().len() && (#[trigger] d.deep_view()[x]).mxid == (
            combined_members(room@)[j]).mxid);
        }
    }
    d
}

/// How to look a room up remotely: by its id when it has one, else by its
/// alias.  `None` means the declaration names neither; validation rejects
/// such a room before reconciliation starts.
pub enum LocateKey {
    ById(String),
    ByAlias(String),
}

/// Picks the lookup key for a room: the id takes precedence, the alias
/// serves otherwise.
pub fn locate_key(room: &RoomMetadata) -> (k: Option<LocateKey>)
    ensures
        room@.id matches Some(i) ==> (k matches Some(LocateKey::ById(s)) && s@ == i),
        (room@.id is None && room@.alias is Some) ==> (k matches Some(
            LocateKey::ByAlias(s),
        ) && s@ == room@.alias->0),
        room@.id is None && room@.alias is None ==> k is None,
{
    match &room.id {
        Some(id) => Some(LocateKey::ById(id.clone())),
        None => match &room.alias {
            Some(al) => Some(LocateKey::ByAlias(al.clone())),
            None => None,
        },
    }
}

/// Everything a create-room call needs: the alias and extra aliases to
/// claim, the visibility, whether the room is a space, and the parent
/// space to link from, if any.
pub struct CreateRoomPlan {
    pub alias: Option<String>,
    pub extra_aliases: Vec<String>,
    pub visibility: String,
    pub is_space: bool,
    pub parent: Option<String>,
}

/// What to do for a room after the remote lookup: use the room that was
/// found, or create one from the declaration.
pub enum RoomAction {
    Use(String),
    Create(CreateRoomPlan),
}

/// Decides the room step after the lookup: a located room is used as it
/// is; a room not found remotely is created — once, from the
/// declaration's alias, extra aliases and visibility, with no second
/// lookup.
pub fn room_action(room: &RoomMetadata, located: Option<&String>, is_space: bool, parent: Option<
    &String,
>) -> (act: RoomAction)
    ensures
        located matches Some(id) ==> (act matches RoomAction::Use(s) && s@ == id@),
        located is None ==> (act matches RoomAction::Create(c) && c.alias.deep_view()
            == room@.alias && c.extra_aliases.deep_view() == room@.extra_aliases && c.visibility@
            == room@.visibility && c.is_space == is_space && (match parent {
            Some(p) => c.parent matches Some(q) && q@ == p@,
            None => c.parent is None,
        })),
{
    match located {
        Some(id) => RoomAction::Use(id.clone()),
        None => {
            let alias = match &room.alias {
                Some(a) => Some(a.clone()),
                None => None,
            };
            let parent_id = match parent {
                Some(p) => Some(p.clone()),
                None => None,
            };
            RoomAction::Create(
                CreateRoomPlan {
                    alias,
                    extra_aliases: clone_strings(&room.extra_aliases),
                    visibility: room.visibility.clone(),
                    is_space,
                    parent: parent_id,
                },
            )
        },
    }
}

/// Everything a create-account call needs: the user id and the
/// external-identity claims to attach.
pub struct CreateUserPlan {
    pub mxid: String,
    pub external_ids: Vec<ExternalId>,
}

/// Decides the provisioning step after the profile lookup: an account that
/// exists is left alone; a missing one is created — once, with the
/// identity's external-id claims attached.
pub fn ensure_user_action(user: &UserMetadata, exists_remotely: bool) -> (act: Option<
    CreateUserPlan,
>)
    ensures
        exists_remotely ==> act is None,
        !exists_remotely ==> (act matches Some(c) && c.mxid@ == user@.mxid
            && c.external_ids.deep_view() == user@.external_ids),
{
    if exists_remotely {
        None
    } else {
        let mut ext: Vec<ExternalId> = Vec::new();
        let mut i: usize = 0;
        while i < user.external_ids.len()
            invariant
                i <= user.external_ids@.len(),
                ext@.len() == i,
                forall|j: int| 0 <= j < i ==> ext@[j]@ == user.external_ids@[j]@,
            decreases user.external_ids@.len() - i,
        {
            ext.push(user.external_ids[i].clone());
            i = i + 1;
        }
        proof {
            assert(ext.deep_view() =~= user@.external_ids);
        }
        Some(CreateUserPlan { mxid: user.mxid.clone(), external_ids: ext })
    }
}

/// The pinned admins of `room` appended to the admins pinned by its
/// ancestors: the set of members a descendant's reconciliation must never
/// remove.
pub fn extend_protected(protected: &Vec<String>, room: &RoomMetadata) -> (r: Vec<String>)
    ensures
        r.deep_view() == protected.deep_view() + room@.admins,
{
    let mut r = clone_strings(protected);
    let ghost pre = r.deep_view();
    let mut admins = clone_strings(&room.admins);
    let ghost adm = admins.deep_view();
    r.append(&mut admins);
    proof {
        assert(r.deep_view() =~= pre + adm);
        assert(pre + adm =~= protected.deep_view() + room@.admins);
    }
    r
}

/// The terminal state of one room's reconciliation.
pub enum RoomOutcome {
    /// The room was brought to its desired state.
    Reconciled,
    /// A remote operation for this room failed; the reason is kept for the
    /// run report.
    Failed(String),
    /// An ancestor failed to produce a room id, so this room was never
    /// attempted.
    Skipped,
}

/// One line of the run report: which room, and how it ended.
pub struct ReportEntry {
    pub path: Vec<usize>,
    pub room: Option<usize>,
    pub outcome: RoomOutcome,
}

/// How many rooms the subtree declares: the directory's own room when
/// present, its declared rooms, and every descendant's.
pub open spec fn subtree_room_count(f: SpaceFolderV) -> nat
    decreases f,
{
    (if f.metadata is Some {
        1nat
    } else {
        0nat
    }) + f.rooms.len() + children_room_count(f.children)
}

/// The room counts of a sequence of subtrees, summed.
pub open spec fn children_room_count(cs: Seq<SpaceFolderV>) -> nat
    decreases cs,
{
    if cs.len() == 0 {
        0
    } else {
        subtree_room_count(cs[0]) + children_room_count(cs.drop_first())
    }
}

/// One further subtree adds its room count.
pub proof fn lemma_children_room_count_snoc(cs: Seq<SpaceFolderV>, f: SpaceFolderV)
    ensures
        children_room_count(cs.push(f)) == children_room_count(cs) + subtree_room_count(f),
    decreases cs.len(),
{
    if cs.len() == 0 {
        assert(cs.push(f)[0] == f);
        assert(cs.push(f).drop_first() =~= Seq::<SpaceFolderV>::empty());
        assert(children_room_count(Seq::<SpaceFolderV>::empty()) == 0);
        assert(children_room_count(cs.push(f)) == subtree_room_count(f) + children_room_count(
            Seq::<SpaceFolderV>::empty(),
        ));
    } else {
        assert(cs.push(f)[0] == cs[0]);
        assert(cs.push(f).drop_first() =~= cs.drop_first().push(f));
        lemma_children_room_count_snoc(cs.drop_first(), f);
        assert(children_room_count(cs.push(f)) == subtree_room_count(cs[0]) + children_room_count(
            cs.drop_first().push(f),
        ));
        assert(children_room_count(cs) == subtree_room_count(cs[0]) + children_room_count(
            cs.drop_first(),
        ));
    }
}

impl SpaceFolder {
    /// Marks every room of this subtree skipped, without planning or
    /// attempting anything for it: the report a run files for a branch
    /// whose ancestor failed to produce a room id.  The parent's own
    /// failure is reported separately by the caller.
    pub fn subtree_skipped(&self, path: &Vec<usize>) -> (entries: Vec<ReportEntry>)
        ensures
            entries@.len() == subtree_room_count(self@),
            forall|k: int| 0 <= k < entries@.len() ==> (#[trigger] entries@[k]).outcome is Skipped,
        decreases *self,
    {
        let mut entries: Vec<ReportEntry> = Vec::new();
        match &self.metadata {
            Some(_) => {
                entries.push(
                    ReportEntry {
                        path: clone_usizes(path),
                        room: None,
                        outcome: RoomOutcome::Skipped,
                    },
                );
            },
            None => {},
        }
        let ghost meta_count = (if self@.metadata is Some {
            1nat
        } else {
            0nat
        });
        let mut j: usize = 0;
        while j < self.rooms.len()
            invariant
                j <= self.rooms@.len(),
                meta_count == (if self@.metadata is Some {
                    1nat
                } else {
                    0nat
                }),
                self@.rooms.len() == self.rooms@.len(),
                entries@.len() == meta_count + j,
                forall|k: int|
                    0 <= k < entries@.len() ==> (#[trigger] entries@[k]).outcome is Skipped,
            decreases self.rooms@.len() - j,
        {
            entries.push(
                ReportEntry {
                    path: clone_usizes(path),
                    room: Some(j),
                    outcome: RoomOutcome::Skipped,
                },
            );
            j = j + 1;
        }
        proof {
            lemma_folders_view(self.children@);
        }
        let mut c: usize = 0;
        while c < self.children.len()
            invariant
                c <= self.children@.len(),
                meta_count == (if self@.metadata is Some {
                    1nat
                } else {
                    0nat
                }),
                self@.rooms.len() == self.rooms@.len(),
                self@.children == folders_view(self.children@),
                self@.children.len() == self.children@.len(),
                forall|i: int|
                    0 <= i < self.children@.len() ==> self@.children[i] == #[trigger] self
                        .children@[i].view(),
                entries@.len() == meta_count + self@.rooms.len() + children_room_count(
                    self@.children.take(c as int),
                ),
                forall|k: int|
                    0 <= k < entries@.len() ==> (#[trigger] entries@[k]).outcome is Skipped,
            decreases self.children@.len() - c,
        {
            let mut cpath = clone_usizes(path);
            cpath.push(c);
            proof {
                assert(decreases_to!(*self => self.children@[c as int]));
            }
            let mut sub = self.children[c].subtree_skipped(&cpath);
            let ghost sub_len = sub@.len();
            entries.append(&mut sub);
            proof {
                lemma_children_room_count_snoc(
                    self@.children.take(c as int),
                    self@.children[c as int],
                );
                assert(self@.children.take(c as int).push(self@.children[c as int])
                    =~= self@.children.take(c as int + 1));
            }
            c = c + 1;
        }
        proof {
            assert(self@.children.take(self.children@.len() as int) =~= self@.children);
        }
        entries
    }
}

/// The process exit code a run report calls for: zero exactly when no room
/// failed; skipped rooms alone do not fail a run whose failures are
/// reported by their own entries.
pub fn exit_code(entries: &Vec<ReportEntry>) -> (r: i32)
    ensures
        (r == 0) <==> (forall|k: int|
            0 <= k < entries@.len() ==> !((#[trigger] entries@[k]).outcome is Failed)),
        r == 0 || r == 1,
{
    let mut i: usize = 0;
    while i < entries.len()
        invariant
            i <= entries@.len(),
            forall|k: int| 0 <= k < i ==> !((#[trigger] entries@[k]).outcome is Failed),
        decreases entries@.len() - i,
    {
        let failed = match &entries[i].outcome {
            RoomOutcome::Failed(_) => true,
            _ => false,
        };
        if failed {
            return 1;
        }
        i = i + 1;
    }
    0
}

} // verus!
