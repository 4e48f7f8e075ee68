//! Directory-service data as the library sees it: one raw entry per user,
//! a snapshot of group-membership query results, and the filter string that
//! a caller uses to run the membership query.

use vstd::prelude::*;
use vstd::string::StringExecFns;

verus! {

/// One raw entry returned by the directory service: its distinguished name
/// and its attributes, text-valued and binary-valued.
pub struct LdapResult {
    /// Entry DN.
    pub dn: String,
    /// Attributes.
    pub attrs: Vec<(String, Vec<String>)>,
    /// Binary-valued attributes.
    pub bin_attrs: Vec<(String, Vec<Vec<u8>>)>,
}

/// The mathematical value of an [`LdapResult`].
#[verifier::ext_equal]
pub ghost struct LdapResultV {
    pub dn: Seq<char>,
    pub attrs: Seq<(Seq<char>, Seq<Seq<char>>)>,
    pub bin_attrs: Seq<(Seq<char>, Seq<Seq<u8>>)>,
}

impl View for LdapResult {
    type V = LdapResultV;

    open spec fn view(&self) -> LdapResultV {
        LdapResultV {
            dn: self.dn@,
            attrs: self.attrs.deep_view(),
            bin_attrs: self.bin_attrs.deep_view(),
        }
    }
}

impl DeepView for LdapResult {
    type V = LdapResultV;

    open spec fn deep_view(&self) -> LdapResultV {
        self.view()
    }
}

/// The results of the membership queries for one run: for each group DN that
/// was asked for, the entries the directory returned.  A group that could not
/// be queried has no entry here; resolution of rooms that reference it fails.
pub struct DirectorySnapshot {
    pub groups: Vec<(String, Vec<LdapResult>)>,
}

/// What the snapshot holds for one group DN: the entries recorded under the
/// first occurrence of that DN, if any.
pub open spec fn group_lookup(
    groups: Seq<(Seq<char>, Seq<LdapResultV>)>,
    dn: Seq<char>,
) -> Option<Seq<LdapResultV>>
    decreases groups.len(),
{
    if groups.len() == 0 {
        None
    } else if groups[0].0 == dn {
        Some(groups[0].1)
    } else {
        group_lookup(groups.drop_first(), dn)
    }
}

impl DirectorySnapshot {
    pub open spec fn spec_members_of(&self, dn: Seq<char>) -> Option<Seq<LdapResultV>> {
        group_lookup(self.groups.deep_view(), dn)
    }

    /// The entries recorded for `dn`, or `None` if the group is not in the
    /// snapshot.
    pub fn members_of(&self, dn: &String) -> (res: Option<&Vec<LdapResult>>)
        ensures
            match res {
                Some(v) => self.spec_members_of(dn@) == Some(v.deep_view()),
                None => self.spec_members_of(dn@) is None,
            },
    {
        let ghost all = self.groups.deep_view();
        let mut i: usize = 0;
        proof {
            assert(all.skip(0) =~= all);
        }
        while i < self.groups.len()
            invariant
                i <= self.groups.len(),
                all == self.groups.deep_view(),
                group_lookup(all.skip(i as int), dn@) == group_lookup(all, dn@),
            decreases self.groups.len() - i,
        {
            proof {
                assert(all.skip(i as int).drop_first() =~= all.skip(i as int + 1));
                assert(all.skip(i as int)[0] == all[i as int]);
                assert(all[i as int] == self.groups@[i as int].deep_view());
            }
            if self.groups[i].0 == *dn {
                proof {
                    assert(all[i as int].0 == dn@);
                    assert(group_lookup(all.skip(i as int), dn@) == Some(all[i as int].1));
                }
                return Some(&self.groups[i].1);
            }
            i = i + 1;
        }
        proof {
            assert(all.skip(self.groups.len() as int)
                =~= Seq::<(Seq<char>, Seq<LdapResultV>)>::empty());
        }
        None
    }
}

/// The directory filter for "entries matching the configured user filter that
/// are members of this group".
pub open spec fn spec_group_filter(user_filter: Seq<char>, group_dn: Seq<char>) -> Seq<char> {
    "(&"@ + user_filter + "(memberOf="@ + group_dn + "))"@
}

/// Builds the membership-query filter string that the caller passes to the
/// directory search.
pub fn group_filter(user_filter: &str, group_dn: &str) -> (f: String)
    ensures
        f@ == spec_group_filter(user_filter@, group_dn@),
{
    let mut f = String::from_str("(&");
    f.append(user_filter);
    f.append("(memberOf=");
    f.append(group_dn);
    f.append("))");
    proof {
        assert(f@ =~= spec_group_filter(user_filter@, group_dn@));
    }
    f
}

} // verus!
