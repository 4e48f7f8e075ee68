//! The identity template engine: renders a string from a template and one
//! directory entry, with the entry bound to the template variable `user`.
//! Rendering is minijinja's; the library names its result `render_of` and
//! reasons about identities through that name.

use std::collections::BTreeMap;
use vstd::prelude::*;
use vstd::string::StringExecFns;
use crate::ldap::LdapResult;

verus! {

/// What rendering a template against one directory entry yields: the output
/// text, or `None` when the template does not parse or a reference in it
/// cannot be resolved.  The result is a function of the template and the
/// entry alone; it is given meaning by [`render_entry_template`].
pub uninterp spec fn render_of(
    template: Seq<char>,
    dn: Seq<char>,
    attrs: Seq<(Seq<char>, Seq<Seq<char>>)>,
    bin_attrs: Seq<(Seq<char>, Seq<Seq<u8>>)>,
) -> Option<Seq<char>>;

/// Relies on minijinja's `Environment::render_str`: rendering is a pure
/// function of the template source and the context, here the entry bound to
/// the variable `user` with its `dn`, `attrs` and `bin_attrs`.
#[verifier::external_body]
pub fn render_entry_template(template: &str, entry: &LdapResult) -> (r: Option<String>)
    ensures
        r.deep_view() == render_of(template@, entry@.dn, entry@.attrs, entry@.bin_attrs),
{
    let attrs: BTreeMap<_, _> = entry.attrs.iter().map(|a| (&a.0, &a.1)).collect();
    let bins: BTreeMap<_, _> = entry.bin_attrs.iter().map(|a| (&a.0, &a.1)).collect();
    let mut user: BTreeMap<&str, minijinja::Value> = BTreeMap::new();
    user.insert("dn", minijinja::Value::from_serialize(&entry.dn));
    user.insert("attrs", minijinja::Value::from_serialize(&attrs));
    user.insert("bin_attrs", minijinja::Value::from_serialize(&bins));
    let mut ctx: BTreeMap<&str, _> = BTreeMap::new();
    ctx.insert("user", &user);
    minijinja::Environment::new().render_str(template, &ctx).ok()
}

/// The template for a full user identifier: the localpart template wrapped
/// as `@<localpart>:<server>`.
pub open spec fn spec_mxid_template(localpart_template: Seq<char>, server_name: Seq<char>) -> Seq<char> {
    "@"@ + localpart_template + ":"@ + server_name
}

/// Builds the user-identifier template from the configured localpart
/// template and the homeserver's name.
pub fn mxid_template(localpart_template: &str, server_name: &str) -> (t: String)
    ensures
        t@ == spec_mxid_template(localpart_template@, server_name@),
{
    let mut t = String::from_str("@");
    t.append(localpart_template);
    t.append(":");
    t.append(server_name);
    proof {
        assert(t@ =~= spec_mxid_template(localpart_template@, server_name@));
    }
    t
}

} // verus!
