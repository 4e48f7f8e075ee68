//! Run configuration: connection settings for the homeserver and the
//! directory service, plus the identity templates.  The caller parses its
//! configuration file and hands these plain values in.

use vstd::prelude::*;

verus! {

/// One external-identity claim to attach to provisioned accounts: the
/// authentication provider's name and the template that renders the
/// provider-side id from a directory entry.
pub struct ExternalId {
    pub auth_provider: String,
    pub external_id_template: String,
}

/// The mathematical value of a configured [`ExternalId`] template.
#[verifier::ext_equal]
pub ghost struct ExternalIdV {
    pub auth_provider: Seq<char>,
    pub external_id_template: Seq<char>,
}

impl View for ExternalId {
    type V = ExternalIdV;

    open spec fn view(&self) -> ExternalIdV {
        ExternalIdV {
            auth_provider: self.auth_provider@,
            external_id_template: self.external_id_template@,
        }
    }
}

impl DeepView for ExternalId {
    type V = ExternalIdV;

    open spec fn deep_view(&self) -> ExternalIdV {
        self.view()
    }
}

/// Homeserver connection settings.
pub struct MatrixConfig {
    pub server_name: String,
    pub homeserver_url: String,
    pub mxid: String,
    pub password: String,
}

/// Directory-service connection settings and the membership query shape.
pub struct LdapConfig {
    pub uri: String,
    pub no_tls_verify: Option<bool>,
    pub starttls: Option<bool>,
    pub bind_dn: Option<String>,
    pub bind_password: Option<String>,
    pub user_base_dn: String,
    pub user_filter: String,
    pub localpart_template: String,
    pub create_missing_users: bool,
    pub synapse_external_ids: Option<Vec<ExternalId>>,
}

/// The whole run configuration.
pub struct Config {
    pub matrix: MatrixConfig,
    pub ldap: LdapConfig,
    pub git_repository: String,
}

} // verus!
