//! The time-series sink: an InfluxDB v1 or v2 endpoint.  The core builds
//! the write URI and the authorization header exactly; issuing the HTTP
//! request happens outside the verified core.

use vstd::prelude::*;

verus! {

/// The sink variant: a v1 endpoint addressed by database, or a v2 endpoint
/// addressed by organization and bucket with a token.
#[derive(Debug, PartialEq)]
pub enum InfluxDbConfig {
    V1 {
        hostname: String,
        database: String,
        username: Option<String>,
        password: Option<String>,
    },
    V2 { hostname: String, organization: String, bucket: String, auth_token: String },
}

/// The mathematical content of an `InfluxDbConfig`.
pub ghost enum InfluxDbConfigView {
    V1 {
        hostname: Seq<char>,
        database: Seq<char>,
        username: Option<Seq<char>>,
        password: Option<Seq<char>>,
    },
    V2 { hostname: Seq<char>, organization: Seq<char>, bucket: Seq<char>, auth_token: Seq<char> },
}

impl View for InfluxDbConfig {
    type V = InfluxDbConfigView;

    open spec fn view(&self) -> InfluxDbConfigView {
        match self {
            InfluxDbConfig::V1 { hostname, database, username, password } => {
                InfluxDbConfigView::V1 {
                    hostname: hostname@,
                    database: database@,
                    username: username.deep_view(),
                    password: password.deep_view(),
                }
            },
            InfluxDbConfig::V2 { hostname, organization, bucket, auth_token } => {
                InfluxDbConfigView::V2 {
                    hostname: hostname@,
                    organization: organization@,
                    bucket: bucket@,
                    auth_token: auth_token@,
                }
            },
        }
    }
}

/// The credential query fragment of a v1 write URI: present only when both
/// user and password are configured.
pub open spec fn spec_v1_credentials(
    username: Option<Seq<char>>,
    password: Option<Seq<char>>,
) -> Seq<char> {
    match (username, password) {
        (Some(u), Some(p)) => "&u="@ + u + "&p="@ + p,
        _ => Seq::empty(),
    }
}

/// The write endpoint of the sink: `<base>/write?db=<db>[&u=<user>&p=<pass>]`
/// for v1, `<base>/write?org=<org>&bucket=<bucket>` for v2.
pub open spec fn spec_write_uri(c: InfluxDbConfigView) -> Seq<char> {
    match c {
        InfluxDbConfigView::V1 { hostname, database, username, password } => hostname
            + "/write?db="@ + database + spec_v1_credentials(username, password),
        InfluxDbConfigView::V2 { hostname, organization, bucket, auth_token: _ } => hostname
            + "/write?org="@ + organization + "&bucket="@ + bucket,
    }
}

/// The authorization header a v2 sink needs: `Token <token>`.
pub open spec fn spec_auth_header(c: InfluxDbConfigView) -> Option<Seq<char>> {
    match c {
        InfluxDbConfigView::V1 { .. } => None,
        InfluxDbConfigView::V2 { auth_token, .. } => Some("Token "@ + auth_token),
    }
}

impl InfluxDbConfig {
    /// Renders the write endpoint this sink is posted to.
    pub fn write_uri(&self) -> (r: String)
        ensures
            r@ == spec_write_uri(self@),
    {
        match self {
            InfluxDbConfig::V1 { hostname, database, username, password } => {
                let mut uri = hostname.clone();
                uri.append("/write?db=");
                uri.append(database.as_str());
                if let (Some(u), Some(p)) = (username, password) {
                    uri.append("&u=");
                    uri.append(u.as_str());
                    uri.append("&p=");
                    uri.append(p.as_str());
                    proof {
                        assert(uri@ =~= spec_write_uri(self@));
                    }
                } else {
                    proof {
                        assert(spec_v1_credentials(username.deep_view(), password.deep_view())
                            =~= Seq::<char>::empty());
                        assert(uri@ =~= spec_write_uri(self@));
                    }
                }
                uri
            },
            InfluxDbConfig::V2 { hostname, organization, bucket, auth_token: _ } => {
                let mut uri = hostname.clone();
                uri.append("/write?org=");
                uri.append(organization.as_str());
                uri.append("&bucket=");
                uri.append(bucket.as_str());
                proof {
                    assert(uri@ =~= spec_write_uri(self@));
                }
                uri
            },
        }
    }

    /// The authorization header to send, if this sink variant needs one.
    pub fn auth_header(&self) -> (r: Option<String>)
        ensures
            r.deep_view() == spec_auth_header(self@),
    {
        match self {
            InfluxDbConfig::V1 { .. } => None,
            InfluxDbConfig::V2 { auth_token, .. } => {
                let mut h = String::from_str("Token ");
                h.append(auth_token.as_str());
                Some(h)
            },
        }
    }

    /// A copy with the same mathematical content.
    pub fn clone_config(&self) -> (r: InfluxDbConfig)
        ensures
            r@ == self@,
    {
        match self {
            InfluxDbConfig::V1 { hostname, database, username, password } => {
                InfluxDbConfig::V1 {
                    hostname: hostname.clone(),
                    database: database.clone(),
                    username: clone_opt(username),
                    password: clone_opt(password),
                }
            },
            InfluxDbConfig::V2 { hostname, organization, bucket, auth_token } => {
                InfluxDbConfig::V2 {
                    hostname: hostname.clone(),
                    organization: organization.clone(),
                    bucket: bucket.clone(),
                    auth_token: auth_token.clone(),
                }
            },
        }
    }
}

/// Copies an optional string.
fn clone_opt(s: &Option<String>) -> (r: Option<String>)
    ensures
        r.deep_view() == s.deep_view(),
{
    match s {
        Some(v) => Some(v.clone()),
        None => None,
    }
}

/// Whether an HTTP status says the sink accepted a write: any status in the
/// 2xx range.
pub fn http_status_ok(status: u16) -> (r: bool)
    ensures
        r == (200 <= status < 300),
{
    200 <= status && status < 300
}

} // verus!
