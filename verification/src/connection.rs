//! Broker connection configuration: the key-value settings a connection is
//! built from, derived from broker addresses, a group id and optional SASL
//! credentials.

use vstd::prelude::*;
use vstd::string::StringExecFns;
use crate::text::{join_comma, spec_join_comma, str_eq};

verus! {

/// SASL credentials for a broker connection.
#[derive(Clone, Debug, PartialEq)]
pub struct SaslConfig {
    pub mechanism: String,
    pub username: String,
    pub password: String,
}

/// Mathematical model of the credentials.
#[verifier::ext_equal]
pub struct SaslConfigModel {
    pub mechanism: Seq<char>,
    pub username: Seq<char>,
    pub password: Seq<char>,
}

impl View for SaslConfig {
    type V = SaslConfigModel;

    open spec fn view(&self) -> SaslConfigModel {
        SaslConfigModel {
            mechanism: self.mechanism@,
            username: self.username@,
            password: self.password@,
        }
    }
}

/// The views of a settings list.
pub open spec fn settings_view(v: Seq<(String, String)>) -> Seq<(Seq<char>, Seq<char>)> {
    v.map_values(|p: (String, String)| (p.0@, p.1@))
}

/// The connection settings for the given brokers, group id and credentials:
/// the comma-joined broker list and the group id always; with credentials,
/// the three SASL keys, and the SASL-over-TLS protocol for any mechanism
/// but plain.
pub open spec fn spec_connection_settings(
    brokers: Seq<Seq<char>>,
    group_id: Seq<char>,
    sasl: Option<SaslConfigModel>,
) -> Seq<(Seq<char>, Seq<char>)> {
    let base = seq![
        ("bootstrap.servers"@, spec_join_comma(brokers)),
        ("group.id"@, group_id),
    ];
    match sasl {
        None => base,
        Some(c) => (if c.mechanism != "PLAIN"@ {
            base + seq![("security.protocol"@, "SASL_SSL"@)]
        } else {
            base
        }) + seq![
            ("sasl.mechanism"@, c.mechanism),
            ("sasl.username"@, c.username),
            ("sasl.password"@, c.password),
        ],
    }
}

/// Assemble the key-value settings a broker connection is created from.
pub fn connection_settings(
    brokers: &Vec<String>,
    group_id: String,
    sasl: Option<SaslConfig>,
) -> (r: Vec<(String, String)>)
    ensures
        settings_view(r@) == spec_connection_settings(
            brokers@.map_values(|s: String| s@),
            group_id@,
            match sasl {
                Some(c) => Some(c@),
                None => None,
            },
        ),
{
    let ghost broker_views = brokers@.map_values(|s: String| s@);
    let ghost sasl_model = match sasl {
        Some(ref c) => Some(c@),
        None => None::<SaslConfigModel>,
    };
    let mut out: Vec<(String, String)> = Vec::new();
    out.push((String::from_str("bootstrap.servers"), join_comma(brokers)));
    out.push((String::from_str("group.id"), group_id));
    match sasl {
        None => {
            proof {
                assert(settings_view(out@) =~= spec_connection_settings(
                    broker_views,
                    out@[1].1@,
                    sasl_model,
                ));
            }
        },
        Some(c) => {
            if !str_eq(c.mechanism.as_str(), "PLAIN") {
                out.push((String::from_str("security.protocol"), String::from_str("SASL_SSL")));
            }
            out.push((String::from_str("sasl.mechanism"), c.mechanism));
            out.push((String::from_str("sasl.username"), c.username));
            out.push((String::from_str("sasl.password"), c.password));
            proof {
                assert(settings_view(out@) =~= spec_connection_settings(
                    broker_views,
                    out@[1].1@,
                    sasl_model,
                ));
            }
        },
    }
    out
}

} // verus!
