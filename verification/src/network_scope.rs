//! The name under which a network's rows are kept.
use vstd::prelude::*;

use crate::state::ServerConfig;
use crate::text::{cut_first, split_once, starts_with};

verus! {

broadcast use vstd::string::group_string_axioms;

/// The login that a configuration authenticates with.
pub open spec fn login_seq(config: &ServerConfig, default_user: Seq<char>) -> Seq<char> {
    match config.sasl_user {
        Some(user) => user@,
        None => match config.password {
            Some(password) if cut_first(password@, ':') is Some => (cut_first(password@, ':')->0).0,
            _ => match config.username {
                Some(user) => user@,
                None => default_user,
            },
        },
    }
}

/// The name of the network behind a configuration: the label of a direct server, and for a bouncer
/// its account, login and network.
pub open spec fn scope_seq(account: Seq<char>, config: &ServerConfig, default_user: Seq<char>) -> Seq<
    char,
> {
    if !config.bound() {
        config.label@
    } else {
        "bouncer:"@ + account + seq![':'] + login_seq(config, default_user) + seq![':'] + (
        if config.bouncer_control {
            seq!['*']
        } else {
            config.bouncer_network_id->0@
        })
    }
}

/// The login that a configuration authenticates with.
pub fn login(config: &ServerConfig, default_user: &str) -> (r: String)
    ensures
        r@ == login_seq(config, default_user@),
{
    match &config.sasl_user {
        Some(user) => user.clone(),
        None => {
            let from_password = match &config.password {
                Some(password) => split_once(password.as_str(), ':'),
                None => None,
            };
            match from_password {
                Some((user, _)) => user,
                None => match &config.username {
                    Some(user) => user.clone(),
                    None => default_user.to_string(),
                },
            }
        },
    }
}

/// The name of the network behind a configuration.
pub fn network_scope(account: &str, config: &ServerConfig, default_user: &str) -> (r: String)
    ensures
        r@ == scope_seq(account@, config, default_user@),
{
    if config.bouncer_network_id.is_none() && !config.bouncer_control {
        return config.label.clone();
    }
    let mut r = "bouncer:".to_string();
    r.append(account);
    r.push(':');
    r.append(login(config, default_user).as_str());
    r.push(':');
    if config.bouncer_control {
        r.push('*');
        assert(r@ =~= scope_seq(account@, config, default_user@));
        return r;
    }
    match &config.bouncer_network_id {
        Some(network) => r.append(network.as_str()),
        None => {},
    }
    assert(r@ =~= scope_seq(account@, config, default_user@));
    r
}

/// Whether a network name is that of a bouncer's network.
pub open spec fn bouncer_scope(network: Seq<char>) -> bool {
    "bouncer:"@.is_prefix_of(network)
}

/// Whether a network name is that of a bouncer's network.
pub fn is_bouncer_scope(network: &str) -> (r: bool)
    ensures
        r == bouncer_scope(network@),
{
    starts_with(network, "bouncer:")
}

/// The network names of one bouncer login differ exactly in the network.
pub proof fn scope_tells_networks_apart(
    account: Seq<char>,
    a: &ServerConfig,
    b: &ServerConfig,
    default_user: Seq<char>,
)
    requires
        a.bouncer_network_id is Some,
        b.bouncer_network_id is Some,
        !a.bouncer_control,
        !b.bouncer_control,
        login_seq(a, default_user) == login_seq(b, default_user),
        scope_seq(account, a, default_user) == scope_seq(account, b, default_user),
    ensures
        a.bouncer_network_id->0@ == b.bouncer_network_id->0@,
{
    let prefix = "bouncer:"@ + account + seq![':'] + login_seq(a, default_user) + seq![':'];
    let x = scope_seq(account, a, default_user);
    let y = scope_seq(account, b, default_user);
    assert(x.skip(prefix.len() as int) =~= a.bouncer_network_id->0@);
    assert(y.skip(prefix.len() as int) =~= b.bouncer_network_id->0@);
}

} // verus!
