//! Application configuration, built from the values of environment
//! variables.
use crate::domain::tables::{names_view, IdentitySet};
use crate::text::{
    chars_of, is_whitespace, join_on, lemma_split_rejoin, lemma_trim_ends, parse_u64,
    parse_u64_text, split_on,
    string_from_chars, trim, trim_chars,
};
use vstd::prelude::*;
use vstd::string::*;

verus! {

/// The raw values of the configuration variables; `None` when a variable
/// is unset (or not valid Unicode).
#[derive(Debug, Clone)]
pub struct ConfigVars {
    pub listen: Option<String>,
    pub identities: Option<String>,
    pub allow_dynamic: Option<String>,
    pub auth_token: Option<String>,
    pub protect_metrics: Option<String>,
    pub persist_path: Option<String>,
    pub persist_interval: Option<String>,
    pub log_level: Option<String>,
}

/// Application configuration.
#[derive(Debug, Clone)]
pub struct Config {
    /// Address to bind the HTTP server to, as text that std's socket
    /// address parser accepted.
    pub listen_addr: String,
    /// Predefined allowed identities.
    pub identities: Vec<String>,
    /// Whether unknown identities are accepted.
    pub allow_dynamic: bool,
    /// Bearer token; `None` disables authentication.
    pub auth_token: Option<String>,
    /// Whether the metrics endpoints require the token too.
    pub protect_metrics: bool,
    /// Path to the state persistence file.
    pub persist_path: String,
    /// Seconds between persistence writes.
    pub persist_interval: u64,
    /// Log level for tracing.
    pub log_level: String,
}

/// An optional string as plain characters.
pub open spec fn opt_chars(o: Option<String>) -> Option<Seq<char>> {
    match o {
        None => None,
        Some(s) => Some(s@),
    }
}

/// The value of a variable, or `default` when it is unset.
pub open spec fn or_default(v: Option<Seq<char>>, default: Seq<char>) -> Seq<char> {
    match v {
        None => default,
        Some(s) => s,
    }
}

/// A flag: `bool::from_str` gives true for exactly "true"; anything it
/// cannot read counts as false, and so does an unset variable.
pub open spec fn flag_value(v: Option<Seq<char>>) -> bool {
    v == Some("true"@)
}

/// The identities a comma-separated list names: each piece trimmed of
/// whitespace, empty pieces dropped, in order.
pub open spec fn identity_list(pieces: Seq<Seq<char>>) -> Seq<Seq<char>>
    decreases pieces.len(),
{
    if pieces.len() == 0 {
        Seq::empty()
    } else if trim(pieces.last()).len() > 0 {
        identity_list(pieces.drop_last()).push(trim(pieces.last()))
    } else {
        identity_list(pieces.drop_last())
    }
}

/// Every configured identity is non-empty and neither starts nor ends
/// with whitespace.
pub proof fn lemma_identity_list_trimmed(pieces: Seq<Seq<char>>)
    ensures
        forall|i: int|
            0 <= i < identity_list(pieces).len() ==> {
                let e = #[trigger] identity_list(pieces)[i];
                e.len() > 0 && !is_whitespace(e[0]) && !is_whitespace(e.last())
            },
    decreases pieces.len(),
{
    if pieces.len() > 0 {
        let prev = identity_list(pieces.drop_last());
        lemma_identity_list_trimmed(pieces.drop_last());
        lemma_trim_ends(pieces.last());
        assert forall|i: int| 0 <= i < identity_list(pieces).len() implies {
            let e = #[trigger] identity_list(pieces)[i];
            e.len() > 0 && !is_whitespace(e[0]) && !is_whitespace(e.last())
        } by {
            if i < prev.len() {
                assert(identity_list(pieces)[i] == prev[i]);
            }
        }
    }
}

/// Each piece trimmed of whitespace.
pub open spec fn trimmed_pieces(pieces: Seq<Seq<char>>) -> Seq<Seq<char>> {
    pieces.map_values(|p: Seq<char>| trim(p))
}

/// The pieces that are not empty, in order.
pub open spec fn nonempty_pieces(pieces: Seq<Seq<char>>) -> Seq<Seq<char>> {
    pieces.filter(|p: Seq<char>| p.len() > 0)
}

/// The identities listed are the pieces trimmed of whitespace, empty ones
/// left out, in their order.
pub proof fn lemma_identity_list_is_filter(pieces: Seq<Seq<char>>)
    ensures
        identity_list(pieces) == nonempty_pieces(trimmed_pieces(pieces)),
    decreases pieces.len(),
{
    reveal(Seq::filter);
    if pieces.len() > 0 {
        lemma_identity_list_is_filter(pieces.drop_last());
        let m = trimmed_pieces(pieces);
        assert(m.drop_last() =~= trimmed_pieces(pieces.drop_last()));
        assert(m.last() == trim(pieces.last()));
        assert(m.len() > 0);
        assert(nonempty_pieces(m) == if m.last().len() > 0 {
            nonempty_pieces(m.drop_last()).push(m.last())
        } else {
            nonempty_pieces(m.drop_last())
        });
    } else {
        assert(trimmed_pieces(pieces) =~= Seq::<Seq<char>>::empty());
    }
}

/// The identities configured by the text of the identities variable.
pub open spec fn configured_identities(v: Option<Seq<char>>) -> Seq<Seq<char>> {
    identity_list(split_on(or_default(v, Seq::empty()), ','))
}

/// The identities configured by a text are its comma-separated pieces,
/// trimmed, empty ones left out, in order; the pieces hold no comma and
/// joined with commas give the text back.
pub proof fn lemma_configured_identities(text: Seq<char>)
    ensures
        configured_identities(Some(text)) == nonempty_pieces(trimmed_pieces(split_on(text, ','))),
        join_on(split_on(text, ','), ',') == text,
        forall|i: int|
            0 <= i < split_on(text, ',').len() ==> !(#[trigger] split_on(text, ',')[i]).contains(
                ',',
            ),
{
    lemma_identity_list_is_filter(split_on(text, ','));
    lemma_split_rejoin(text, ',');
}

/// The persist interval: the variable read as `u64`, 60 when it is unset
/// or unreadable.
pub open spec fn interval_value(v: Option<Seq<char>>) -> u64 {
    match parse_u64_text(or_default(v, "60"@)) {
        Some(n) => n,
        None => 60,
    }
}

/// The token: unset and empty values both disable authentication.
pub open spec fn token_value(v: Option<Seq<char>>) -> Option<Seq<char>> {
    match v {
        Some(t) => if t.len() > 0 {
            Some(t)
        } else {
            None
        },
        None => None,
    }
}

/// The text of the listen address: the variable, or `0.0.0.0:8080` when it
/// is unset.
pub open spec fn listen_text(vars: ConfigVars) -> Seq<char> {
    or_default(opt_chars(vars.listen), "0.0.0.0:8080"@)
}

/// The configuration that a set of variable values yields.
pub open spec fn config_from(vars: ConfigVars, c: Config) -> bool {
    &&& c.listen_addr@ == listen_text(vars)
    &&& names_view(c.identities@) == configured_identities(opt_chars(vars.identities))
    &&& c.allow_dynamic == flag_value(opt_chars(vars.allow_dynamic))
    &&& opt_chars(c.auth_token) == token_value(opt_chars(vars.auth_token))
    &&& c.protect_metrics == flag_value(opt_chars(vars.protect_metrics))
    &&& c.persist_path@ == or_default(opt_chars(vars.persist_path), "./cronbird-state.json"@)
    &&& c.persist_interval == interval_value(opt_chars(vars.persist_interval))
    &&& c.log_level@ == or_default(opt_chars(vars.log_level), "info"@)
}

fn value_or(v: &Option<String>, default: &str) -> (r: String)
    ensures
        r@ == or_default(opt_chars(*v), default@),
{
    match v {
        Some(s) => s.clone(),
        None => String::from_str(default),
    }
}

fn flag(v: &Option<String>) -> (b: bool)
    ensures
        b == flag_value(opt_chars(*v)),
{
    match v {
        Some(s) => {
            let t = String::from_str("true");
            *s == t
        },
        None => false,
    }
}

/// Splits a comma-separated list, trims each piece and keeps the non-empty
/// ones.
pub fn parse_identities(text: &str) -> (r: Vec<String>)
    ensures
        names_view(r@) == identity_list(split_on(text@, ',')),
{
    let v = chars_of(text);
    let mut result: Vec<String> = Vec::new();
    let mut current: Vec<char> = Vec::new();
    let mut i: usize = 0;
    proof {
        assert(v@.take(0) =~= Seq::<char>::empty());
    }
    while i < v.len()
        invariant
            i <= v.len(),
            v@ == text@,
            names_view(result@) == identity_list(split_on(v@.take(i as int), ',').drop_last()),
            current@ == split_on(v@.take(i as int), ',').last(),
            split_on(v@.take(i as int), ',').len() >= 1,
        decreases v.len() - i,
    {
        let ghost p = v@.take(i as int);
        let ghost q = v@.take(i + 1);
        proof {
            assert(q.drop_last() =~= p);
            assert(q.last() == v@[i as int]);
        }
        let c = v[i];
        if c == ',' {
            let ghost pieces = split_on(p, ',');
            proof {
                assert(pieces.drop_last().push(pieces.last()) =~= pieces);
            }
            let piece = trim_chars(&current);
            let ghost before = result@;
            if piece.len() > 0 {
                result.push(string_from_chars(&piece));
                proof {
                    assert(names_view(result@) =~= names_view(before).push(piece@));
                }
            }
            current = Vec::new();
            proof {
                assert(split_on(q, ',').drop_last() =~= pieces);
                assert(current@ =~= split_on(q, ',').last());
            }
        } else {
            current.push(c);
            proof {
                let pieces = split_on(p, ',');
                assert(split_on(q, ',').drop_last() =~= pieces.drop_last());
            }
        }
        i = i + 1;
    }
    proof {
        assert(v@.take(i as int) =~= v@);
    }
    let ghost pieces = split_on(v@, ',');
    proof {
        assert(pieces.drop_last().push(pieces.last()) =~= pieces);
    }
    let piece = trim_chars(&current);
    let ghost before = result@;
    if piece.len() > 0 {
        result.push(string_from_chars(&piece));
        proof {
            assert(names_view(result@) =~= names_view(before).push(piece@));
        }
    }
    result
}

impl Config {
    /// The text of the listen address: the variable's value, or
    /// `0.0.0.0:8080` when it is unset.
    pub fn listen_text(vars: &ConfigVars) -> (r: String)
        ensures
            r@ == listen_text(*vars),
    {
        value_or(&vars.listen, "0.0.0.0:8080")
    }

    /// The configuration given by the variables' values, with a default for
    /// every unset one. `listen_parse` is what std's socket address parser
    /// made of `listen_text(vars)`: `Ok` when it accepted the text, else its
    /// message. An address it refused gives `InvalidListenAddr` with that
    /// message, and nothing else fails.
    pub fn from_vars(vars: &ConfigVars, listen_parse: Result<(), String>) -> (r: Result<
        Config,
        ConfigError,
    >)
        ensures
            r is Err <==> listen_parse is Err,
            listen_parse matches Err(msg) ==> r == Err::<Config, ConfigError>(
                ConfigError::InvalidListenAddr(msg),
            ),
            r matches Ok(c) ==> config_from(*vars, c),
    {
        if let Err(msg) = listen_parse {
            return Err(ConfigError::InvalidListenAddr(msg));
        }
        let identities = match &vars.identities {
            Some(s) => parse_identities(s.as_str()),
            None => parse_identities(""),
        };
        let auth_token = match &vars.auth_token {
            Some(t) => if t.as_str().is_empty() {
                None
            } else {
                Some(t.clone())
            },
            None => None,
        };
        let interval_text = value_or(&vars.persist_interval, "60");
        let persist_interval = match parse_u64(interval_text.as_str()) {
            Some(n) => n,
            None => 60,
        };
        proof {
            reveal_strlit("");
        }
        Ok(Config {
            listen_addr: value_or(&vars.listen, "0.0.0.0:8080"),
            identities,
            allow_dynamic: flag(&vars.allow_dynamic),
            auth_token,
            protect_metrics: flag(&vars.protect_metrics),
            persist_path: value_or(&vars.persist_path, "./cronbird-state.json"),
            persist_interval,
            log_level: value_or(&vars.log_level, "info"),
        })
    }

    /// The allowed identities as a set, or `None` when every identity is
    /// accepted.
    pub fn allowed_identities(&self) -> (r: Option<IdentitySet>)
        ensures
            match r {
                None => self.allow_dynamic,
                Some(set) => !self.allow_dynamic && set@ == names_view(self.identities@).to_set(),
            },
    {
        if self.allow_dynamic {
            None
        } else {
            let mut set = IdentitySet::new();
            let mut i: usize = 0;
            proof {
                assert(names_view(self.identities@).take(0).to_set() =~= Set::<Seq<char>>::empty());
            }
            while i < self.identities.len()
                invariant
                    i <= self.identities@.len(),
                    set@ == names_view(self.identities@).take(i as int).to_set(),
                decreases self.identities.len() - i,
            {
                set.insert(self.identities[i].clone());
                proof {
                    let nv = names_view(self.identities@);
                    assert(nv.take(i + 1) =~= nv.take(i as int).push(nv[i as int]));
                    nv.take(i as int).lemma_push_to_set_commute(nv[i as int]);
                }
                i = i + 1;
            }
            proof {
                assert(names_view(self.identities@).take(i as int) =~= names_view(self.identities@));
            }
            Some(set)
        }
    }

    /// Checks that some identity can be accepted and that the persist
    /// interval is positive.
    pub fn validate(&self) -> (r: Result<(), ConfigError>)
        ensures
            r == if !self.allow_dynamic && self.identities@.len() == 0 {
                Err(ConfigError::NoIdentitiesConfigured)
            } else if self.persist_interval == 0 {
                Err(ConfigError::InvalidPersistInterval)
            } else {
                Ok(())
            },
    {
        if !self.allow_dynamic && self.identities.len() == 0 {
            return Err(ConfigError::NoIdentitiesConfigured);
        }
        if self.persist_interval == 0 {
            return Err(ConfigError::InvalidPersistInterval);
        }
        Ok(())
    }
}

/// Errors that can occur during configuration.
#[derive(Debug)]
pub enum ConfigError {
    InvalidListenAddr(String),
    NoIdentitiesConfigured,
    InvalidPersistInterval,
}

/// The message that describes a configuration error.
pub open spec fn config_error_text(e: ConfigError) -> Seq<char> {
    match e {
        ConfigError::InvalidListenAddr(msg) => "Invalid listen address: "@ + msg@,
        ConfigError::NoIdentitiesConfigured =>
            "No identities configured and ALLOW_DYNAMIC is false"@,
        ConfigError::InvalidPersistInterval => "Persist interval must be greater than 0"@,
    }
}

impl ConfigError {
    /// The message that describes this error.
    pub fn to_string(&self) -> (r: String)
        ensures
            r@ == config_error_text(*self),
    {
        match self {
            ConfigError::InvalidListenAddr(msg) => {
                let mut s = String::from_str("Invalid listen address: ");
                s.append(msg.as_str());
                s
            },
            ConfigError::NoIdentitiesConfigured => String::from_str(
                "No identities configured and ALLOW_DYNAMIC is false",
            ),
            ConfigError::InvalidPersistInterval => String::from_str(
                "Persist interval must be greater than 0",
            ),
        }
    }
}

} // verus!
