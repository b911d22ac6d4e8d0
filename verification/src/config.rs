use vstd::prelude::*;

use crate::bridge::{is_white_space, trim_end, trim_start, trim_str, trimmed};
use crate::registry::ProtocolParameters;

verus! {

/// Where the tracker reads its settings from, and what it serves on.
pub struct Config {
    pub registry_url: String,
    pub protocol_scope: String,
    pub protocol_name: String,
    pub protocol_parameters: ProtocolParameters,
    pub u5c_url: String,
    pub u5c_api_key: Option<String>,
    pub database_path: String,
    pub txs: Vec<String>,
    pub server_addr: String,
    pub blockfrost_url: String,
}

/// The raw values of the environment variables the configuration is read
/// from; `None` for a variable that is not set.
pub struct EnvVars {
    pub registry_url: Option<String>,
    pub protocol_scope: Option<String>,
    pub protocol_name: Option<String>,
    pub protocol_parameters: Option<String>,
    pub u5c_url: Option<String>,
    pub u5c_api_key: Option<String>,
    pub database_path: Option<String>,
    pub server_addr: Option<String>,
    pub blockfrost_url: Option<String>,
    pub txs: Option<String>,
}

/// What can go wrong while reading the configuration.
#[derive(Debug)]
pub enum ConfigError {
    /// A required variable is not set; its name.
    MissingVar(String),
    /// The protocol parameters are not valid JSON; the parser's message.
    InvalidProtocolParameters(String),
}

/// The value of an optional variable: unset and empty both count as absent.
pub open spec fn optional_value(raw: Option<Seq<char>>) -> Option<Seq<char>> {
    match raw {
        Some(v) => if v.len() == 0 {
            None
        } else {
            Some(v)
        },
        None => None,
    }
}

/// The value of an optional variable: unset and empty both count as absent.
pub fn get_env_optional(raw: &Option<String>) -> (r: Option<String>)
    ensures
        r.deep_view() == optional_value(raw.deep_view()),
{
    match raw {
        Some(v) => if v.as_str().is_empty() {
            None
        } else {
            Some(v.clone())
        },
        None => None,
    }
}

/// The value of a required variable, or the error that names it.
pub fn get_env(raw: &Option<String>, key: &str) -> (r: Result<String, ConfigError>)
    ensures
        raw matches Some(v) ==> (r matches Ok(s) && s@ == v@),
        raw is None ==> (r matches Err(ConfigError::MissingVar(k)) && k@ == key@),
{
    match raw {
        Some(v) => Ok(v.clone()),
        None => Err(ConfigError::MissingVar(String::from_str(key))),
    }
}

/// The JSON text the protocol parameters are read from: the variable's
/// value, or an empty object when it is unset or empty.
pub fn protocol_parameters_text(raw: &Option<String>) -> (r: String)
    ensures
        r@ == match optional_value(raw.deep_view()) {
            Some(v) => v,
            None => "{}"@,
        },
{
    match get_env_optional(raw) {
        Some(v) => v,
        None => String::from_str("{}"),
    }
}

/// The address served on when none is configured.
pub open spec fn default_server_addr() -> Seq<char> {
    "0.0.0.0:3000"@
}

// ---------------------------------------------------------------------------
// The list of transactions to process
// ---------------------------------------------------------------------------

/// `s` split at every comma, as `str::split(',')` splits it: one more piece
/// than there are commas.
pub open spec fn split_commas(s: Seq<char>) -> Seq<Seq<char>>
    decreases s.len(),
{
    if s.len() == 0 {
        seq![Seq::empty()]
    } else {
        let prev = split_commas(s.drop_last());
        if s.last() == ',' {
            prev.push(Seq::empty())
        } else {
            prev.update(prev.len() - 1, prev.last().push(s.last()))
        }
    }
}

/// The trimmed pieces, leaving out those that trim to nothing.
pub open spec fn nonempty_trimmed(pieces: Seq<Seq<char>>) -> Seq<Seq<char>>
    decreases pieces.len(),
{
    if pieces.len() == 0 {
        Seq::empty()
    } else {
        let prev = nonempty_trimmed(pieces.drop_last());
        let t = trimmed(pieces.last());
        if t.len() == 0 {
            prev
        } else {
            prev.push(t)
        }
    }
}

/// The transaction hashes a comma-separated list names: each piece trimmed,
/// empty pieces left out.
pub open spec fn tx_list(s: Seq<char>) -> Seq<Seq<char>> {
    nonempty_trimmed(split_commas(s))
}

proof fn lemma_split_commas_nonempty(s: Seq<char>)
    ensures
        split_commas(s).len() >= 1,
    decreases s.len(),
{
    if s.len() > 0 {
        lemma_split_commas_nonempty(s.drop_last());
    }
}

proof fn lemma_nonempty_trimmed_single(x: Seq<char>)
    ensures
        nonempty_trimmed(seq![x]) == if trimmed(x).len() == 0 {
            Seq::<Seq<char>>::empty()
        } else {
            seq![trimmed(x)]
        },
{
    let s = seq![x];
    assert(s.drop_last() =~= Seq::<Seq<char>>::empty());
    assert(s.last() == x);
    assert(nonempty_trimmed(s.drop_last()) == Seq::<Seq<char>>::empty());
    assert(Seq::<Seq<char>>::empty().push(trimmed(x)) =~= seq![trimmed(x)]);
}

fn push_trimmed(out: &mut Vec<String>, piece: &str)
    ensures
        final(out).deep_view() == old(out).deep_view() + nonempty_trimmed(seq![piece@]),
{
    proof {
        lemma_nonempty_trimmed_single(piece@);
    }
    let t = trim_str(piece);
    if !t.is_empty() {
        let ghost before = out.deep_view();
        out.push(String::from_str(t));
        assert(out.deep_view() =~= before.push(t@));
        assert(Seq::<Seq<char>>::empty().push(t@) =~= seq![t@]);
        assert(before.push(t@) =~= before + seq![t@]);
    } else {
        assert(out.deep_view() =~= old(out).deep_view() + Seq::<Seq<char>>::empty());
    }
}

proof fn lemma_nonempty_trimmed_append(a: Seq<Seq<char>>, b: Seq<Seq<char>>)
    ensures
        nonempty_trimmed(a + b) == nonempty_trimmed(a) + nonempty_trimmed(b),
    decreases b.len(),
{
    if b.len() == 0 {
        assert(a + b =~= a);
        assert(nonempty_trimmed(a) + nonempty_trimmed(b) =~= nonempty_trimmed(a));
    } else {
        lemma_nonempty_trimmed_append(a, b.drop_last());
        assert((a + b).drop_last() =~= a + b.drop_last());
        assert((a + b).last() == b.last());
        let t = trimmed(b.last());
        if t.len() != 0 {
            assert((nonempty_trimmed(a) + nonempty_trimmed(b.drop_last())).push(t) =~= nonempty_trimmed(a)
                + nonempty_trimmed(b.drop_last()).push(t));
        }
    }
}

/// The transaction hashes named by a comma-separated list: each piece
/// trimmed of white space, pieces that trim to nothing left out.
pub fn split_tx_list(value: &str) -> (r: Vec<String>)
    ensures
        r.deep_view() == tx_list(value@),
{
    let n = value.unicode_len();
    let ghost s = value@;
    let ghost mut closed: Seq<Seq<char>> = Seq::empty();
    let mut out: Vec<String> = Vec::new();
    let mut start: usize = 0;
    let mut i: usize = 0;
    assert(s.take(0) =~= Seq::<char>::empty());
    assert(s.subrange(0, 0) =~= Seq::<char>::empty());
    assert(closed.push(Seq::<char>::empty()) =~= seq![Seq::<char>::empty()]);
    while i < n
        invariant
            n == s.len(),
            s == value@,
            start <= i <= n,
            split_commas(s.take(i as int)) == closed.push(s.subrange(start as int, i as int)),
            out.deep_view() == nonempty_trimmed(closed),
        decreases n - i,
    {
        let c = value.get_char(i);
        assert(s.take(i as int + 1).drop_last() =~= s.take(i as int));
        assert(s.take(i as int + 1).last() == c);
        proof {
            lemma_split_commas_nonempty(s.take(i as int));
        }
        if c == ',' {
            let piece = value.substring_char(start, i);
            proof {
                lemma_nonempty_trimmed_append(closed, seq![piece@]);
            }
            push_trimmed(&mut out, piece);
            proof {
                let old_closed = closed;
                closed = closed.push(piece@);
                assert(closed =~= old_closed + seq![piece@]);
                assert(s.subrange(i as int + 1, i as int + 1) =~= Seq::<char>::empty());
            }
            start = i + 1;
        } else {
            assert(s.subrange(start as int, i as int + 1) =~= s.subrange(start as int, i as int).push(c));
        }
        i = i + 1;
    }
    assert(s.take(n as int) =~= s);
    let piece = value.substring_char(start, n);
    proof {
        lemma_nonempty_trimmed_append(closed, seq![piece@]);
        assert(closed.push(piece@) =~= closed + seq![piece@]);
    }
    push_trimmed(&mut out, piece);
    out
}

proof fn lemma_split_commas_no_comma(s: Seq<char>)
    ensures
        forall|k: int| 0 <= k < split_commas(s).len() ==> !(#[trigger] split_commas(s)[k]).contains(','),
    decreases s.len(),
{
    if s.len() > 0 {
        let p = s.drop_last();
        lemma_split_commas_no_comma(p);
        lemma_split_commas_nonempty(p);
        let prev = split_commas(p);
        let r = split_commas(s);
        assert forall|k: int| 0 <= k < r.len() implies !(#[trigger] r[k]).contains(',') by {
            if s.last() == ',' {
                if k == prev.len() {
                    assert(r[k] =~= Seq::<char>::empty());
                } else {
                    assert(r[k] == prev[k]);
                }
            } else if k == prev.len() - 1 {
                let last = prev.last();
                assert(!last.contains(','));
                if r[k].contains(',') {
                    let m = choose|m: int| 0 <= m < r[k].len() && r[k][m] == ',';
                    assert(r[k] == last.push(s.last()));
                    if m < last.len() {
                        assert(last[m] == ',');
                    }
                }
            } else {
                assert(r[k] == prev[k]);
            }
        }
    }
}

proof fn lemma_trim_start_shape(s: Seq<char>)
    ensures
        trim_start(s).len() == 0 || !is_white_space(trim_start(s)[0]),
        !s.contains(',') ==> !trim_start(s).contains(','),
        trim_start(s).len() <= s.len(),
        exists|a: int| 0 <= a <= s.len() && trim_start(s) == #[trigger] s.subrange(a, s.len() as int),
    decreases s.len(),
{
    if s.len() > 0 && is_white_space(s[0]) {
        let d = s.drop_first();
        lemma_trim_start_shape(d);
        let a = choose|a: int| 0 <= a <= d.len() && trim_start(d) == #[trigger] d.subrange(a, d.len() as int);
        assert(d.subrange(a, d.len() as int) =~= s.subrange(a + 1, s.len() as int));
        if !s.contains(',') {
            assert forall|m: int| 0 <= m < d.len() implies d[m] != ',' by {
                assert(d[m] == s[m + 1]);
            }
        }
    } else {
        assert(s.subrange(0, s.len() as int) =~= s);
    }
}

proof fn lemma_trim_end_shape(s: Seq<char>)
    ensures
        trim_end(s).len() == 0 || !is_white_space(trim_end(s).last()),
        !s.contains(',') ==> !trim_end(s).contains(','),
        trim_end(s).len() > 0 ==> trim_end(s)[0] == s[0],
        trim_end(s).len() <= s.len(),
        trim_end(s) == s.subrange(0, trim_end(s).len() as int),
    decreases s.len(),
{
    if s.len() > 0 && is_white_space(s.last()) {
        let d = s.drop_last();
        lemma_trim_end_shape(d);
        assert(d.subrange(0, trim_end(d).len() as int) =~= s.subrange(0, trim_end(d).len() as int));
        if !s.contains(',') {
            assert forall|m: int| 0 <= m < d.len() implies d[m] != ',' by {
                assert(d[m] == s[m]);
            }
        }
        if trim_end(d).len() > 0 {
            assert(d[0] == s[0]);
        }
    } else {
        assert(s.subrange(0, s.len() as int) =~= s);
    }
}

proof fn lemma_nonempty_trimmed_members(pieces: Seq<Seq<char>>)
    ensures
        forall|k: int|
            0 <= k < nonempty_trimmed(pieces).len() ==> exists|j: int|
                0 <= j < pieces.len() && #[trigger] nonempty_trimmed(pieces)[k] == trimmed(
                    #[trigger] pieces[j],
                ) && trimmed(pieces[j]).len() > 0,
    decreases pieces.len(),
{
    if pieces.len() > 0 {
        let p = pieces.drop_last();
        lemma_nonempty_trimmed_members(p);
        let prev = nonempty_trimmed(p);
        let r = nonempty_trimmed(pieces);
        assert forall|k: int| 0 <= k < r.len() implies exists|j: int|
            0 <= j < pieces.len() && #[trigger] r[k] == trimmed(#[trigger] pieces[j]) && trimmed(
                pieces[j],
            ).len() > 0 by {
            if k < prev.len() {
                let j = choose|j: int|
                    0 <= j < p.len() && #[trigger] prev[k] == trimmed(#[trigger] p[j]) && trimmed(
                        p[j],
                    ).len() > 0;
                assert(pieces[j] == p[j]);
                assert(r[k] == prev[k]);
            } else {
                assert(r[k] == trimmed(pieces[pieces.len() - 1]));
            }
        }
    }
}

/// Every transaction hash read from a list is non-empty, neither begins nor
/// ends with white space, and holds no comma.
pub proof fn law_tx_list_items_are_clean(s: Seq<char>)
    ensures
        forall|k: int|
            0 <= k < tx_list(s).len() ==> {
                let t = #[trigger] tx_list(s)[k];
                &&& t.len() > 0
                &&& !is_white_space(t[0])
                &&& !is_white_space(t.last())
                &&& !t.contains(',')
            },
{
    let pieces = split_commas(s);
    lemma_split_commas_no_comma(s);
    lemma_nonempty_trimmed_members(pieces);
    assert forall|k: int| 0 <= k < tx_list(s).len() implies {
        let t = #[trigger] tx_list(s)[k];
        &&& t.len() > 0
        &&& !is_white_space(t[0])
        &&& !is_white_space(t.last())
        &&& !t.contains(',')
    } by {
        let j = choose|j: int|
            0 <= j < pieces.len() && #[trigger] nonempty_trimmed(pieces)[k] == trimmed(
                #[trigger] pieces[j],
            ) && trimmed(pieces[j]).len() > 0;
        let x = pieces[j];
        lemma_trim_start_shape(x);
        lemma_trim_end_shape(trim_start(x));
    }
}

// ---------------------------------------------------------------------------
// Reading the configuration
// ---------------------------------------------------------------------------

impl Config {
    /// The configuration the environment describes, given the protocol
    /// parameters read from [`protocol_parameters_text`]. Required variables
    /// are checked in the order registry URL, protocol scope, protocol name,
    /// then the protocol parameters, then u5c URL, database path and indexer
    /// URL; the first failure is the error. The API key is optional, the
    /// server address defaults to `0.0.0.0:3000`, and the transaction list to
    /// none.
    pub fn from_vars(vars: &EnvVars, protocol_parameters: Result<ProtocolParameters, String>) -> (r:
        Result<Config, ConfigError>)
        ensures
            vars.registry_url is None ==> (r matches Err(ConfigError::MissingVar(k)) && k@
                == "REGISTRY_URL"@),
            vars.registry_url is Some && vars.protocol_scope is None ==> (r matches Err(
                ConfigError::MissingVar(k),
            ) && k@ == "PROTOCOL_SCOPE"@),
            vars.registry_url is Some && vars.protocol_scope is Some && vars.protocol_name is None
                ==> (r matches Err(ConfigError::MissingVar(k)) && k@ == "PROTOCOL_NAME"@),
            vars.registry_url is Some && vars.protocol_scope is Some && vars.protocol_name is Some
                ==> match protocol_parameters {
                Err(m) => r matches Err(ConfigError::InvalidProtocolParameters(e)) && e@ == m@,
                Ok(_) => if vars.u5c_url is None {
                    r matches Err(ConfigError::MissingVar(k)) && k@ == "U5C_URL"@
                } else if vars.database_path is None {
                    r matches Err(ConfigError::MissingVar(k)) && k@ == "DATABASE_PATH"@
                } else if vars.blockfrost_url is None {
                    r matches Err(ConfigError::MissingVar(k)) && k@ == "BLOCKFROST_URL"@
                } else {
                    r is Ok
                },
            },
            r matches Ok(c) ==> {
                &&& Some(c.registry_url@) == vars.registry_url.deep_view()
                &&& Some(c.protocol_scope@) == vars.protocol_scope.deep_view()
                &&& Some(c.protocol_name@) == vars.protocol_name.deep_view()
                &&& protocol_parameters == Ok::<ProtocolParameters, String>(c.protocol_parameters)
                &&& Some(c.u5c_url@) == vars.u5c_url.deep_view()
                &&& c.u5c_api_key.deep_view() == optional_value(vars.u5c_api_key.deep_view())
                &&& Some(c.database_path@) == vars.database_path.deep_view()
                &&& c.server_addr@ == match optional_value(vars.server_addr.deep_view()) {
                    Some(v) => v,
                    None => default_server_addr(),
                }
                &&& Some(c.blockfrost_url@) == vars.blockfrost_url.deep_view()
                &&& c.txs.deep_view() == match optional_value(vars.txs.deep_view()) {
                    Some(v) => tx_list(v),
                    None => Seq::empty(),
                }
            },
    {
        let registry_url = get_env(&vars.registry_url, "REGISTRY_URL")?;
        let protocol_scope = get_env(&vars.protocol_scope, "PROTOCOL_SCOPE")?;
        let protocol_name = get_env(&vars.protocol_name, "PROTOCOL_NAME")?;
        let protocol_parameters = match protocol_parameters {
            Ok(p) => p,
            Err(m) => return Err(ConfigError::InvalidProtocolParameters(m)),
        };
        let u5c_url = get_env(&vars.u5c_url, "U5C_URL")?;
        let database_path = get_env(&vars.database_path, "DATABASE_PATH")?;
        let u5c_api_key = get_env_optional(&vars.u5c_api_key);
        let server_addr = match get_env_optional(&vars.server_addr) {
            Some(v) => v,
            None => String::from_str("0.0.0.0:3000"),
        };
        let blockfrost_url = get_env(&vars.blockfrost_url, "BLOCKFROST_URL")?;
        let txs = match get_env_optional(&vars.txs) {
            Some(v) => split_tx_list(v.as_str()),
            None => Vec::new(),
        };
        Ok(Config {
            registry_url,
            protocol_scope,
            protocol_name,
            protocol_parameters,
            u5c_url,
            u5c_api_key,
            database_path,
            txs,
            server_addr,
            blockfrost_url,
        })
    }
}

} // verus!
