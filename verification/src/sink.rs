//! Sink configuration: which sink a set of connector properties selects.
//! The sinks themselves perform network work and live outside the library;
//! this module holds the decisions they are driven by.

use vstd::prelude::*;

verus! {

/// A failure to read a sink configuration.
#[derive(Debug)]
pub enum SinkError {
    /// A required property is missing.
    Config,
}

/// Properties of a MySQL sink.
#[derive(Debug)]
pub struct MySqlConfig {
    pub properties: Vec<(String, String)>,
}

/// Properties of a Redis sink.
#[derive(Debug)]
pub struct RedisConfig {
    pub properties: Vec<(String, String)>,
}

/// Properties of a Kafka sink.
#[derive(Debug)]
pub struct KafkaConfig {
    pub properties: Vec<(String, String)>,
}

/// Properties of a remote sink.
#[derive(Debug)]
pub struct RemoteConfig {
    pub properties: Vec<(String, String)>,
}

/// Properties of a console sink.
#[derive(Debug)]
pub struct ConsoleConfig {
    pub properties: Vec<(String, String)>,
}

/// The parsed configuration of one sink.
#[derive(Debug)]
pub enum SinkConfig {
    Mysql(MySqlConfig),
    Redis(RedisConfig),
    Kafka(KafkaConfig),
    Remote(RemoteConfig),
    Console(ConsoleConfig),
}

/// The persisted marker of which sink a state belongs to.
#[derive(Clone, Copy, Debug, PartialEq, Eq, Structural)]
pub enum SinkState {
    Kafka,
    Mysql,
    Redis,
    Console,
    Remote,
}

/// A sink selected by its configuration; the connections themselves are
/// made outside the library.
#[derive(Debug)]
pub enum SinkImpl {
    MySql(MySqlConfig),
    Redis(RedisConfig),
    Kafka(KafkaConfig),
    Remote(RemoteConfig),
    Console(ConsoleConfig),
}

/// The first value stored under a key, as UTF-8 bytes.
pub open spec fn prop_lookup(ps: Seq<(String, String)>, k: Seq<u8>) -> Option<Seq<u8>>
    decreases ps.len(),
{
    if ps.len() == 0 {
        Option::None
    } else if vstd::utf8::encode_utf8(ps[0].0@) == k {
        Option::Some(vstd::utf8::encode_utf8(ps[0].1@))
    } else {
        prop_lookup(ps.drop_first(), k)
    }
}

/// ASCII lowercasing of a byte sequence, as the dispatch folds case.
pub open spec fn ascii_lower(s: Seq<u8>) -> Seq<u8> {
    s.map_values(
        |b: u8|
            if 65 <= b <= 90 {
                (b + 32) as u8
            } else {
                b
            },
    )
}

/// The variant a connector name selects once lowercased; anything unknown
/// goes to the remote sink.
pub open spec fn connector_kind(name: Seq<u8>) -> SinkState {
    if ascii_lower(name) == seq![107u8, 97u8, 102u8, 107u8, 97u8] {
        SinkState::Kafka
    } else if ascii_lower(name) == seq![109u8, 121u8, 115u8, 113u8, 108u8] {
        SinkState::Mysql
    } else if ascii_lower(name) == seq![99u8, 111u8, 110u8, 115u8, 111u8, 108u8, 101u8] {
        SinkState::Console
    } else {
        SinkState::Remote
    }
}

/// The kind a configuration carries.
pub open spec fn config_kind(c: SinkConfig) -> SinkState {
    match c {
        SinkConfig::Mysql(_) => SinkState::Mysql,
        SinkConfig::Redis(_) => SinkState::Redis,
        SinkConfig::Kafka(_) => SinkState::Kafka,
        SinkConfig::Remote(_) => SinkState::Remote,
        SinkConfig::Console(_) => SinkState::Console,
    }
}

fn bytes_eq_slices(a: &[u8], b: &[u8]) -> (r: bool)
    ensures
        r == (a@ == b@),
{
    let na = a.len();
    let nb = b.len();
    if na != nb {
        proof {
            if a@ == b@ {
                assert(a@.len() == b@.len());
            }
        }
        return false;
    }
    let mut i: usize = 0;
    while i < na
        invariant
            i <= na,
            na == a@.len(),
            na == b@.len(),
            forall|j: int| 0 <= j < i ==> a@[j] == b@[j],
        decreases na - i,
    {
        if a[i] != b[i] {
            proof {
                if a@ == b@ {
                    assert(a@[i as int] == b@[i as int]);
                }
            }
            return false;
        }
        i = i + 1;
    }
    proof {
        assert(a@ =~= b@);
    }
    true
}

fn lower_bytes(a: &[u8]) -> (r: Vec<u8>)
    ensures
        r@ == ascii_lower(a@),
{
    let n = a.len();
    let mut out: Vec<u8> = Vec::new();
    let mut i: usize = 0;
    while i < n
        invariant
            i <= n,
            n == a@.len(),
            out@ =~= ascii_lower(a@).take(i as int),
        decreases n - i,
    {
        let b = a[i];
        let lb: u8 = if 65 <= b && b <= 90 {
            b + 32
        } else {
            b
        };
        out.push(lb);
        proof {
            assert(ascii_lower(a@)[i as int] == lb);
            assert(out@ =~= ascii_lower(a@).take(i + 1));
        }
        i = i + 1;
    }
    proof {
        assert(ascii_lower(a@).take(n as int) =~= ascii_lower(a@));
    }
    out
}

impl SinkConfig {
    /// Selects a sink from connector properties, by the `connector` key's
    /// value folded to lower case: `kafka`, `mysql` and `console` name
    /// their sinks; everything else goes to the remote sink; a missing key
    /// is an error.
    pub fn from_hashmap(properties: Vec<(String, String)>) -> (r: Result<SinkConfig, SinkError>)
        ensures
            match prop_lookup(properties@, seq![
                99u8,
                111u8,
                110u8,
                110u8,
                101u8,
                99u8,
                116u8,
                111u8,
                114u8,
            ]) {
                Option::Some(v) => r matches Result::Ok(c) && config_kind(c) == connector_kind(v),
                Option::None => r matches Result::Err(SinkError::Config),
            },
    {
        let key: [u8; 9] = [99, 111, 110, 110, 101, 99, 116, 111, 114];
        proof {
            assert(key@ =~= seq![99u8, 111u8, 110u8, 110u8, 101u8, 99u8, 116u8, 111u8, 114u8]);
        }
        let n = properties.len();
        let mut i: usize = 0;
        proof {
            assert(properties@.skip(0) =~= properties@);
        }
        while i < n
            invariant
                i <= n,
                n == properties@.len(),
                key@ == seq![99u8, 111u8, 110u8, 110u8, 101u8, 99u8, 116u8, 111u8, 114u8],
                prop_lookup(properties@, key@) == prop_lookup(properties@.skip(i as int), key@),
            decreases n - i,
        {
            proof {
                assert(properties@.skip(i as int)[0] == properties@[i as int]);
                assert(properties@.skip(i as int).drop_first() =~= properties@.skip(i + 1));
            }
            if bytes_eq_slices(properties[i].0.as_str().as_bytes(), key.as_slice()) {
                let v = lower_bytes(properties[i].1.as_str().as_bytes());
                let kafka: [u8; 5] = [107, 97, 102, 107, 97];
                let mysql: [u8; 5] = [109, 121, 115, 113, 108];
                let console: [u8; 7] = [99, 111, 110, 115, 111, 108, 101];
                proof {
                    assert(kafka@ =~= seq![107u8, 97u8, 102u8, 107u8, 97u8]);
                    assert(mysql@ =~= seq![109u8, 121u8, 115u8, 113u8, 108u8]);
                    assert(console@ =~= seq![99u8, 111u8, 110u8, 115u8, 111u8, 108u8, 101u8]);
                }
                if bytes_eq_slices(v.as_slice(), kafka.as_slice()) {
                    return Result::Ok(SinkConfig::Kafka(KafkaConfig { properties }));
                }
                if bytes_eq_slices(v.as_slice(), mysql.as_slice()) {
                    return Result::Ok(SinkConfig::Mysql(MySqlConfig { properties }));
                }
                if bytes_eq_slices(v.as_slice(), console.as_slice()) {
                    return Result::Ok(SinkConfig::Console(ConsoleConfig { properties }));
                }
                return Result::Ok(SinkConfig::Remote(RemoteConfig { properties }));
            }
            i = i + 1;
        }
        proof {
            assert(properties@.skip(n as int).len() == 0);
        }
        Result::Err(SinkError::Config)
    }

    /// The name of the selected connector.
    pub fn get_connector(&self) -> (r: &'static str)
        ensures
            match self {
                SinkConfig::Mysql(_) => r@ == "mysql"@,
                SinkConfig::Kafka(_) => r@ == "kafka"@,
                SinkConfig::Redis(_) => r@ == "redis"@,
                SinkConfig::Remote(_) => r@ == "remote"@,
                SinkConfig::Console(_) => r@ == "console"@,
            },
    {
        match self {
            SinkConfig::Mysql(_) => "mysql",
            SinkConfig::Kafka(_) => "kafka",
            SinkConfig::Redis(_) => "redis",
            SinkConfig::Remote(_) => "remote",
            SinkConfig::Console(_) => "console",
        }
    }
}

impl SinkImpl {
    /// Selects the sink implementation a configuration names; connecting
    /// it is the caller's work.
    pub fn new(cfg: SinkConfig) -> (r: SinkImpl)
        ensures
            match cfg {
                SinkConfig::Mysql(_) => r is MySql,
                SinkConfig::Redis(_) => r is Redis,
                SinkConfig::Kafka(_) => r is Kafka,
                SinkConfig::Remote(_) => r is Remote,
                SinkConfig::Console(_) => r is Console,
            },
    {
        match cfg {
            SinkConfig::Mysql(c) => SinkImpl::MySql(c),
            SinkConfig::Redis(c) => SinkImpl::Redis(c),
            SinkConfig::Kafka(c) => SinkImpl::Kafka(c),
            SinkConfig::Remote(c) => SinkImpl::Remote(c),
            SinkConfig::Console(c) => SinkImpl::Console(c),
        }
    }

    /// Only the MySQL sink needs a preparation step before its first
    /// batch.
    pub fn needs_preparation(&self) -> (r: bool)
        ensures
            r == (self is MySql),
    {
        match self {
            SinkImpl::MySql(_) => true,
            SinkImpl::Redis(_) => false,
            SinkImpl::Kafka(_) => false,
            SinkImpl::Remote(_) => false,
            SinkImpl::Console(_) => false,
        }
    }
}

} // verus!
