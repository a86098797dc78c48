use vstd::prelude::*;

verus! {

/// Configuration for the collector.
#[derive(Debug, Clone)]
pub struct Config {
    /// Root directory to monitor for log files.
    pub root_dir: String,
    /// MongoDB connection URI.
    pub mongodb_uri: String,
    /// MongoDB database name.
    pub database: String,
    /// MongoDB collection name.
    pub collection: String,
    /// Polling interval in milliseconds for file tailing.
    pub polling_interval_ms: u64,
}

/// Why a configuration could not be resolved.
#[derive(Debug, Clone, PartialEq, Eq, Structural)]
pub enum ConfigError {
    /// The root directory value was absent.
    MissingRootDir,
    /// The connection URI value was absent.
    MissingMongoUri,
    /// The polling interval value was present but not a valid integer.
    InvalidPollingInterval,
}

pub open spec fn missing_root_dir_message() -> Seq<char> {
    "ROOT_DIR environment variable not set"@
}

pub open spec fn missing_mongo_uri_message() -> Seq<char> {
    "MONGODB_URI environment variable not set"@
}

pub open spec fn invalid_polling_interval_message() -> Seq<char> {
    "POLLING_INTERVAL_MS must be a valid integer"@
}

impl ConfigError {
    /// The diagnostic text for this error.
    pub fn message(&self) -> (r: String)
        ensures
            self is MissingRootDir ==> r@ == missing_root_dir_message(),
            self is MissingMongoUri ==> r@ == missing_mongo_uri_message(),
            self is InvalidPollingInterval ==> r@ == invalid_polling_interval_message(),
    {
        match self {
            ConfigError::MissingRootDir => "ROOT_DIR environment variable not set".to_owned(),
            ConfigError::MissingMongoUri => "MONGODB_URI environment variable not set".to_owned(),
            ConfigError::InvalidPollingInterval => {
                "POLLING_INTERVAL_MS must be a valid integer".to_owned()
            },
        }
    }
}

/// Whether `c` is a decimal digit.
pub open spec fn is_digit(c: char) -> bool {
    '0' <= c && c <= '9'
}

/// The numeric value of the digit `c`.
pub open spec fn digit_value(c: char) -> nat {
    ((c as int) - ('0' as int)) as nat
}

/// The value of a sequence of decimal digits, most significant first.
pub open spec fn digits_value(s: Seq<char>) -> nat
    decreases s.len(),
{
    if s.len() == 0 {
        0
    } else {
        digits_value(s.drop_last()) * 10 + digit_value(s.last())
    }
}

pub open spec fn all_digits(s: Seq<char>) -> bool {
    forall|i: int| 0 <= i < s.len() ==> is_digit(#[trigger] s[i])
}

/// The digits of an integer literal: everything after an optional leading `+`.
pub open spec fn digits_part(s: Seq<char>) -> Seq<char> {
    if s.len() > 0 && s[0] == '+' {
        s.subrange(1, s.len() as int)
    } else {
        s
    }
}

/// Whether `s` spells an unsigned 64-bit integer: an optional leading `+`,
/// then at least one digit, and a value that fits in a `u64`.
pub open spec fn is_u64_text(s: Seq<char>) -> bool {
    &&& digits_part(s).len() > 0
    &&& all_digits(digits_part(s))
    &&& digits_value(digits_part(s)) <= u64::MAX
}

/// The value of a digit prefix never exceeds the value of the whole.
proof fn lemma_digits_value_prefix(s: Seq<char>, n: int)
    requires
        0 <= n <= s.len(),
    ensures
        digits_value(s.subrange(0, n)) <= digits_value(s),
    decreases s.len() - n,
{
    if n == s.len() {
        assert(s.subrange(0, n) =~= s);
    } else {
        lemma_digits_value_prefix(s.drop_last(), n);
        assert(s.drop_last().subrange(0, n) =~= s.subrange(0, n));
    }
}

/// Parse an unsigned 64-bit integer from decimal text, accepting an optional
/// leading `+` as the standard library's integer parser does.
pub fn parse_u64(s: &str) -> (r: Option<u64>)
    ensures
        r is Some <==> is_u64_text(s@),
        r is Some ==> r == Some(digits_value(digits_part(s@)) as u64),
{
    let len: usize = s.unicode_len();
    let start: usize = if len > 0 && s.get_char(0) == '+' {
        1
    } else {
        0
    };
    let ghost dp = digits_part(s@);
    proof {
        assert(dp =~= s@.subrange(start as int, len as int));
    }
    if start == len {
        return None;
    }
    let mut acc: u64 = 0;
    let mut i: usize = start;
    while i < len
        invariant
            start <= i <= len,
            len == s@.len(),
            dp == digits_part(s@),
            dp =~= s@.subrange(start as int, len as int),
            all_digits(dp.subrange(0, i - start)),
            acc == digits_value(dp.subrange(0, i - start)),
        decreases len - i,
    {
        let c = s.get_char(i);
        let u = c as u32;
        let ghost prefix = dp.subrange(0, i - start);
        let ghost extended = dp.subrange(0, i + 1 - start);
        proof {
            assert(extended.drop_last() =~= prefix);
            assert(extended.last() == c);
        }
        if u < 48 || u > 57 {
            // `c` stands inside the digit part, so the text is not an integer.
            assert(!is_digit(dp[i - start]));
            return None;
        }
        let d: u64 = (u - 48) as u64;
        assert(d == digit_value(c));
        if acc > 1844674407370955161 || (acc == 1844674407370955161 && d > 5) {
            // The value of the digits read so far already exceeds u64::MAX,
            // and reading more digits can only increase the value.
            proof {
                assert(digits_value(extended) > u64::MAX);
                if all_digits(dp) {
                    lemma_digits_value_prefix(dp, i + 1 - start);
                }
            }
            return None;
        }
        acc = acc * 10 + d;
        i = i + 1;
    }
    proof {
        assert(dp.subrange(0, i - start) =~= dp);
    }
    Some(acc)
}

pub open spec fn default_database() -> Seq<char> {
    "trades_db"@
}

pub open spec fn default_collection() -> Seq<char> {
    "trades"@
}

/// The default polling interval, in milliseconds.
pub open spec fn default_polling_interval() -> u64 {
    500
}

/// Build the configuration from the raw values of its sources, applying the
/// documented defaults where a value is absent.
///
/// The root directory and the connection URI are required; the database and
/// collection names default; the polling interval defaults when absent and is
/// rejected when present but not a valid integer.
pub fn resolve_config(
    root_dir: Option<String>,
    mongodb_uri: Option<String>,
    database: Option<String>,
    collection: Option<String>,
    polling_interval_ms: Option<String>,
) -> (r: Result<Config, ConfigError>)
    ensures
        r is Ok <==> (root_dir is Some && mongodb_uri is Some && (polling_interval_ms is Some
            ==> is_u64_text(polling_interval_ms->0@))),
        root_dir is None ==> r == Err::<Config, ConfigError>(ConfigError::MissingRootDir),
        root_dir is Some && mongodb_uri is None ==> r == Err::<Config, ConfigError>(
            ConfigError::MissingMongoUri,
        ),
        root_dir is Some && mongodb_uri is Some && polling_interval_ms is Some && !is_u64_text(
            polling_interval_ms->0@,
        ) ==> r == Err::<Config, ConfigError>(ConfigError::InvalidPollingInterval),
        r is Ok ==> {
            let c = r->Ok_0;
            &&& c.root_dir@ == root_dir->0@
            &&& c.mongodb_uri@ == mongodb_uri->0@
            &&& c.database@ == if database is Some {
                database->0@
            } else {
                default_database()
            }
            &&& c.collection@ == if collection is Some {
                collection->0@
            } else {
                default_collection()
            }
            &&& c.polling_interval_ms == if polling_interval_ms is Some {
                digits_value(digits_part(polling_interval_ms->0@)) as u64
            } else {
                default_polling_interval()
            }
        },
{
    let root_dir = match root_dir {
        Some(v) => v,
        None => {
            return Err(ConfigError::MissingRootDir);
        },
    };
    let mongodb_uri = match mongodb_uri {
        Some(v) => v,
        None => {
            return Err(ConfigError::MissingMongoUri);
        },
    };
    let database = match database {
        Some(v) => v,
        None => "trades_db".to_owned(),
    };
    let collection = match collection {
        Some(v) => v,
        None => "trades".to_owned(),
    };
    let polling_interval_ms = match polling_interval_ms {
        Some(v) => match parse_u64(v.as_str()) {
            Some(n) => n,
            None => {
                return Err(ConfigError::InvalidPollingInterval);
            },
        },
        None => 500,
    };
    Ok(Config { root_dir, mongodb_uri, database, collection, polling_interval_ms })
}

} // verus!
