//! Configuration types for streaming sources, and their error taxonomy.
use vstd::prelude::*;

verus! {

/// Authentication material for the sources a config can point at.
pub enum Credentials {
    Aws { access_key_id: String, secret_access_key: String, region: Option<String>, session_token: Option<String> },
    Azure { account_name: String, account_key: String },
    Gcs { project_id: String, credentials_json: String },
    Basic { username: String, password: String },
    Bearer { token: String },
    ApiKey { key: String, header_name: Option<String> },
    OAuth2 { token: String, refresh_token: Option<String> },
    DynamoDb { access_key_id: String, secret_access_key: String, region: String },
    Kafka { username: Option<String>, password: Option<String>, sasl_mechanism: Option<String> },
}

/// Generic source configuration: a location and the tuning knobs every
/// provider shares.
pub struct SourceConfig {
    pub location: String,
    pub credentials: Option<Credentials>,
    pub memory_limit: Option<u64>,
    pub chunk_size: Option<usize>,
    pub parallel: bool,
    pub prefetch: bool,
    pub options: Vec<(String, String)>,
}

impl SourceConfig {
    pub fn new(location: String) -> (r: SourceConfig)
        ensures
            r.location@ == location@,
            r.credentials is None,
            r.memory_limit is None,
            r.chunk_size is None,
            !r.parallel,
            r.prefetch,
            r.options@.len() == 0,
    {
        SourceConfig {
            location,
            credentials: None,
            memory_limit: None,
            chunk_size: None,
            parallel: false,
            prefetch: true,
            options: Vec::new(),
        }
    }

    pub fn with_credentials(self, credentials: Credentials) -> (r: SourceConfig)
        ensures
            r == (SourceConfig { credentials: Some(credentials), ..self }),
    {
        SourceConfig { credentials: Some(credentials), ..self }
    }

    pub fn with_memory_limit(self, bytes: u64) -> (r: SourceConfig)
        ensures
            r == (SourceConfig { memory_limit: Some(bytes), ..self }),
    {
        SourceConfig { memory_limit: Some(bytes), ..self }
    }

    pub fn with_chunk_size(self, size: usize) -> (r: SourceConfig)
        ensures
            r == (SourceConfig { chunk_size: Some(size), ..self }),
    {
        SourceConfig { chunk_size: Some(size), ..self }
    }

    pub fn with_parallel(self, enable: bool) -> (r: SourceConfig)
        ensures
            r == (SourceConfig { parallel: enable, ..self }),
    {
        SourceConfig { parallel: enable, ..self }
    }

    pub fn with_option(self, key: String, value: String) -> (r: SourceConfig)
        ensures
            r.options@ == self.options@.push((key, value)),
            r.location == self.location,
            r.credentials == self.credentials,
            r.memory_limit == self.memory_limit,
            r.chunk_size == self.chunk_size,
            r.parallel == self.parallel,
            r.prefetch == self.prefetch,
    {
        let mut me = self;
        me.options.push((key, value));
        me
    }

    /// The value stored last under the key, if any: a later `with_option`
    /// for the same key wins.
    #[verifier::loop_isolation(false)]
    pub fn option_value(&self, key: &String) -> (r: Option<&String>)
        ensures
            ({
                let idx = find_option_back(self.options@, key@, self.options@.len() - 1);
                match r {
                    Some(v) => 0 <= idx < self.options@.len() && v@ == self.options@[idx].1@
                        && self.options@[idx].0@ == key@,
                    None => idx == -1,
                }
            }),
    {
        proof {
            lemma_find_option_back_spec(self.options@, key@, self.options@.len() - 1);
        }
        let mut i: usize = self.options.len();
        while i > 0
            invariant
                0 <= i <= self.options@.len(),
                find_option_back(self.options@, key@, self.options@.len() - 1)
                    == find_option_back(self.options@, key@, i - 1),
            decreases i,
        {
            i -= 1;
            if self.options[i].0 == *key {
                return Some(&self.options[i].1);
            }
        }
        None
    }
}

/// Index of the last option pair at or before `from` carrying the key, or
/// -1 when none does.
pub open spec fn find_option_back(opts: Seq<(String, String)>, key: Seq<char>, from: int) -> int
    decreases from + 1,
{
    if from < 0 || from >= opts.len() {
        -1
    } else if opts[from].0@ == key {
        from
    } else {
        find_option_back(opts, key, from - 1)
    }
}

/// `find_option_back` finds a real index carrying the key, or -1 and then
/// no pair at or before `from` carries it.
pub proof fn lemma_find_option_back_spec(opts: Seq<(String, String)>, key: Seq<char>, from: int)
    requires
        from < opts.len(),
    ensures
        find_option_back(opts, key, from) >= 0 ==> find_option_back(opts, key, from) <= from
            && opts[find_option_back(opts, key, from)].0@ == key,
        find_option_back(opts, key, from) == -1 ==> forall|i: int|
            0 <= i <= from ==> (#[trigger] opts[i]).0@ != key,
        find_option_back(opts, key, from) == -1 || 0 <= find_option_back(opts, key, from) <= from,
    decreases from + 1,
{
    if from >= 0 {
        lemma_find_option_back_spec(opts, key, from - 1);
    }
}

/// How one CSV source is read.
pub struct CsvConfig {
    pub delimiter: u8,
    pub has_header: bool,
    pub skip_rows: usize,
    pub null_values: Option<Vec<String>>,
    pub comment_char: Option<u8>,
    pub quote_char: Option<u8>,
    pub encoding: String,
}

impl Default for CsvConfig {
    /// Comma-separated, with a header row, quoted by double quotes, UTF-8.
    fn default() -> (r: CsvConfig)
        ensures
            r.delimiter == 44u8,
            r.has_header,
            r.skip_rows == 0,
            r.null_values is None,
            r.comment_char is None,
            r.quote_char == Some(34u8),
            r.encoding@ == "utf-8"@,
    {
        CsvConfig {
            delimiter: 44,
            has_header: true,
            skip_rows: 0,
            null_values: None,
            comment_char: None,
            quote_char: Some(34),
            encoding: String::from_str("utf-8"),
        }
    }
}

/// How one HTTP source is fetched.
pub struct HttpConfig {
    pub method: String,
    pub headers: Vec<(String, String)>,
    pub timeout_ms: u64,
    pub retry_attempts: usize,
    pub retry_delay_ms: u64,
}

impl Default for HttpConfig {
    fn default() -> (r: HttpConfig)
        ensures
            r.method@ == "GET"@,
            r.headers@.len() == 0,
            r.timeout_ms == 30000,
            r.retry_attempts == 3,
            r.retry_delay_ms == 1000,
    {
        HttpConfig {
            method: String::from_str("GET"),
            headers: Vec::new(),
            timeout_ms: 30000,
            retry_attempts: 3,
            retry_delay_ms: 1000,
        }
    }
}

/// How one Kafka source is consumed.
pub struct KafkaConfig {
    pub brokers: Vec<String>,
    pub topic: String,
    pub group_id: String,
    pub auto_offset_reset: String,
    pub max_poll_records: usize,
}

impl Default for KafkaConfig {
    fn default() -> (r: KafkaConfig)
        ensures
            r.brokers.deep_view().len() == 1,
            r.brokers.deep_view()[0] == "localhost:9092"@,
            r.topic@.len() == 0,
            r.group_id@ == "polaroid-consumer"@,
            r.auto_offset_reset@ == "earliest"@,
            r.max_poll_records == 500,
    {
        let mut brokers: Vec<String> = Vec::new();
        brokers.push(String::from_str("localhost:9092"));
        proof {
            assert(brokers.deep_view() =~= seq!["localhost:9092"@]);
        }
        KafkaConfig {
            brokers,
            topic: String::new(),
            group_id: String::from_str("polaroid-consumer"),
            auto_offset_reset: String::from_str("earliest"),
            max_poll_records: 500,
        }
    }
}

/// What can go wrong while a source streams.
pub enum SourceError {
    Io(String),
    Network(String),
    Auth(String),
    Config(String),
    UnsupportedSource(String),
    UnsupportedOperation(String),
    MemoryLimit(usize),
    EmptySource,
    Decode(String),
    Cloud(String),
    Database(String),
    Kafka(String),
    Parse(String),
    Other(String),
}

} // verus!
