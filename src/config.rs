use vstd::prelude::*;
use crate::retry::{Attempts, Strategy};

verus! {

/// Built runtime configuration: every setting has a value.
#[derive(Clone, Copy, Debug, PartialEq, Eq, Structural)]
pub struct ConfigData {
    pub token_seed: u16,
    pub con_retry_strategy: Strategy,
    pub default_leisure_millis: u64,
    pub max_retransmit_attempts: u16,
    pub nstart: u8,
    pub probing_rate_bytes_per_sec: u16,
}

pub const MAX_LATENCY_MILLIS: u64 = 100_000;
pub const EXPECTED_PROCESSING_DELAY_MILLIS: u64 = 200;

impl ConfigData {
    /// The longest time from the first send of a confirmable message to its last retransmission.
    pub fn max_transmit_span_millis(&self) -> (r: u64)
        requires
            self.max_retransmit_attempts >= 1,
        ensures
            r == crate::retry::exp_total(
                0,
                self.con_retry_strategy.init_delay(),
                (self.max_retransmit_attempts - 1) as nat,
            ),
    {
        self.con_retry_strategy.max_time(Attempts(self.max_retransmit_attempts - 1))
    }

    /// The longest time from the first send of a confirmable message to giving up on it.
    pub fn max_transmit_wait_millis(&self) -> (r: u64)
        ensures
            r == crate::retry::exp_total(
                0,
                self.con_retry_strategy.init_delay(),
                self.max_retransmit_attempts as nat,
            ),
    {
        self.con_retry_strategy.max_time(Attempts(self.max_retransmit_attempts))
    }

    pub fn max_latency_millis(&self) -> (r: u64)
        ensures
            r == MAX_LATENCY_MILLIS,
    {
        MAX_LATENCY_MILLIS
    }

    pub fn expected_processing_delay_millis(&self) -> (r: u64)
        ensures
            r == EXPECTED_PROCESSING_DELAY_MILLIS,
    {
        EXPECTED_PROCESSING_DELAY_MILLIS
    }

    /// How long a message id stays in use: the transmit span, twice the latency and the
    /// processing delay (saturating).
    pub fn exchange_lifetime_millis(&self) -> (r: u64)
        requires
            self.max_retransmit_attempts >= 1,
        ensures
            r == crate::retry::sat_add(
                crate::retry::exp_total(
                    0,
                    self.con_retry_strategy.init_delay(),
                    (self.max_retransmit_attempts - 1) as nat,
                ),
                (2 * MAX_LATENCY_MILLIS + EXPECTED_PROCESSING_DELAY_MILLIS) as u64,
            ),
    {
        self.max_transmit_span_millis().saturating_add(
            2 * self.max_latency_millis() + self.expected_processing_delay_millis(),
        )
    }
}

/// Bytes per second.
#[derive(Clone, Copy, Debug, PartialEq, Eq, Structural)]
pub struct BytesPerSecond(pub u16);

/// Runtime configuration under construction: unset settings take their defaults when built.
#[derive(Clone, Copy, Debug, PartialEq, Eq, Structural)]
pub struct Config {
    pub token_seed: Option<u16>,
    pub con_retry_strategy: Option<Strategy>,
    pub default_leisure_millis: Option<u64>,
    pub max_retransmit_attempts: Option<u16>,
    pub nstart: Option<u8>,
    pub probing_rate_bytes_per_sec: Option<u16>,
}

pub open spec fn or_default<T>(o: Option<T>, d: T) -> T {
    match o {
        Some(v) => v,
        None => d,
    }
}

pub open spec fn default_strategy() -> Strategy {
    Strategy::Exponential { init_min: 2_000, init_max: 3_000 }
}

impl Config {
    pub open spec fn built(self) -> ConfigData {
        ConfigData {
            token_seed: or_default(self.token_seed, 0),
            con_retry_strategy: or_default(self.con_retry_strategy, default_strategy()),
            default_leisure_millis: or_default(self.default_leisure_millis, 5_000),
            max_retransmit_attempts: or_default(self.max_retransmit_attempts, 4),
            nstart: or_default(self.nstart, 1),
            probing_rate_bytes_per_sec: or_default(self.probing_rate_bytes_per_sec, 1_000),
        }
    }

    /// A configuration with nothing set.
    pub fn new() -> (r: Config)
        ensures
            r.token_seed is None,
            r.con_retry_strategy is None,
            r.default_leisure_millis is None,
            r.max_retransmit_attempts is None,
            r.nstart is None,
            r.probing_rate_bytes_per_sec is None,
    {
        Config {
            token_seed: None,
            con_retry_strategy: None,
            default_leisure_millis: None,
            max_retransmit_attempts: None,
            nstart: None,
            probing_rate_bytes_per_sec: None,
        }
    }

    /// Set the backoff for resending unacknowledged confirmable requests.
    pub fn con_retry_strategy(self, strat: Strategy) -> (r: Config)
        ensures
            r == (Config { con_retry_strategy: Some(strat), ..self }),
    {
        Config { con_retry_strategy: Some(strat), ..self }
    }

    /// Set the seed used when generating message tokens.
    pub fn token_seed(self, token_seed: u16) -> (r: Config)
        ensures
            r == (Config { token_seed: Some(token_seed), ..self }),
    {
        Config { token_seed: Some(token_seed), ..self }
    }

    /// Set the transmission rate to stay under while waiting for responses.
    pub fn probing_rate(self, probing_rate: BytesPerSecond) -> (r: Config)
        ensures
            r == (Config { probing_rate_bytes_per_sec: Some(probing_rate.0), ..self }),
    {
        Config { probing_rate_bytes_per_sec: Some(probing_rate.0), ..self }
    }

    /// Set how many requests may be in flight to one server at once.
    pub fn max_concurrent_requests(self, n: u8) -> (r: Config)
        ensures
            r == (Config { nstart: Some(n), ..self }),
    {
        Config { nstart: Some(n), ..self }
    }

    /// Set how many times a confirmable request is sent at most.
    pub fn max_con_request_retries(self, max_tries: Attempts) -> (r: Config)
        ensures
            r == (Config { max_retransmit_attempts: Some(max_tries.0), ..self }),
    {
        Config { max_retransmit_attempts: Some(max_tries.0), ..self }
    }

    /// Set the longest wait before answering a multicast request, in milliseconds.
    pub fn default_leisure(self, default_leisure_millis: u64) -> (r: Config)
        ensures
            r == (Config { default_leisure_millis: Some(default_leisure_millis), ..self }),
    {
        Config { default_leisure_millis: Some(default_leisure_millis), ..self }
    }

    /// Fill every unset setting with its default.
    pub fn build(self) -> (r: ConfigData)
        ensures
            r == self.built(),
    {
        ConfigData {
            token_seed: match self.token_seed { Some(v) => v, None => 0 },
            con_retry_strategy: match self.con_retry_strategy {
                Some(v) => v,
                None => Strategy::Exponential { init_min: 2_000, init_max: 3_000 },
            },
            default_leisure_millis: match self.default_leisure_millis { Some(v) => v, None => 5_000 },
            max_retransmit_attempts: match self.max_retransmit_attempts { Some(v) => v, None => 4 },
            nstart: match self.nstart { Some(v) => v, None => 1 },
            probing_rate_bytes_per_sec: match self.probing_rate_bytes_per_sec {
                Some(v) => v,
                None => 1_000,
            },
        }
    }
}

impl Default for Config {
    fn default() -> (r: Config)
        ensures
            r == (Config {
                token_seed: None,
                con_retry_strategy: None,
                default_leisure_millis: None,
                max_retransmit_attempts: None,
                nstart: None,
                probing_rate_bytes_per_sec: None,
            }),
    {
        Config::new()
    }
}

impl Default for ConfigData {
    fn default() -> (r: ConfigData)
        ensures
            r == (Config {
                token_seed: None,
                con_retry_strategy: None,
                default_leisure_millis: None,
                max_retransmit_attempts: None,
                nstart: None,
                probing_rate_bytes_per_sec: None,
            }).built(),
    {
        Config::new().build()
    }
}

impl From<Config> for ConfigData {
    fn from(c: Config) -> (r: ConfigData)
        ensures
            r == c.built(),
    {
        c.build()
    }
}

impl vstd::std_specs::convert::FromSpecImpl<Config> for ConfigData {
    open spec fn obeys_from_spec() -> bool {
        true
    }

    open spec fn from_spec(c: Config) -> ConfigData {
        c.built()
    }
}

} // verus!
