use kwap::config::{BytesPerSecond, Config, ConfigData};
use kwap::retry::{Attempts, RetryTimer, Strategy, YouShould};

#[test]
fn config_defaults() {
    let c: ConfigData = Config::new().build();
    assert_eq!(c.token_seed, 0);
    assert_eq!(c.default_leisure_millis, 5_000);
    assert_eq!(c.max_retransmit_attempts, 4);
    assert_eq!(c.nstart, 1);
    assert_eq!(c.probing_rate_bytes_per_sec, 1_000);
    assert_eq!(c.con_retry_strategy, Strategy::Exponential { init_min: 2_000, init_max: 3_000 });
    assert_eq!(ConfigData::default(), c);
}

#[test]
fn config_builders() {
    let c: ConfigData = Config::new()
        .token_seed(35718)
        .max_concurrent_requests(142)
        .probing_rate(BytesPerSecond(10_000))
        .max_con_request_retries(Attempts(10))
        .con_retry_strategy(Strategy::Exponential { init_min: 500, init_max: 750 })
        .default_leisure(10)
        .into();
    assert_eq!(c.token_seed, 35718);
    assert_eq!(c.nstart, 142);
    assert_eq!(c.probing_rate_bytes_per_sec, 10_000);
    assert_eq!(c.max_retransmit_attempts, 10);
    assert_eq!(c.default_leisure_millis, 10);
    assert_eq!(c.con_retry_strategy, Strategy::Exponential { init_min: 500, init_max: 750 });
}

#[test]
fn config_derived_times() {
    let c = Config::new().build();
    // 3000 + 6000 + 12000
    assert_eq!(c.max_transmit_span_millis(), 21_000);
    // 3000 + 6000 + 12000 + 24000
    assert_eq!(c.max_transmit_wait_millis(), 45_000);
    assert_eq!(c.exchange_lifetime_millis(), 21_000 + 200_000 + 200);
}

#[test]
fn retry_timer_exponential_then_gives_up() {
    let mut t = RetryTimer::new(0, Strategy::Exponential { init_min: 10, init_max: 10 }, Attempts(2));
    assert_eq!(t.what_should_i_do(5), YouShould::Wait);
    assert_eq!(t.what_should_i_do(10), YouShould::Retry);
    assert_eq!(t.what_should_i_do(29), YouShould::Wait);
    assert_eq!(t.what_should_i_do(30), YouShould::GiveUp);
    assert_eq!(t.what_should_i_do(1_000_000), YouShould::GiveUp);
}

#[test]
fn retry_timer_default_five_attempts() {
    let mut t = RetryTimer::new(1000, Strategy::Exponential { init_min: 100, init_max: 100 }, Attempts(5));
    assert_eq!(t.what_should_i_do(1100), YouShould::Retry);
    assert_eq!(t.what_should_i_do(1300), YouShould::Retry);
    assert_eq!(t.what_should_i_do(1700), YouShould::Retry);
    assert_eq!(t.what_should_i_do(2500), YouShould::Retry);
    assert_eq!(t.what_should_i_do(4099), YouShould::Wait);
    assert_eq!(t.what_should_i_do(4100), YouShould::GiveUp);
}
