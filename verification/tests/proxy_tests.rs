use ghdown::clock::{format_datetime, parse_datetime, Moment};
use ghdown::config::{compare_health, Config, HealthConfig, ProxyState, ProxyStateStore, ProxyStatus};
use ghdown::proxy::{
    builtin_proxies, failover_step, is_available_at, merge_proxy_urls, position_of, probe_ok, probe_target,
    rank_probe_results, FailoverStep, ProbeResult, ProxyManager,
};

fn s(x: &str) -> String {
    x.to_string()
}

fn state(url: &str, ok: u64, fail: u64, latency: Option<u64>, status: ProxyStatus) -> ProxyState {
    let mut st = ProxyState::new(url);
    st.total_successes = ok;
    st.total_failures = fail;
    st.latency_ms = latency;
    st.status = status;
    st
}

fn manager(custom: Vec<String>, states: Vec<ProxyState>, fallback: usize) -> ProxyManager {
    let config = Config {
        custom_proxies: custom,
        health: HealthConfig { max_consecutive_failures: 3, cooldown_seconds: 300, fallback_count: fallback },
    };
    ProxyManager::new(&config, ProxyStateStore { proxies: states })
}

const NOW: Moment = Moment { secs: 1_700_000_000, nanos: 0 };

#[test]
fn new_record_is_fresh() {
    let st = ProxyState::new("https://p/");
    assert_eq!(st.url, "https://p/");
    assert_eq!(st.status, ProxyStatus::Unknown);
    assert_eq!(st.latency_ms, None);
    assert_eq!(st.last_checked, None);
    assert_eq!(st.consecutive_failures, 0);
    assert_eq!(st.total_successes, 0);
    assert_eq!(st.total_failures, 0);
    assert_eq!(st.dead_until, None);
    assert_eq!(ProxyStatus::default(), ProxyStatus::Unknown);
}

#[test]
fn default_configuration() {
    let c = Config::default();
    assert!(c.custom_proxies.is_empty());
    assert_eq!(c.health.max_consecutive_failures, 3);
    assert_eq!(c.health.cooldown_seconds, 300);
    assert_eq!(c.health.fallback_count, 3);
    assert_eq!(ghdown::config::default_max_fails(), 3);
    assert_eq!(ghdown::config::default_cooldown(), 300);
    assert_eq!(ghdown::config::default_fallback(), 3);
}

#[test]
fn config_custom_proxies() {
    let mut c = Config::default();
    assert!(c.add_custom_proxy("https://a/"));
    assert!(!c.add_custom_proxy("https://a/"));
    assert!(c.add_custom_proxy("https://b/"));
    assert_eq!(c.custom_proxies, vec![s("https://a/"), s("https://b/")]);
    c.custom_proxies.push(s("https://a/"));
    c.remove_custom_proxy("https://a/");
    assert_eq!(c.custom_proxies, vec![s("https://b/")]);
}

#[test]
fn health_comparison() {
    // 3/(3+0) > 1/(1+2)
    assert!(compare_health(3, 0, 1, 1) > 0);
    assert!(compare_health(1, 1, 3, 0) < 0);
    // no history scores one half, as does 2 successes against 1 failure
    assert_eq!(compare_health(0, 0, 2, 1), 0);
    assert!(compare_health(0, 0, 1, 1) > 0);
    assert!(compare_health(0, 0, 3, 1) < 0);
    assert_eq!(compare_health(2, 2, 4, 4), 0);
    assert!(compare_health(u64::MAX, 1, u64::MAX - 1, 1) > 0);
    assert_eq!(compare_health(0, 5, 0, 1), 0);
}

#[test]
fn builtin_list() {
    let b = builtin_proxies();
    assert_eq!(b.len(), 75);
    assert_eq!(b[0], "https://777.z321.cc.cd/");
    assert_eq!(b[74], "https://v6.gh-proxy.org/");
}

#[test]
fn custom_proxies_come_first() {
    let custom = vec![s("https://mine/"), s("https://ghfast.top/"), s("https://mine/")];
    let builtin = vec![s("https://ghfast.top/"), s("https://other/"), s("https://other/")];
    let merged = merge_proxy_urls(&custom, &builtin);
    assert_eq!(merged, vec![s("https://mine/"), s("https://ghfast.top/"), s("https://mine/"), s("https://other/")]);
    let m = manager(vec![s("https://mine/"), s("https://ghfast.top/")], vec![], 3);
    assert_eq!(m.all_urls.len(), 76);
    assert_eq!(m.all_urls[0], "https://mine/");
    assert_eq!(m.all_urls[1], "https://ghfast.top/");
}

#[test]
fn saved_states_keep_first_of_each_url() {
    let m = manager(vec![], vec![state("https://a/", 1, 0, None, ProxyStatus::Healthy), state("https://a/", 9, 9, None, ProxyStatus::Dead), state("https://b/", 0, 0, None, ProxyStatus::Unknown)], 3);
    assert_eq!(m.states.len(), 2);
    assert_eq!(m.states[0].total_successes, 1);
    assert_eq!(position_of(&m.states, "https://b/"), Some(1));
    assert_eq!(position_of(&m.states, "https://c/"), None);
}

#[test]
fn success_and_reset() {
    let mut m = manager(vec![], vec![state("https://a/", 1, 2, Some(5), ProxyStatus::Dead)], 3);
    m.states[0].consecutive_failures = 2;
    m.states[0].dead_until = Some(s("later"));
    m.record_success("https://a/");
    assert_eq!(m.states[0].total_successes, 2);
    assert_eq!(m.states[0].consecutive_failures, 0);
    assert_eq!(m.states[0].status, ProxyStatus::Healthy);
    assert_eq!(m.states[0].dead_until, Some(s("later")));
    m.record_success("https://unknown/");
    assert_eq!(m.states.len(), 1);
    m.states[0].status = ProxyStatus::Dead;
    m.states[0].consecutive_failures = 4;
    m.reset("https://a/");
    assert_eq!(m.states[0].status, ProxyStatus::Unknown);
    assert_eq!(m.states[0].consecutive_failures, 0);
    assert_eq!(m.states[0].dead_until, None);
    assert_eq!(m.states[0].total_failures, 2);
}

#[test]
fn failures_start_a_cooldown() {
    let mut m = manager(vec![], vec![state("https://a/", 0, 0, None, ProxyStatus::Healthy)], 3);
    assert!(m.record_failure("https://a/", NOW));
    assert!(m.record_failure("https://a/", NOW));
    assert_eq!(m.states[0].status, ProxyStatus::Dead);
    assert_eq!(m.states[0].consecutive_failures, 2);
    assert_eq!(m.states[0].dead_until, None);
    assert!(m.record_failure("https://a/", NOW));
    assert_eq!(m.states[0].consecutive_failures, 3);
    assert_eq!(m.states[0].total_failures, 3);
    let until = format_datetime(Moment { secs: NOW.secs + 300, nanos: 0 });
    assert_eq!(m.states[0].dead_until, Some(until));
    // the proxy rests until the deadline and is usable again from then on
    assert!(!is_available_at(&m.states[0], NOW));
    assert!(!is_available_at(&m.states[0], Moment { secs: NOW.secs + 299, nanos: 999_999_999 }));
    assert!(is_available_at(&m.states[0], Moment { secs: NOW.secs + 300, nanos: 0 }));
    assert!(is_available_at(&m.states[0], Moment { secs: NOW.secs + 301, nanos: 0 }));
    assert!(m.record_failure("https://none/", NOW));
    let later = Moment { secs: NOW.secs + 1000, nanos: 0 };
    assert!(m.record_failure("https://a/", later));
    assert_eq!(m.states[0].consecutive_failures, 4);
    assert_eq!(m.states[0].dead_until, Some(format_datetime(Moment { secs: NOW.secs + 1300, nanos: 0 })));
    assert!(!is_available_at(&m.states[0], Moment { secs: NOW.secs + 1299, nanos: 0 }));
    assert!(is_available_at(&m.states[0], Moment { secs: NOW.secs + 1300, nanos: 0 }));
}

#[test]
fn impossible_cooldown_changes_nothing() {
    let config = Config {
        custom_proxies: vec![],
        health: HealthConfig { max_consecutive_failures: 1, cooldown_seconds: 9_223_372_036_854_776, fallback_count: 3 },
    };
    let mut m = ProxyManager::new(&config, ProxyStateStore { proxies: vec![ProxyState::new("https://a/")] });
    assert!(!m.record_failure("https://a/", NOW));
    assert_eq!(m.states[0].consecutive_failures, 0);
    assert_eq!(m.states[0].status, ProxyStatus::Unknown);
}

#[test]
fn availability() {
    let healthy = state("https://a/", 0, 0, None, ProxyStatus::Healthy);
    assert!(is_available_at(&healthy, NOW));
    let unknown = state("https://a/", 0, 0, None, ProxyStatus::Unknown);
    assert!(is_available_at(&unknown, NOW));
    let mut dead = state("https://a/", 0, 0, None, ProxyStatus::Dead);
    assert!(!is_available_at(&dead, NOW));
    // still cooling down
    dead.dead_until = Some(s("2100-01-01T00:00:00"));
    assert!(!is_available_at(&dead, NOW));
    // the cooldown is over
    dead.dead_until = Some(s("2000-01-01T00:00:00"));
    assert!(is_available_at(&dead, NOW));
    // exactly at the deadline
    dead.dead_until = Some(format_datetime(NOW));
    assert!(is_available_at(&dead, NOW));
    // a deadline that does not parse keeps the proxy out
    dead.dead_until = Some(s("2000-01-01 00:00:00"));
    assert!(!is_available_at(&dead, NOW));
    let p = parse_datetime("2000-01-01T00:00:00").unwrap();
    assert_eq!(p.secs, 946_684_800);
}

#[test]
fn probes_update_records() {
    let mut m = manager(vec![], vec![state("https://a/", 0, 0, None, ProxyStatus::Unknown)], 3);
    m.record_probe("https://a/", Some(40), true, NOW);
    assert_eq!(m.states[0].status, ProxyStatus::Healthy);
    assert_eq!(m.states[0].latency_ms, Some(40));
    assert_eq!(m.states[0].last_checked, Some(s("2023-11-14 22:13:20")));
    m.record_probe("https://a/", None, false, Moment { secs: NOW.secs, nanos: 250_000_000 });
    assert_eq!(m.states[0].last_checked, Some(s("2023-11-14 22:13:20.250")));
    assert_eq!(m.states[0].status, ProxyStatus::Dead);
    assert_eq!(m.states[0].consecutive_failures, 1);
    assert_eq!(m.states[0].total_failures, 1);
    assert_eq!(m.states[0].latency_ms, None);
    m.record_probe("https://new/", Some(7), true, NOW);
    assert_eq!(m.states.len(), 2);
    assert_eq!(m.states[1].url, "https://new/");
    assert_eq!(m.states[1].status, ProxyStatus::Healthy);
    assert_eq!(m.states[1].latency_ms, Some(7));
}

#[test]
fn healthy_proxies_are_ranked() {
    let m = manager(
        vec![],
        vec![
            state("https://slow-good/", 10, 0, Some(300), ProxyStatus::Healthy),
            state("https://dead/", 100, 0, Some(1), ProxyStatus::Dead),
            state("https://fast-good/", 5, 0, Some(100), ProxyStatus::Healthy),
            state("https://new/", 0, 0, None, ProxyStatus::Unknown),
            state("https://bad/", 1, 1, Some(10), ProxyStatus::Healthy),
            state("https://fast-good-2/", 7, 0, Some(100), ProxyStatus::Healthy),
        ],
        2,
    );
    let urls: Vec<&str> = m.get_sorted_healthy(NOW).iter().map(|s| s.url.as_str()).collect();
    assert_eq!(urls, vec!["https://fast-good/", "https://fast-good-2/", "https://slow-good/", "https://new/", "https://bad/"]);
    assert_eq!(m.get_best_proxy_url(NOW), Some(s("https://fast-good/")));
    assert_eq!(m.get_fallback_proxies("https://fast-good/", NOW), vec![s("https://fast-good-2/"), s("https://slow-good/")]);
    assert_eq!(m.get_fallback_proxies("https://none/", NOW), vec![s("https://fast-good/"), s("https://fast-good-2/")]);
    assert_eq!(m.resolve_proxies(None, NOW), vec![s("https://fast-good/"), s("https://fast-good-2/"), s("https://slow-good/")]);
    assert_eq!(m.resolve_proxies(Some("https://mine/"), NOW), vec![s("https://mine/")]);
}

#[test]
fn no_usable_proxy_falls_back_to_all_urls() {
    let m = manager(vec![s("https://mine/")], vec![state("https://mine/", 0, 1, None, ProxyStatus::Dead)], 3);
    assert_eq!(m.get_best_proxy_url(NOW), None);
    assert!(m.get_fallback_proxies("x", NOW).is_empty());
    let r = m.resolve_proxies(None, NOW);
    assert_eq!(r, m.all_urls);
    assert_eq!(r.len(), 76);
}

#[test]
fn fallback_count_zero() {
    let m = manager(vec![], vec![state("https://a/", 1, 0, None, ProxyStatus::Healthy), state("https://b/", 1, 0, None, ProxyStatus::Healthy)], 0);
    assert!(m.get_fallback_proxies("https://a/", NOW).is_empty());
    assert_eq!(m.resolve_proxies(None, NOW), vec![s("https://a/")]);
}

#[test]
fn adding_and_removing_proxies() {
    let mut m = manager(vec![], vec![state("https://x/", 5, 5, Some(3), ProxyStatus::Dead)], 3);
    assert!(m.add_custom("https://x/"));
    assert_eq!(m.all_urls.last().unwrap(), "https://x/");
    // the old record is replaced by a fresh one
    assert_eq!(m.states[0].total_successes, 0);
    assert_eq!(m.states[0].status, ProxyStatus::Unknown);
    assert!(!m.add_custom("https://x/"));
    assert!(!m.add_custom("https://ghfast.top/"));
    assert!(m.add_custom("https://y/"));
    assert_eq!(m.states.len(), 2);
    m.remove_custom("https://x/");
    assert!(!m.all_urls.contains(&s("https://x/")));
    assert_eq!(m.states.len(), 1);
    assert_eq!(m.states[0].url, "https://y/");
    m.remove_custom("https://ghfast.top/");
    assert_eq!(m.all_urls.len(), 75);
}

#[test]
fn report_puts_healthy_first() {
    let m = manager(
        vec![],
        vec![
            state("https://u/", 0, 0, Some(1), ProxyStatus::Unknown),
            state("https://h2/", 0, 0, Some(50), ProxyStatus::Healthy),
            state("https://d/", 0, 0, None, ProxyStatus::Dead),
            state("https://h1/", 0, 0, Some(20), ProxyStatus::Healthy),
            state("https://h3/", 0, 0, None, ProxyStatus::Healthy),
        ],
        3,
    );
    let urls: Vec<String> = m.generate_report().into_iter().map(|s| s.url).collect();
    assert_eq!(urls, vec![s("https://h1/"), s("https://h2/"), s("https://h3/"), s("https://u/"), s("https://d/")]);
}

#[test]
fn probe_results_are_ranked() {
    let r = |u: &str, l: Option<u64>, ok: bool| ProbeResult { url: s(u), latency_ms: l, ok };
    let results = vec![
        r("https://f1/", None, false),
        r("https://s300/", Some(300), true),
        r("https://f2/", Some(5), false),
        r("https://s100/", Some(100), true),
        r("https://s100b/", Some(100), true),
    ];
    assert_eq!(
        rank_probe_results(&results),
        vec![s("https://s100/"), s("https://s100b/"), s("https://s300/"), s("https://f1/"), s("https://f2/")]
    );
    assert!(rank_probe_results(&vec![]).is_empty());
}

#[test]
fn probe_targets() {
    // the proxy prefix is kept whole, as for every proxied request
    assert_eq!(probe_target("https://gh-proxy.com/"), "https://gh-proxy.com/https://github.com/favicon.ico");
    assert_eq!(probe_target("https://ghfast.top/"), "https://ghfast.top/https://github.com/favicon.ico");
    assert_eq!(probe_target("https://x"), "https://xhttps://github.com/favicon.ico");
}

#[test]
fn resolved_list_has_no_duplicates() {
    let m = manager(
        vec![],
        vec![
            state("https://a/", 3, 0, Some(10), ProxyStatus::Healthy),
            state("https://b/", 3, 0, Some(20), ProxyStatus::Healthy),
            state("https://c/", 1, 0, Some(5), ProxyStatus::Unknown),
            state("https://d/", 0, 3, Some(1), ProxyStatus::Healthy),
        ],
        10,
    );
    let r = m.resolve_proxies(None, NOW);
    // equal scores of 1: lower latency first
    assert_eq!(r, vec![s("https://c/"), s("https://a/"), s("https://b/"), s("https://d/")]);
    let mut sorted = r.clone();
    sorted.sort();
    sorted.dedup();
    assert_eq!(sorted.len(), r.len());
}

#[test]
fn success_and_reset_make_usable() {
    let mut m = manager(vec![], vec![state("https://a/", 0, 5, None, ProxyStatus::Dead)], 3);
    assert!(!is_available_at(&m.states[0], NOW));
    m.record_success("https://a/");
    assert!(is_available_at(&m.states[0], NOW));
    m.states[0].status = ProxyStatus::Dead;
    m.reset("https://a/");
    assert!(is_available_at(&m.states[0], NOW));
}

#[test]
fn failover_tries_proxies_in_turn() {
    let mut m = manager(
        vec![],
        vec![state("https://a/", 0, 0, None, ProxyStatus::Healthy), state("https://b/", 0, 0, None, ProxyStatus::Healthy)],
        3,
    );
    let list = vec![s("https://a/"), s("https://b/"), s("https://c/")];
    assert_eq!(failover_step(&mut m, &list, None, 120, NOW), FailoverStep::Attempt { index: 0, resume_from: 120 });
    assert_eq!(m.states.len(), 2);
    assert_eq!(m.states[0].total_failures, 0);
    assert_eq!(m.states[0].status, ProxyStatus::Healthy);
    // a failure is recorded and the next proxy resumes from what is on disk
    assert_eq!(failover_step(&mut m, &list, Some((0, false)), 150, NOW), FailoverStep::Attempt { index: 1, resume_from: 150 });
    assert_eq!(m.states[0].status, ProxyStatus::Dead);
    assert_eq!(m.states[0].consecutive_failures, 1);
    assert_eq!(m.states[0].total_failures, 1);
    // the first success ends the download
    assert_eq!(failover_step(&mut m, &list, Some((1, true)), 0, NOW), FailoverStep::Done { index: 1 });
    assert_eq!(m.states[1].total_successes, 1);
    assert_eq!(m.states[1].status, ProxyStatus::Healthy);
}

#[test]
fn failover_gives_up_after_the_last_proxy() {
    let mut m = manager(vec![], vec![state("https://a/", 0, 0, None, ProxyStatus::Healthy)], 3);
    let list = vec![s("https://a/"), s("https://z/")];
    assert_eq!(failover_step(&mut m, &list, Some((1, false)), 0, NOW), FailoverStep::Exhausted);
    // an url without a record is not recorded
    assert_eq!(m.states.len(), 1);
    assert_eq!(m.states[0].total_failures, 0);
    assert_eq!(failover_step(&mut m, &vec![], None, 7, NOW), FailoverStep::Exhausted);
}

#[test]
fn failures_in_a_row_through_failover_start_a_cooldown() {
    let mut m = manager(vec![], vec![state("https://a/", 0, 0, None, ProxyStatus::Healthy)], 3);
    let list = vec![s("https://a/")];
    for _ in 0..3 {
        assert_eq!(failover_step(&mut m, &list, Some((0, false)), 0, NOW), FailoverStep::Exhausted);
    }
    assert_eq!(m.states[0].consecutive_failures, 3);
    assert!(!is_available_at(&m.states[0], NOW));
    assert!(is_available_at(&m.states[0], Moment { secs: NOW.secs + 300, nanos: 0 }));
}

#[test]
fn recordable_failures() {
    let config = Config {
        custom_proxies: vec![],
        health: HealthConfig { max_consecutive_failures: 2, cooldown_seconds: 9_223_372_036_854_776, fallback_count: 3 },
    };
    let mut m = ProxyManager::new(&config, ProxyStateStore { proxies: vec![ProxyState::new("https://a/")] });
    assert!(m.failure_recordable("https://a/", NOW));
    assert!(m.failure_recordable("https://none/", NOW));
    assert!(m.record_failure("https://a/", NOW));
    // the next failure would start a cooldown that chrono cannot compute
    assert!(!m.failure_recordable("https://a/", NOW));
    assert!(!m.record_failure("https://a/", NOW));
    assert_eq!(m.states[0].consecutive_failures, 1);
}

#[test]
fn probe_statuses() {
    assert!(probe_ok(200));
    assert!(probe_ok(204));
    assert!(probe_ok(299));
    assert!(probe_ok(302));
    assert!(!probe_ok(301));
    assert!(!probe_ok(404));
    assert!(!probe_ok(199));
}

#[test]
fn more_successes_never_lower_the_score() {
    // (successes, failures) pairs: the second never scores below the first
    let pairs = [((0u64, 0u64), (0u64, 0u64)), ((0, 0), (5, 0)), ((0, 3), (0, 0)), ((1, 4), (2, 1)), ((3, 1), (3, 1)), ((0, 1), (0, 0))];
    for ((s1, f1), (s2, f2)) in pairs {
        assert!(compare_health(s1, f1, s2, f2) <= 0);
    }
}
