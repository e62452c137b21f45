//! Configuration and per-proxy health records.

use vstd::prelude::*;

verus! {

/// Health status of one proxy.
#[derive(Debug, Clone, Copy, PartialEq, Eq, Structural)]
pub enum ProxyStatus {
    Unknown,
    Healthy,
    Dead,
}

impl Default for ProxyStatus {
    fn default() -> (r: Self)
        ensures
            r == ProxyStatus::Unknown,
    {
        ProxyStatus::Unknown
    }
}

/// Run-time state of one proxy.
#[derive(Debug, Clone)]
pub struct ProxyState {
    pub url: String,
    pub status: ProxyStatus,
    pub latency_ms: Option<u64>,
    pub last_checked: Option<String>,
    pub consecutive_failures: u32,
    pub total_successes: u64,
    pub total_failures: u64,
    pub dead_until: Option<String>,
}

/// A copy of an optional string.
pub fn clone_opt_string(o: &Option<String>) -> (r: Option<String>)
    ensures
        r == *o,
{
    match o {
        Some(s) => Some(s.clone()),
        None => None,
    }
}

impl ProxyState {
    /// A fresh record for `url`: status unknown, no measurements, no counts.
    pub fn new(url: &str) -> (r: Self)
        ensures
            r.url@ == url@,
            r.status == ProxyStatus::Unknown,
            r.latency_ms.is_none(),
            r.last_checked.is_none(),
            r.consecutive_failures == 0,
            r.total_successes == 0,
            r.total_failures == 0,
            r.dead_until.is_none(),
    {
        ProxyState {
            url: String::from_str(url),
            status: ProxyStatus::Unknown,
            latency_ms: None,
            last_checked: None,
            consecutive_failures: 0,
            total_successes: 0,
            total_failures: 0,
            dead_until: None,
        }
    }

    /// A field-by-field copy of this record.
    pub fn duplicate(&self) -> (r: Self)
        ensures
            r == *self,
    {
        ProxyState {
            url: self.url.clone(),
            status: self.status,
            latency_ms: self.latency_ms,
            last_checked: clone_opt_string(&self.last_checked),
            consecutive_failures: self.consecutive_failures,
            total_successes: self.total_successes,
            total_failures: self.total_failures,
            dead_until: clone_opt_string(&self.dead_until),
        }
    }
}

/// The health score of a proxy is the fraction `successes / (successes + 2 *
/// failures)`, a failure weighing twice a success; with no history it is
/// one half. `score_num` and `score_den` are that fraction's terms.
pub open spec fn score_num(successes: u64, failures: u64) -> int {
    if successes + failures == 0 {
        1
    } else {
        successes as int
    }
}

/// Denominator of the health score (always positive).
pub open spec fn score_den(successes: u64, failures: u64) -> int {
    if successes + failures == 0 {
        2
    } else {
        successes + 2 * failures
    }
}

/// The record `(sa, fa)` has a strictly higher health score than `(sb, fb)`.
pub open spec fn scores_higher(sa: u64, fa: u64, sb: u64, fb: u64) -> bool {
    score_num(sa, fa) * score_den(sb, fb) > score_num(sb, fb) * score_den(sa, fa)
}

/// The records `(sa, fa)` and `(sb, fb)` have the same health score.
pub open spec fn scores_equal(sa: u64, fa: u64, sb: u64, fb: u64) -> bool {
    score_num(sa, fa) * score_den(sb, fb) == score_num(sb, fb) * score_den(sa, fa)
}

/// `a` has a strictly higher health score than `b`.
pub open spec fn healthier(a: ProxyState, b: ProxyState) -> bool {
    scores_higher(a.total_successes, a.total_failures, b.total_successes, b.total_failures)
}

/// `a` and `b` have the same health score.
pub open spec fn equally_healthy(a: ProxyState, b: ProxyState) -> bool {
    scores_equal(a.total_successes, a.total_failures, b.total_successes, b.total_failures)
}

/// A health score lies between 0 and 1, and a proxy with no history scores
/// exactly one half.
pub proof fn lemma_score_range(successes: u64, failures: u64)
    ensures
        score_den(successes, failures) > 0,
        0 <= score_num(successes, failures) <= score_den(successes, failures),
        successes + failures == 0 ==> 2 * score_num(successes, failures) == score_den(
            successes,
            failures,
        ),
        failures == 0 && successes > 0 ==> score_num(successes, failures) == score_den(
            successes,
            failures,
        ),
        successes == 0 && failures > 0 ==> score_num(successes, failures) == 0,
{
}

/// More successes and fewer failures never lower the health score: a
/// record with at most the successes and at least the failures of another
/// does not score higher than it.
pub proof fn lemma_score_monotone(s1: u64, f1: u64, s2: u64, f2: u64)
    requires
        s1 <= s2,
        f2 <= f1,
    ensures
        !scores_higher(s1, f1, s2, f2),
{
    if s1 + f1 != 0 && s2 + f2 != 0 {
        let (a, b, c, d) = (s1 as int, f1 as int, s2 as int, f2 as int);
        assert(a * (c + 2 * d) <= c * (a + 2 * b)) by (nonlinear_arith)
            requires
                0 <= a <= c,
                0 <= d <= b,
        ;
    }
}

/// Health scores are ordered totally and transitively.
pub proof fn lemma_health_order(sa: u64, fa: u64, sb: u64, fb: u64, sc: u64, fc: u64)
    ensures
        scores_higher(sa, fa, sb, fb) || scores_equal(sa, fa, sb, fb) || scores_higher(sb, fb, sa, fa),
        !(scores_higher(sa, fa, sb, fb) && scores_higher(sb, fb, sa, fa)),
        !(scores_higher(sa, fa, sb, fb) && scores_equal(sa, fa, sb, fb)),
        scores_equal(sa, fa, sb, fb) == scores_equal(sb, fb, sa, fa),
        scores_higher(sa, fa, sb, fb) && scores_higher(sb, fb, sc, fc) ==> scores_higher(sa, fa, sc, fc),
        scores_higher(sa, fa, sb, fb) && scores_equal(sb, fb, sc, fc) ==> scores_higher(sa, fa, sc, fc),
        scores_equal(sa, fa, sb, fb) && scores_higher(sb, fb, sc, fc) ==> scores_higher(sa, fa, sc, fc),
        scores_equal(sa, fa, sb, fb) && scores_equal(sb, fb, sc, fc) ==> scores_equal(sa, fa, sc, fc),
{
    let (na, da) = (score_num(sa, fa), score_den(sa, fa));
    let (nb, db) = (score_num(sb, fb), score_den(sb, fb));
    let (nc, dc) = (score_num(sc, fc), score_den(sc, fc));
    assert(da > 0 && db > 0 && dc > 0);
    lemma_cross_order(na, da, nb, db, nc, dc);
}

proof fn lemma_cross_order(na: int, da: int, nb: int, db: int, nc: int, dc: int)
    requires
        da > 0,
        db > 0,
        dc > 0,
    ensures
        na * db > nb * da && nb * dc > nc * db ==> na * dc > nc * da,
        na * db > nb * da && nb * dc == nc * db ==> na * dc > nc * da,
        na * db == nb * da && nb * dc > nc * db ==> na * dc > nc * da,
        na * db == nb * da && nb * dc == nc * db ==> na * dc == nc * da,
{
    if na * db > nb * da && nb * dc > nc * db {
        assert(na * db * dc > nb * da * dc) by (nonlinear_arith)
            requires
                na * db > nb * da,
                dc > 0,
        ;
        assert(nb * dc * da > nc * db * da) by (nonlinear_arith)
            requires
                nb * dc > nc * db,
                da > 0,
        ;
        assert(na * dc * db > nc * da * db) by (nonlinear_arith)
            requires
                na * db * dc > nb * da * dc,
                nb * dc * da > nc * db * da,
        ;
        assert(na * dc > nc * da) by (nonlinear_arith)
            requires
                na * dc * db > nc * da * db,
                db > 0,
        ;
    }
    if na * db > nb * da && nb * dc == nc * db {
        assert(na * db * dc > nb * da * dc) by (nonlinear_arith)
            requires
                na * db > nb * da,
                dc > 0,
        ;
        assert(nb * dc * da == nc * db * da) by (nonlinear_arith)
            requires
                nb * dc == nc * db,
        ;
        assert(na * dc * db > nc * da * db) by (nonlinear_arith)
            requires
                na * db * dc > nb * da * dc,
                nb * dc * da == nc * db * da,
        ;
        assert(na * dc > nc * da) by (nonlinear_arith)
            requires
                na * dc * db > nc * da * db,
                db > 0,
        ;
    }
    if na * db == nb * da && nb * dc > nc * db {
        assert(na * db * dc == nb * da * dc) by (nonlinear_arith)
            requires
                na * db == nb * da,
        ;
        assert(nb * dc * da > nc * db * da) by (nonlinear_arith)
            requires
                nb * dc > nc * db,
                da > 0,
        ;
        assert(na * dc * db > nc * da * db) by (nonlinear_arith)
            requires
                na * db * dc == nb * da * dc,
                nb * dc * da > nc * db * da,
        ;
        assert(na * dc > nc * da) by (nonlinear_arith)
            requires
                na * dc * db > nc * da * db,
                db > 0,
        ;
    }
    if na * db == nb * da && nb * dc == nc * db {
        assert(na * db * dc == nb * da * dc) by (nonlinear_arith)
            requires
                na * db == nb * da,
        ;
        assert(nb * dc * da == nc * db * da) by (nonlinear_arith)
            requires
                nb * dc == nc * db,
        ;
        assert(na * dc * db == nc * da * db) by (nonlinear_arith)
            requires
                na * db * dc == nb * da * dc,
                nb * dc * da == nc * db * da,
        ;
        assert(na * dc == nc * da) by (nonlinear_arith)
            requires
                na * dc * db == nc * da * db,
                db > 0,
        ;
    }
}

/// Compares two health scores exactly, given the success and failure counts
/// behind them: positive when the first scores higher, zero on a tie,
/// negative when the second scores higher.
pub fn compare_health(a_successes: u64, a_failures: u64, b_successes: u64, b_failures: u64) -> (r: i8)
    ensures
        r > 0 <==> scores_higher(a_successes, a_failures, b_successes, b_failures),
        r == 0 <==> scores_equal(a_successes, a_failures, b_successes, b_failures),
        r < 0 <==> scores_higher(b_successes, b_failures, a_successes, a_failures),
{
    proof {
        lemma_health_order(a_successes, a_failures, b_successes, b_failures, 0, 0);
    }
    let sa = a_successes as u128;
    let fa = a_failures as u128;
    let sb = b_successes as u128;
    let fb = b_failures as u128;
    let a_empty = a_successes == 0 && a_failures == 0;
    let b_empty = b_successes == 0 && b_failures == 0;
    // Compare na * db with nb * da without overflow.
    let (lhs, rhs): (u128, u128) = if a_empty && b_empty {
        (0, 0)
    } else if a_empty {
        // 1 * (sb + 2 fb) vs sb * 2  <=>  2 fb vs sb
        (2 * fb, sb)
    } else if b_empty {
        // sa * 2 vs 1 * (sa + 2 fa)  <=>  sa vs 2 fa
        (sa, 2 * fa)
    } else {
        // sa (sb + 2 fb) vs sb (sa + 2 fa)  <=>  sa fb vs sb fa
        assert(sa * fb <= u64::MAX * u64::MAX) by (nonlinear_arith)
            requires
                sa <= u64::MAX,
                fb <= u64::MAX,
        ;
        assert(sb * fa <= u64::MAX * u64::MAX) by (nonlinear_arith)
            requires
                sb <= u64::MAX,
                fa <= u64::MAX,
        ;
        (sa * fb, sb * fa)
    };
    proof {
        let na = score_num(a_successes, a_failures);
        let da = score_den(a_successes, a_failures);
        let nb = score_num(b_successes, b_failures);
        let db = score_den(b_successes, b_failures);
        if !a_empty && !b_empty {
            assert(na * db - nb * da == 2 * (sa * fb - sb * fa)) by (nonlinear_arith)
                requires
                    na == sa,
                    da == sa + 2 * fa,
                    nb == sb,
                    db == sb + 2 * fb,
            ;
        }
    }
    if lhs > rhs {
        1
    } else if lhs == rhs {
        0
    } else {
        -1
    }
}

/// Settings of the health bookkeeping.
#[derive(Debug, Clone)]
pub struct HealthConfig {
    pub max_consecutive_failures: u32,
    pub cooldown_seconds: u64,
    pub fallback_count: usize,
}

/// Default number of consecutive failures after which a cooldown starts.
pub fn default_max_fails() -> (r: u32)
    ensures
        r == 3,
{
    3
}

/// Default cooldown, in seconds.
pub fn default_cooldown() -> (r: u64)
    ensures
        r == 300,
{
    300
}

/// Default number of fallback proxies.
pub fn default_fallback() -> (r: usize)
    ensures
        r == 3,
{
    3
}

impl Default for HealthConfig {
    fn default() -> (r: Self)
        ensures
            r.max_consecutive_failures == 3,
            r.cooldown_seconds == 300,
            r.fallback_count == 3,
    {
        HealthConfig {
            max_consecutive_failures: default_max_fails(),
            cooldown_seconds: default_cooldown(),
            fallback_count: default_fallback(),
        }
    }
}

/// User configuration.
#[derive(Debug, Clone)]
pub struct Config {
    pub custom_proxies: Vec<String>,
    pub health: HealthConfig,
}

impl Default for Config {
    fn default() -> (r: Self)
        ensures
            r.custom_proxies@.len() == 0,
            r.health.max_consecutive_failures == 3,
            r.health.cooldown_seconds == 300,
            r.health.fallback_count == 3,
    {
        Config { custom_proxies: Vec::new(), health: HealthConfig::default() }
    }
}

/// Whether `url` occurs in `list`.
pub fn contains_url(list: &Vec<String>, url: &str) -> (r: bool)
    ensures
        r == list.deep_view().contains(url@),
{
    let u = String::from_str(url);
    let mut i: usize = 0;
    while i < list.len()
        invariant
            0 <= i <= list.len(),
            u@ == url@,
            forall|j: int| 0 <= j < i ==> list.deep_view()[j] != url@,
        decreases list.len() - i,
    {
        if list[i] == u {
            assert(list.deep_view()[i as int] == url@);
            return true;
        }
        i += 1;
    }
    false
}

/// `list` without every element equal to `url`, others in order.
pub open spec fn without(list: Seq<Seq<char>>, url: Seq<char>) -> Seq<Seq<char>> {
    list.filter(|u: Seq<char>| u != url)
}

/// Removes every element equal to `url`, keeping the others in order
/// (`Vec::retain`).
pub fn remove_url(list: &mut Vec<String>, url: &str)
    ensures
        final(list).deep_view() == without(old(list).deep_view(), url@),
{
    let ghost orig = list.deep_view();
    let u = String::from_str(url);
    let mut kept: Vec<String> = Vec::new();
    let mut rest: Vec<String> = Vec::new();
    std::mem::swap(&mut rest, list);
    let n = rest.len();
    let mut i: usize = 0;
    assert(orig.take(0) =~= Seq::<Seq<char>>::empty());
    while i < n
        invariant
            n == rest.len(),
            0 <= i <= n,
            u@ == url@,
            rest.deep_view() == orig,
            kept.deep_view() == without(orig.take(i as int), url@),
        decreases n - i,
    {
        proof {
            reveal_with_fuel(Seq::filter, 1);
            assert(orig.take(i + 1).drop_last() =~= orig.take(i as int));
        }
        if rest[i] != u {
            kept.push(rest[i].clone());
            assert(kept.deep_view() =~= without(orig.take(i as int), url@).push(orig[i as int]));
        }
        i += 1;
    }
    assert(orig.take(n as int) =~= orig);
    *list = kept;
}

impl Config {
    /// Adds `url` to the custom proxies unless it is there already; says
    /// whether the list changed (and so needs saving).
    pub fn add_custom_proxy(&mut self, url: &str) -> (changed: bool)
        ensures
            changed == !old(self).custom_proxies.deep_view().contains(url@),
            final(self).custom_proxies.deep_view() == if changed {
                old(self).custom_proxies.deep_view().push(url@)
            } else {
                old(self).custom_proxies.deep_view()
            },
            final(self).health == old(self).health,
    {
        if contains_url(&self.custom_proxies, url) {
            false
        } else {
            self.custom_proxies.push(String::from_str(url));
            assert(self.custom_proxies.deep_view() =~= old(self).custom_proxies.deep_view().push(
                url@,
            ));
            true
        }
    }

    /// Removes every occurrence of `url` from the custom proxies.
    pub fn remove_custom_proxy(&mut self, url: &str)
        ensures
            final(self).custom_proxies.deep_view() == without(
                old(self).custom_proxies.deep_view(),
                url@,
            ),
            final(self).health == old(self).health,
    {
        remove_url(&mut self.custom_proxies, url);
    }
}

/// Persisted proxy states.
#[derive(Debug, Clone)]
pub struct ProxyStateStore {
    pub proxies: Vec<ProxyState>,
}

} // verus!
