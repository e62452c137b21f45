//! The proxy pool: which proxies exist, their health records, and the
//! choices made from them.

use vstd::prelude::*;
use crate::clock::{
    deadline, deadline_after, display_datetime, earlier, format_datetime, is_earlier, parse_datetime,
    representable, spec_display_datetime, spec_format_datetime, spec_parse_datetime, Moment,
};
use crate::config::{
    clone_opt_string, compare_health, contains_url, lemma_health_order, lemma_score_monotone,
    remove_url, scores_equal,
    scores_higher, without, Config, ProxyState, ProxyStateStore, ProxyStatus,
};
use crate::text::concat;
use crate::sorting::{
    in_order, is_stable_order, lemma_stable_order_distinct, lemma_stable_order_of,
    lemma_stable_order_unique, stable_order, stable_order_of, Ranked,
};

verus! {

/// The built-in proxy prefixes, in order.
pub open spec fn builtin_proxy_urls() -> Seq<Seq<char>> {
    seq![
        "https://777.z321.cc.cd/"@,
        "https://cdn.akaere.online/"@,
        "https://cdn.gh-proxy.com/"@,
        "https://cdn.gh-proxy.org/"@,
        "https://down.mxw.qzz.io/"@,
        "https://down.mxw.xx.kg/"@,
        "https://fastgit.cc/"@,
        "https://free.cn.eu.org/"@,
        "https://g.blfrp.cn/"@,
        "https://g.z321.cc.cd/"@,
        "https://gg.z321.cc.cd/"@,
        "https://gh-proxy.com/"@,
        "https://gh-proxy.net/"@,
        "https://gh-proxy.org/"@,
        "https://gh.927223.xyz/"@,
        "https://gh.acmsz.top/"@,
        "https://gh.b52m.cn/"@,
        "https://gh.bugdey.us.kg/"@,
        "https://gh.catmak.name/"@,
        "https://gh.chjina.com/"@,
        "https://gh.ddlc.top/"@,
        "https://gh.dpik.top/"@,
        "https://gh.felicity.ac.cn/"@,
        "https://gh.h233.eu.org/"@,
        "https://gh.idayer.com/"@,
        "https://gh.inkchills.cn/"@,
        "https://gh.jasonzeng.dev/"@,
        "https://gh.jjj.gv.uy/"@,
        "https://gh.llkk.cc/"@,
        "https://gh.meali.top/"@,
        "https://gh.monlor.com/"@,
        "https://gh.noki.icu/"@,
        "https://gh.sixyin.com/"@,
        "https://gh.tryxd.cn/"@,
        "https://gh.zwy.one/"@,
        "https://ghf.xn--6qq986b.top/"@,
        "https://ghfast.top/"@,
        "https://ghfile.geekertao.top/"@,
        "https://ghm.078465.xyz/"@,
        "https://ghp.arslantu.xyz/"@,
        "https://ghp.keleyaa.com/"@,
        "https://ghpr.cc/"@,
        "https://ghproxy.1888866.xyz/"@,
        "https://ghproxy.cxkpro.top/"@,
        "https://ghproxy.imciel.com/"@,
        "https://ghproxy.monkeyray.net/"@,
        "https://ghproxy.net/"@,
        "https://ghpxy.hwinzniej.top/"@,
        "https://git.669966.xyz/"@,
        "https://git.yylx.win/"@,
        "https://github-proxy.memory-echoes.cn/"@,
        "https://github.akams.cn/"@,
        "https://github.chenc.dev/"@,
        "https://github.dpik.top/"@,
        "https://github.ednovas.xyz/"@,
        "https://github.geekery.cn/"@,
        "https://github.mxw.qzz.io/"@,
        "https://github.starrlzy.cn/"@,
        "https://github.tbedu.top/"@,
        "https://github.tmby.shop/"@,
        "https://github.xxlab.tech/"@,
        "https://githubdog.com/"@,
        "https://gitproxy.127731.xyz/"@,
        "https://gitproxy.click/"@,
        "https://gitproxy.mrhjx.cn/"@,
        "https://gp.zkitefly.eu.org/"@,
        "https://j.1lin.dpdns.org/"@,
        "https://j.1win.ggff.net/"@,
        "https://jiashu.1win.eu.org/"@,
        "https://mirror.ghproxy.com/"@,
        "https://proxy.yaoyaoling.net/"@,
        "https://slink.ltd/"@,
        "https://tvv.tw/"@,
        "https://v4.gh-proxy.org/"@,
        "https://v6.gh-proxy.org/"@,
    ]
}

/// The built-in proxy prefixes, in order.
pub fn builtin_proxies() -> (r: Vec<String>)
    ensures
        r.deep_view() == builtin_proxy_urls(),
{
    let lits: Vec<&str> = vec![
        "https://777.z321.cc.cd/",
        "https://cdn.akaere.online/",
        "https://cdn.gh-proxy.com/",
        "https://cdn.gh-proxy.org/",
        "https://down.mxw.qzz.io/",
        "https://down.mxw.xx.kg/",
        "https://fastgit.cc/",
        "https://free.cn.eu.org/",
        "https://g.blfrp.cn/",
        "https://g.z321.cc.cd/",
        "https://gg.z321.cc.cd/",
        "https://gh-proxy.com/",
        "https://gh-proxy.net/",
        "https://gh-proxy.org/",
        "https://gh.927223.xyz/",
        "https://gh.acmsz.top/",
        "https://gh.b52m.cn/",
        "https://gh.bugdey.us.kg/",
        "https://gh.catmak.name/",
        "https://gh.chjina.com/",
        "https://gh.ddlc.top/",
        "https://gh.dpik.top/",
        "https://gh.felicity.ac.cn/",
        "https://gh.h233.eu.org/",
        "https://gh.idayer.com/",
        "https://gh.inkchills.cn/",
        "https://gh.jasonzeng.dev/",
        "https://gh.jjj.gv.uy/",
        "https://gh.llkk.cc/",
        "https://gh.meali.top/",
        "https://gh.monlor.com/",
        "https://gh.noki.icu/",
        "https://gh.sixyin.com/",
        "https://gh.tryxd.cn/",
        "https://gh.zwy.one/",
        "https://ghf.xn--6qq986b.top/",
        "https://ghfast.top/",
        "https://ghfile.geekertao.top/",
        "https://ghm.078465.xyz/",
        "https://ghp.arslantu.xyz/",
        "https://ghp.keleyaa.com/",
        "https://ghpr.cc/",
        "https://ghproxy.1888866.xyz/",
        "https://ghproxy.cxkpro.top/",
        "https://ghproxy.imciel.com/",
        "https://ghproxy.monkeyray.net/",
        "https://ghproxy.net/",
        "https://ghpxy.hwinzniej.top/",
        "https://git.669966.xyz/",
        "https://git.yylx.win/",
        "https://github-proxy.memory-echoes.cn/",
        "https://github.akams.cn/",
        "https://github.chenc.dev/",
        "https://github.dpik.top/",
        "https://github.ednovas.xyz/",
        "https://github.geekery.cn/",
        "https://github.mxw.qzz.io/",
        "https://github.starrlzy.cn/",
        "https://github.tbedu.top/",
        "https://github.tmby.shop/",
        "https://github.xxlab.tech/",
        "https://githubdog.com/",
        "https://gitproxy.127731.xyz/",
        "https://gitproxy.click/",
        "https://gitproxy.mrhjx.cn/",
        "https://gp.zkitefly.eu.org/",
        "https://j.1lin.dpdns.org/",
        "https://j.1win.ggff.net/",
        "https://jiashu.1win.eu.org/",
        "https://mirror.ghproxy.com/",
        "https://proxy.yaoyaoling.net/",
        "https://slink.ltd/",
        "https://tvv.tw/",
        "https://v4.gh-proxy.org/",
        "https://v6.gh-proxy.org/",
    ];
    let ghost want = builtin_proxy_urls();
    assert(lits@.len() == want.len());
    let mut r: Vec<String> = Vec::new();
    let mut i: usize = 0;
    while i < lits.len()
        invariant
            0 <= i <= lits.len(),
            want == builtin_proxy_urls(),
            lits@.len() == want.len(),
            forall|j: int| 0 <= j < lits@.len() ==> #[trigger] lits@[j]@ == want[j],
            r.deep_view() == want.take(i as int),
        decreases lits.len() - i,
    {
        let ghost prev = r.deep_view();
        let u = String::from_str(lits[i]);
        assert(u@ == want[i as int]);
        r.push(u);
        assert(r.deep_view() =~= prev.push(u@));
        assert(r.deep_view() =~= want.take(i + 1));
        i += 1;
    }
    assert(want.take(lits.len() as int) =~= want);
    r
}


/// Every builtin prefix not yet listed is appended, in order, after the
/// user's own proxies (which are kept as given).
pub open spec fn merge_urls(custom: Seq<Seq<char>>, builtin: Seq<Seq<char>>) -> Seq<Seq<char>>
    decreases builtin.len(),
{
    if builtin.len() == 0 {
        custom
    } else {
        let r = merge_urls(custom, builtin.drop_last());
        if r.contains(builtin.last()) {
            r
        } else {
            r.push(builtin.last())
        }
    }
}

/// The user's proxies followed by the builtin ones that they do not list.
pub fn merge_proxy_urls(custom: &Vec<String>, builtin: &Vec<String>) -> (r: Vec<String>)
    ensures
        r.deep_view() == merge_urls(custom.deep_view(), builtin.deep_view()),
{
    let mut r: Vec<String> = Vec::new();
    let mut i: usize = 0;
    while i < custom.len()
        invariant
            0 <= i <= custom.len(),
            r.deep_view() == custom.deep_view().take(i as int),
        decreases custom.len() - i,
    {
        let ghost prev = r.deep_view();
        r.push(custom[i].clone());
        assert(r.deep_view() =~= prev.push(custom.deep_view()[i as int]));
        assert(r.deep_view() =~= custom.deep_view().take(i + 1));
        i += 1;
    }
    assert(custom.deep_view().take(custom.len() as int) =~= custom.deep_view());
    let mut k: usize = 0;
    while k < builtin.len()
        invariant
            0 <= k <= builtin.len(),
            r.deep_view() == merge_urls(custom.deep_view(), builtin.deep_view().take(k as int)),
        decreases builtin.len() - k,
    {
        let ghost prev = r.deep_view();
        assert(builtin.deep_view().take(k + 1).drop_last() =~= builtin.deep_view().take(k as int));
        if !contains_url(&r, builtin[k].as_str()) {
            r.push(builtin[k].clone());
            assert(r.deep_view() =~= prev.push(builtin.deep_view()[k as int]));
        }
        k += 1;
    }
    assert(builtin.deep_view().take(builtin.len() as int) =~= builtin.deep_view());
    r
}

/// No two states are recorded for the same url.
pub open spec fn distinct_urls(states: Seq<ProxyState>) -> bool {
    forall|i: int, j: int| 0 <= i < j < states.len() ==> states[i].url@ != states[j].url@
}

/// Some state is recorded for `url`.
pub open spec fn has_url(states: Seq<ProxyState>, url: Seq<char>) -> bool {
    exists|i: int| 0 <= i < states.len() && #[trigger] states[i].url@ == url
}

/// The position of the state recorded for `url`, if any.
pub open spec fn index_of(states: Seq<ProxyState>, url: Seq<char>) -> Option<int> {
    if has_url(states, url) {
        Some(choose|i: int| 0 <= i < states.len() && #[trigger] states[i].url@ == url)
    } else {
        None
    }
}

/// With distinct urls, the state recorded for a url is the one at its position.
pub proof fn lemma_index_of(states: Seq<ProxyState>, k: int)
    requires
        distinct_urls(states),
        0 <= k < states.len(),
    ensures
        index_of(states, states[k].url@) == Some(k),
{
    assert(has_url(states, states[k].url@));
    let i = choose|i: int| 0 <= i < states.len() && #[trigger] states[i].url@ == states[k].url@;
    if i < k {
        assert(states[i].url@ != states[k].url@);
    } else if i > k {
        assert(states[k].url@ != states[i].url@);
    }
}

/// Finds the state recorded for `url`.
pub fn position_of(states: &Vec<ProxyState>, url: &str) -> (r: Option<usize>)
    requires
        distinct_urls(states@),
    ensures
        r matches Some(i) ==> index_of(states@, url@) == Some(i as int),
        r is None ==> index_of(states@, url@) is None,
{
    let u = String::from_str(url);
    let mut i: usize = 0;
    while i < states.len()
        invariant
            0 <= i <= states.len(),
            u@ == url@,
            distinct_urls(states@),
            forall|j: int| 0 <= j < i ==> states@[j].url@ != url@,
        decreases states.len() - i,
    {
        if states[i].url == u {
            proof {
                lemma_index_of(states@, i as int);
            }
            return Some(i);
        }
        i += 1;
    }
    None
}

/// The states with a later duplicate of an earlier url dropped.
pub open spec fn dedup_states(s: Seq<ProxyState>) -> Seq<ProxyState>
    decreases s.len(),
{
    if s.len() == 0 {
        Seq::empty()
    } else {
        let r = dedup_states(s.drop_last());
        if has_url(r, s.last().url@) {
            r
        } else {
            r.push(s.last())
        }
    }
}

/// `s` is what `ProxyState::new(url)` gives.
pub open spec fn fresh_record(s: ProxyState, url: Seq<char>) -> bool {
    &&& s.url@ == url
    &&& s.status == ProxyStatus::Unknown
    &&& s.latency_ms.is_none()
    &&& s.last_checked.is_none()
    &&& s.consecutive_failures == 0
    &&& s.total_successes == 0
    &&& s.total_failures == 0
    &&& s.dead_until.is_none()
}

/// `new` equals `old` but at position `i`.
pub open spec fn same_except(old: Seq<ProxyState>, new: Seq<ProxyState>, i: int) -> bool {
    &&& new.len() == old.len()
    &&& 0 <= i < old.len()
    &&& forall|j: int| 0 <= j < old.len() && j != i ==> #[trigger] new[j] == old[j]
}

/// The record of `url`, if any, can count one more failure without overflow.
pub open spec fn failures_fit(states: Seq<ProxyState>, url: Seq<char>) -> bool {
    match index_of(states, url) {
        Some(i) => states[i].consecutive_failures < u32::MAX && states[i].total_failures < u64::MAX,
        None => true,
    }
}

/// The record of `url`, if any, can count one more success without overflow.
pub open spec fn successes_fit(states: Seq<ProxyState>, url: Seq<char>) -> bool {
    match index_of(states, url) {
        Some(i) => states[i].total_successes < u64::MAX,
        None => true,
    }
}

/// `new` is `old` after a probe at `checked_at`.
pub open spec fn probed(
    old: ProxyState,
    new: ProxyState,
    latency_ms: Option<u64>,
    ok: bool,
    checked_at: Seq<char>,
) -> bool {
    &&& new.url == old.url
    &&& new.last_checked matches Some(t) && t@ == checked_at
    &&& new.latency_ms == latency_ms
    &&& new.status == (if ok {
        ProxyStatus::Healthy
    } else {
        ProxyStatus::Dead
    })
    &&& new.consecutive_failures == (if ok {
        0
    } else {
        old.consecutive_failures + 1
    })
    &&& new.total_failures == (if ok {
        old.total_failures as int
    } else {
        old.total_failures + 1
    })
    &&& new.total_successes == old.total_successes
    &&& new.dead_until == old.dead_until
}

/// `new` is `old` after a success.
pub open spec fn succeeded(old: ProxyState, new: ProxyState) -> bool {
    &&& new.url == old.url
    &&& new.status == ProxyStatus::Healthy
    &&& new.consecutive_failures == 0
    &&& new.total_successes == old.total_successes + 1
    &&& new.total_failures == old.total_failures
    &&& new.latency_ms == old.latency_ms
    &&& new.last_checked == old.last_checked
    &&& new.dead_until == old.dead_until
}

/// `new` is `old` after a reset.
pub open spec fn was_reset(old: ProxyState, new: ProxyState) -> bool {
    &&& new.url == old.url
    &&& new.status == ProxyStatus::Unknown
    &&& new.consecutive_failures == 0
    &&& new.dead_until.is_none()
    &&& new.total_successes == old.total_successes
    &&& new.total_failures == old.total_failures
    &&& new.latency_ms == old.latency_ms
    &&& new.last_checked == old.last_checked
}

/// `new` is `old` after a failure at `now`, with `max_fails` failures in a
/// row starting a cooldown of `cooldown` seconds.
pub open spec fn failed(old: ProxyState, new: ProxyState, max_fails: u32, cooldown: u64, now: Moment) -> bool {
    &&& new.url == old.url
    &&& new.status == ProxyStatus::Dead
    &&& new.consecutive_failures == old.consecutive_failures + 1
    &&& new.total_failures == old.total_failures + 1
    &&& new.total_successes == old.total_successes
    &&& new.latency_ms == old.latency_ms
    &&& new.last_checked == old.last_checked
    &&& if old.consecutive_failures + 1 >= max_fails {
        &&& deadline_after(now, cooldown) matches Some(d)
        &&& new.dead_until matches Some(t)
        &&& t@ == spec_format_datetime(d.secs, d.nanos)
        &&& spec_parse_datetime(t@) == Some((d.secs, d.nanos))
    } else {
        new.dead_until == old.dead_until
    }
}

/// What recording a failure of `url` at `now` does: `done` is false exactly
/// when the cooldown deadline is due and cannot be computed, and then
/// nothing changed. Once the failures in a row reach `max_fails`, the proxy
/// rests until the deadline `now + cooldown` and is usable again from then
/// on.
pub open spec fn failure_recorded(
    old: Seq<ProxyState>,
    new: Seq<ProxyState>,
    url: Seq<char>,
    max_fails: u32,
    cooldown: u64,
    now: Moment,
    done: bool,
) -> bool {
    match index_of(old, url) {
        Some(i) => {
            &&& done == !(old[i].consecutive_failures + 1 >= max_fails && deadline_after(
                now,
                cooldown,
            ) is None)
            &&& done ==> same_except(old, new, i) && failed(old[i], new[i], max_fails, cooldown, now)
            &&& !done ==> new == old
            &&& done && old[i].consecutive_failures + 1 >= max_fails ==> forall|later: Moment|
                #[trigger] available(new[i], later) == !earlier(later, deadline_after(now, cooldown)->0)
        },
        None => done && new == old,
    }
}

/// What recording a success of `url` does: the record of `url`, if any,
/// counts one more success and is healthy; the others are unchanged.
pub open spec fn success_recorded(old: Seq<ProxyState>, new: Seq<ProxyState>, url: Seq<char>) -> bool {
    match index_of(old, url) {
        Some(i) => same_except(old, new, i) && succeeded(old[i], new[i]),
        None => new == old,
    }
}

/// A failure of `url` at `now` can be recorded: where it starts a cooldown,
/// the deadline `now + cooldown` lies within what `chrono` computes.
pub open spec fn deadline_computable(
    states: Seq<ProxyState>,
    url: Seq<char>,
    max_fails: u32,
    cooldown: u64,
    now: Moment,
) -> bool {
    match index_of(states, url) {
        Some(i) => states[i].consecutive_failures + 1 >= max_fails ==> deadline_after(now, cooldown) is Some,
        None => true,
    }
}

/// Whether a proxy may be used at `now`: any proxy not marked dead, and a
/// dead one whose cooldown deadline parses and is not after `now`.
pub open spec fn available(s: ProxyState, now: Moment) -> bool {
    ||| s.status != ProxyStatus::Dead
    ||| s.dead_until matches Some(t) && spec_parse_datetime(t@) matches Some(p) && !earlier(
        now,
        Moment { secs: p.0, nanos: p.1 },
    )
}

/// Whether `s` may be used at `now` (see `available`).
pub fn is_available_at(s: &ProxyState, now: Moment) -> (r: bool)
    ensures
        r == available(*s, now),
{
    if s.status != ProxyStatus::Dead {
        return true;
    }
    match &s.dead_until {
        Some(until) => match parse_datetime(until.as_str()) {
            Some(t) => !is_earlier(now, t),
            None => false,
        },
        None => false,
    }
}

/// The ranking of healthy proxies: higher health score first, then lower
/// latency (unmeasured counting as the largest).
#[derive(Debug, Clone, Copy)]
pub struct HealthKey {
    pub successes: u64,
    pub failures: u64,
    pub latency: u64,
}

/// The latency by which proxies are ordered: unmeasured ones last.
pub open spec fn latency_rank(latency_ms: Option<u64>) -> u64 {
    match latency_ms {
        Some(ms) => ms,
        None => u64::MAX,
    }
}

/// The ranking key of a record.
pub open spec fn health_key(s: ProxyState) -> HealthKey {
    HealthKey {
        successes: s.total_successes,
        failures: s.total_failures,
        latency: latency_rank(s.latency_ms),
    }
}

impl Ranked for HealthKey {
    open spec fn ranks_no_later(self, other: Self) -> bool {
        ||| scores_higher(self.successes, self.failures, other.successes, other.failures)
        ||| scores_equal(self.successes, self.failures, other.successes, other.failures)
            && self.latency <= other.latency
    }

    proof fn lemma_total(a: Self, b: Self) {
        lemma_health_order(a.successes, a.failures, b.successes, b.failures, 0, 0);
    }

    proof fn lemma_transitive(a: Self, b: Self, c: Self) {
        lemma_health_order(a.successes, a.failures, b.successes, b.failures, c.successes, c.failures);
    }

    fn ranks_no_later_exec(&self, other: &Self) -> (r: bool) {
        let c = compare_health(self.successes, self.failures, other.successes, other.failures);
        c > 0 || (c == 0 && self.latency <= other.latency)
    }
}

/// The ranking keys of the records.
pub open spec fn health_keys(states: Seq<ProxyState>) -> Seq<HealthKey> {
    states.map_values(|s: ProxyState| health_key(s))
}

/// Which records may be used at `now`.
pub open spec fn available_mask(states: Seq<ProxyState>, now: Moment) -> Seq<bool> {
    states.map_values(|s: ProxyState| available(s, now))
}

/// The positions of the usable records at `now`, best first; ties keep the
/// records' order.
pub open spec fn healthy_order(states: Seq<ProxyState>, now: Moment) -> Seq<usize> {
    stable_order_of(health_keys(states), available_mask(states, now))
}

/// The usable records at `now`, best first.
pub open spec fn sorted_healthy(states: Seq<ProxyState>, now: Moment) -> Seq<ProxyState> {
    healthy_order(states, now).map_values(|i: usize| states[i as int])
}

/// The urls of the usable records at `now`, best first.
pub open spec fn sorted_healthy_urls(states: Seq<ProxyState>, now: Moment) -> Seq<Seq<char>> {
    sorted_healthy(states, now).map_values(|s: ProxyState| s.url@)
}

/// `r` is the url of the best usable record at `now`, if there is one.
pub open spec fn best_url(states: Seq<ProxyState>, now: Moment, r: Option<String>) -> bool {
    match r {
        Some(u) => sorted_healthy_urls(states, now).len() > 0 && u@ == sorted_healthy_urls(states, now)[0],
        None => sorted_healthy_urls(states, now).len() == 0,
    }
}

/// The test that an url differs from `exclude`.
pub open spec fn differs_from(exclude: Seq<char>) -> spec_fn(Seq<char>) -> bool {
    |u: Seq<char>| u != exclude
}

/// `urls` without `exclude`, at most `count` of them, in order.
pub open spec fn fallback_urls(urls: Seq<Seq<char>>, exclude: Seq<char>, count: usize) -> Seq<Seq<char>> {
    let rest = urls.filter(differs_from(exclude));
    if count < rest.len() {
        rest.take(count as int)
    } else {
        rest
    }
}

/// Filtering a prefix gives a prefix of the filtered sequence.
pub proof fn lemma_filter_take_prefix(urls: Seq<Seq<char>>, exclude: Seq<char>, k: int)
    requires
        0 <= k <= urls.len(),
    ensures
        urls.take(k).filter(differs_from(exclude)).len() <= urls.filter(differs_from(exclude)).len(),
        urls.take(k).filter(differs_from(exclude)) == urls.filter(differs_from(exclude)).take(urls.take(k).filter(differs_from(exclude)).len() as int),
    decreases urls.len() - k,
{
    reveal_with_fuel(Seq::filter, 1);
    if k == urls.len() {
        assert(urls.take(k) =~= urls);
        let f = urls.filter(differs_from(exclude));
        assert(f.take(f.len() as int) =~= f);
    } else {
        lemma_filter_take_prefix(urls, exclude, k + 1);
        assert(urls.take(k + 1).drop_last() =~= urls.take(k));
        let a = urls.take(k).filter(differs_from(exclude));
        let b = urls.take(k + 1).filter(differs_from(exclude));
        let f = urls.filter(differs_from(exclude));
        if urls[k] != exclude {
            assert(b == a.push(urls[k]));
            assert(a =~= f.take(a.len() as int)) by {
                assert(a =~= b.take(a.len() as int));
            }
        } else {
            assert(b == a);
        }
    }
}

/// The characters of an optional string.
pub open spec fn opt_view(o: Option<&str>) -> Option<Seq<char>> {
    match o {
        Some(p) => Some(p@),
        None => None,
    }
}

/// The urls to try for a download at `now`: the one the user named, else
/// the best usable proxy followed by its fallbacks, else every known url.
pub open spec fn resolved_urls(
    states: Seq<ProxyState>,
    all_urls: Seq<Seq<char>>,
    fallback_count: usize,
    specified: Option<Seq<char>>,
    now: Moment,
) -> Seq<Seq<char>> {
    match specified {
        Some(p) => seq![p],
        None => {
            let sorted = sorted_healthy_urls(states, now);
            if sorted.len() > 0 {
                seq![sorted[0]] + fallback_urls(sorted, sorted[0], fallback_count)
            } else {
                all_urls
            }
        },
    }
}

/// The ranking of report rows: healthy proxies first, then lower latency.
#[derive(Debug, Clone, Copy)]
pub struct ReportKey {
    pub healthy: bool,
    pub latency: u64,
}

impl Ranked for ReportKey {
    open spec fn ranks_no_later(self, other: Self) -> bool {
        ||| self.healthy && !other.healthy
        ||| self.healthy == other.healthy && self.latency <= other.latency
    }

    proof fn lemma_total(a: Self, b: Self) {
    }

    proof fn lemma_transitive(a: Self, b: Self, c: Self) {
    }

    fn ranks_no_later_exec(&self, other: &Self) -> (r: bool) {
        (self.healthy && !other.healthy) || (self.healthy == other.healthy && self.latency <= other.latency)
    }
}

/// The report key of a record.
pub open spec fn report_key(s: ProxyState) -> ReportKey {
    ReportKey { healthy: s.status == ProxyStatus::Healthy, latency: latency_rank(s.latency_ms) }
}

/// The report keys of the records.
pub open spec fn report_keys(states: Seq<ProxyState>) -> Seq<ReportKey> {
    states.map_values(|s: ProxyState| report_key(s))
}

/// Every record selected.
pub open spec fn all_kept(n: nat) -> Seq<bool> {
    Seq::new(n, |i: int| true)
}

/// The order of the report: every record, healthy ones first, then lower
/// latency; ties keep the records' order.
pub open spec fn report_order(states: Seq<ProxyState>) -> Seq<usize> {
    stable_order_of(report_keys(states), all_kept(states.len()))
}

/// The outcome of probing one proxy for a given download.
#[derive(Debug, Clone)]
pub struct ProbeResult {
    pub url: String,
    pub latency_ms: Option<u64>,
    pub ok: bool,
}

/// The ranking of probe results: reachable proxies first, by lower
/// latency; unreachable ones after, all tied.
#[derive(Debug, Clone, Copy)]
pub struct ProbeKey {
    pub ok: bool,
    pub latency: u64,
}

impl Ranked for ProbeKey {
    open spec fn ranks_no_later(self, other: Self) -> bool {
        ||| self.ok && !other.ok
        ||| self.ok && other.ok && self.latency <= other.latency
        ||| !self.ok && !other.ok
    }

    proof fn lemma_total(a: Self, b: Self) {
    }

    proof fn lemma_transitive(a: Self, b: Self, c: Self) {
    }

    fn ranks_no_later_exec(&self, other: &Self) -> (r: bool) {
        (self.ok && !other.ok) || (self.ok && other.ok && self.latency <= other.latency) || (!self.ok
            && !other.ok)
    }
}

/// The probe key of a result.
pub open spec fn probe_key(p: ProbeResult) -> ProbeKey {
    ProbeKey { ok: p.ok, latency: latency_rank(p.latency_ms) }
}

/// The probe keys of the results.
pub open spec fn probe_keys(results: Seq<ProbeResult>) -> Seq<ProbeKey> {
    results.map_values(|p: ProbeResult| probe_key(p))
}

/// The order of probe results: reachable first by latency, then the
/// unreachable ones as they came.
pub open spec fn probe_order(results: Seq<ProbeResult>) -> Seq<usize> {
    stable_order_of(probe_keys(results), all_kept(results.len()))
}

/// The urls of probed proxies, reachable ones first by latency, then the
/// unreachable ones in the order they came.
pub fn rank_probe_results(results: &Vec<ProbeResult>) -> (r: Vec<String>)
    ensures
        r.deep_view() == probe_order(results@).map_values(|i: usize| results@[i as int].url@),
{
    let n = results.len();
    let mut keys: Vec<ProbeKey> = Vec::new();
    let mut keep: Vec<bool> = Vec::new();
    let mut i: usize = 0;
    while i < n
        invariant
            n == results.len(),
            0 <= i <= n,
            keys@ == probe_keys(results@).take(i as int),
            keep@ == all_kept(n as nat).take(i as int),
        decreases n - i,
    {
        let lat = match results[i].latency_ms {
            Some(ms) => ms,
            None => u64::MAX,
        };
        keys.push(ProbeKey { ok: results[i].ok, latency: lat });
        keep.push(true);
        assert(keys@ =~= probe_keys(results@).take(i + 1));
        assert(keep@ =~= all_kept(n as nat).take(i + 1));
        i += 1;
    }
    assert(keys@ =~= probe_keys(results@));
    assert(keep@ =~= all_kept(n as nat));
    let order = stable_order(&keys, &keep);
    proof {
        let o = probe_order(results@);
        assert(is_stable_order(keys@, keep@, o));
        lemma_stable_order_unique(keys@, keep@, order@, o);
    }
    let mut r: Vec<String> = Vec::new();
    let mut j: usize = 0;
    while j < order.len()
        invariant
            0 <= j <= order.len(),
            n == results.len(),
            order@ == probe_order(results@),
            is_stable_order(keys@, keep@, order@),
            keys@.len() == n,
            r.deep_view() == order@.take(j as int).map_values(|i: usize| results@[i as int].url@),
        decreases order.len() - j,
    {
        let ghost prev = r.deep_view();
        assert(order@[j as int] < n);
        let u = results[order[j]].url.clone();
        r.push(u);
        assert(r.deep_view() =~= prev.push(u@));
        assert(r.deep_view() =~= order@.take(j + 1).map_values(|i: usize| results@[i as int].url@));
        j += 1;
    }
    assert(order@.take(order.len() as int) =~= order@);
    r
}

/// The resource fetched to check that a proxy works.
pub open spec fn probe_resource() -> Seq<char> {
    "https://github.com/favicon.ico"@
}

/// The address that checks a proxy: the proxy prefix, kept whole as for
/// every proxied request, followed by the probe resource.
pub fn probe_target(proxy: &str) -> (r: String)
    ensures
        r@ == proxy@ + probe_resource(),
{
    concat(proxy, "https://github.com/favicon.ico")
}

/// Whether a probe reply with HTTP status `status` shows a working proxy:
/// any success (2xx) or a redirect `302`.
pub fn probe_ok(status: u16) -> (r: bool)
    ensures
        r == ((200 <= status <= 299) || status == 302),
{
    (200 <= status && status <= 299) || status == 302
}

/// The proxy pool: every known proxy url, the health record of each proxy
/// seen so far, and the health settings.
pub struct ProxyManager {
    pub all_urls: Vec<String>,
    pub states: Vec<ProxyState>,
    pub max_fails: u32,
    pub cooldown: u64,
    pub fallback_count: usize,
}

impl ProxyManager {
    /// The pool is well formed: at most one record per url.
    pub open spec fn wf(&self) -> bool {
        distinct_urls(self.states@)
    }

    /// A pool from the user configuration and the saved states: the user's
    /// proxies, then the builtin ones they do not list; one record per url,
    /// the first saved one.
    pub fn new(config: &Config, store: ProxyStateStore) -> (r: Self)
        ensures
            r.wf(),
            r.all_urls.deep_view() == merge_urls(
                config.custom_proxies.deep_view(),
                builtin_proxy_urls(),
            ),
            r.states@ == dedup_states(store.proxies@),
            r.max_fails == config.health.max_consecutive_failures,
            r.cooldown == config.health.cooldown_seconds,
            r.fallback_count == config.health.fallback_count,
    {
        let builtin = builtin_proxies();
        let urls = merge_proxy_urls(&config.custom_proxies, &builtin);
        let mut states: Vec<ProxyState> = Vec::new();
        let mut src = store.proxies;
        let ghost all = src@;
        let n = src.len();
        let mut i: usize = 0;
        while i < n
            invariant
                n == src.len(),
                src@ == all,
                0 <= i <= n,
                states@ == dedup_states(all.take(i as int)),
                distinct_urls(states@),
            decreases n - i,
        {
            assert(all.take(i + 1).drop_last() =~= all.take(i as int));
            let s = src[i].duplicate();
            if position_of(&states, s.url.as_str()).is_none() {
                states.push(s);
            }
            i += 1;
        }
        assert(all.take(n as int) =~= all);
        ProxyManager {
            all_urls: urls,
            states,
            max_fails: config.health.max_consecutive_failures,
            cooldown: config.health.cooldown_seconds,
            fallback_count: config.health.fallback_count,
        }
    }

    /// The position of the record for `url`, created fresh (`ProxyState::new`)
    /// at the end when there is none.
    pub fn state_index(&mut self, url: &str) -> (r: usize)
        requires
            old(self).wf(),
        ensures
            final(self).wf(),
            final(self).all_urls == old(self).all_urls,
            final(self).max_fails == old(self).max_fails,
            final(self).cooldown == old(self).cooldown,
            final(self).fallback_count == old(self).fallback_count,
            r < final(self).states@.len(),
            final(self).states@[r as int].url@ == url@,
            index_of(final(self).states@, url@) == Some(r as int),
            match index_of(old(self).states@, url@) {
                Some(i) => r == i && final(self).states@ == old(self).states@,
                None => {
                    &&& r == old(self).states@.len()
                    &&& final(self).states@.drop_last() == old(self).states@
                    &&& fresh_record(final(self).states@[r as int], url@)
                },
            },
    {
        match position_of(&self.states, url) {
            Some(i) => i,
            None => {
                let ghost prev = self.states@;
                self.states.push(ProxyState::new(url));
                assert(self.states@.drop_last() =~= prev);
                assert(distinct_urls(self.states@)) by {
                    assert forall|i: int, j: int| 0 <= i < j < self.states@.len() implies self.states@[i].url@
                        != self.states@[j].url@ by {
                        if j == prev.len() {
                            assert(self.states@[i] == prev[i]);
                            if prev[i].url@ == url@ {
                                assert(has_url(prev, url@));
                            }
                        }
                    }
                }
                proof {
                    lemma_index_of(self.states@, prev.len() as int);
                }
                self.states.len() - 1
            },
        }
    }

    /// Records the outcome of a health probe of `url` that ended at `now`:
    /// the check time is written as `chrono` displays that moment (date and
    /// time separated by a space); reachable
    /// proxies become healthy with no failures in a row, the others dead with
    /// one more failure; a record is created first if none exists.
    pub fn record_probe(&mut self, url: &str, latency_ms: Option<u64>, ok: bool, now: Moment)
        requires
            old(self).wf(),
            !ok ==> failures_fit(old(self).states@, url@),
            representable(now),
        ensures
            final(self).wf(),
            final(self).all_urls == old(self).all_urls,
            final(self).max_fails == old(self).max_fails,
            final(self).cooldown == old(self).cooldown,
            final(self).fallback_count == old(self).fallback_count,
            match index_of(old(self).states@, url@) {
                Some(i) => {
                    &&& same_except(old(self).states@, final(self).states@, i)
                    &&& probed(old(self).states@[i], final(self).states@[i], latency_ms, ok, spec_display_datetime(now.secs, now.nanos))
                },
                None => {
                    &&& final(self).states@.drop_last() == old(self).states@
                    &&& final(self).states@.len() == old(self).states@.len() + 1
                    &&& exists|fresh: ProxyState|
                        fresh_record(fresh, url@) && probed(
                            fresh,
                            #[trigger] final(self).states@.last(),
                            latency_ms,
                            ok,
                            spec_display_datetime(now.secs, now.nanos),
                        )
                },
            },
    {
        let checked_at = display_datetime(now);
        let ghost prev = self.states@;
        let i = self.state_index(url);
        let ghost before = self.states@[i as int];
        assert(!ok ==> failures_fit(self.states@, url@)) by {
            if index_of(prev, url@) is None {
                assert(before.consecutive_failures == 0);
            }
        }
        self.states[i].last_checked = Some(checked_at);
        self.states[i].latency_ms = latency_ms;
        if ok {
            self.states[i].status = ProxyStatus::Healthy;
            self.states[i].consecutive_failures = 0;
        } else {
            self.states[i].status = ProxyStatus::Dead;
            self.states[i].consecutive_failures = self.states[i].consecutive_failures + 1;
            self.states[i].total_failures = self.states[i].total_failures + 1;
        }
        proof {
            assert(same_except(prev, self.states@, i as int) || index_of(prev, url@) is None);
            if index_of(prev, url@) is None {
                assert(self.states@.drop_last() =~= prev);
                assert(probed(before, self.states@.last(), latency_ms, ok, spec_display_datetime(now.secs, now.nanos)));
            }
            assert(distinct_urls(self.states@)) by {
                assert forall|a: int, b: int| 0 <= a < b < self.states@.len() implies self.states@[a].url@
                    != self.states@[b].url@ by {
                    if a != i && b != i {
                    }
                }
            }
        }
    }

    /// Records a download that succeeded through `url`: one more success,
    /// no failures in a row, healthy. Unknown urls are ignored.
    pub fn record_success(&mut self, url: &str)
        requires
            old(self).wf(),
            successes_fit(old(self).states@, url@),
        ensures
            final(self).wf(),
            final(self).all_urls == old(self).all_urls,
            final(self).max_fails == old(self).max_fails,
            final(self).cooldown == old(self).cooldown,
            final(self).fallback_count == old(self).fallback_count,
            success_recorded(old(self).states@, final(self).states@, url@),
    {
        match position_of(&self.states, url) {
            Some(i) => {
                let ghost prev = self.states@;
                self.states[i].total_successes = self.states[i].total_successes + 1;
                self.states[i].consecutive_failures = 0;
                self.states[i].status = ProxyStatus::Healthy;
                assert(distinct_urls(self.states@)) by {
                    assert forall|a: int, b: int| 0 <= a < b < self.states@.len() implies self.states@[a].url@
                        != self.states@[b].url@ by {
                        assert(self.states@[a].url == prev[a].url);
                        assert(self.states@[b].url == prev[b].url);
                    }
                }
            },
            None => {},
        }
    }

    /// Records a download that failed through `url` at moment `now`: one
    /// more failure (also in a row), dead; once the failures in a row reach
    /// `max_fails`, a cooldown until `now + cooldown` seconds is written in
    /// a form that reads back, and the proxy is unusable until then. Unknown
    /// urls are ignored. Where `chrono` cannot compute that deadline
    /// (a cooldown or a sum out of its range) nothing changes and `false`
    /// comes back.
    pub fn record_failure(&mut self, url: &str, now: Moment) -> (done: bool)
        requires
            old(self).wf(),
            failures_fit(old(self).states@, url@),
            representable(now),
        ensures
            final(self).wf(),
            final(self).all_urls == old(self).all_urls,
            final(self).max_fails == old(self).max_fails,
            final(self).cooldown == old(self).cooldown,
            final(self).fallback_count == old(self).fallback_count,
            failure_recorded(
                old(self).states@,
                final(self).states@,
                url@,
                old(self).max_fails,
                old(self).cooldown,
                now,
                done,
            ),
    {
        match position_of(&self.states, url) {
            Some(i) => {
                let ghost prev = self.states@;
                let fails = self.states[i].consecutive_failures + 1;
                let mut until: Option<String> = clone_opt_string(&self.states[i].dead_until);
                if fails >= self.max_fails {
                    match deadline(now, self.cooldown) {
                        Some(d) => {
                            until = Some(format_datetime(d));
                        },
                        None => {
                            return false;
                        },
                    }
                }
                self.states[i].consecutive_failures = fails;
                self.states[i].total_failures = self.states[i].total_failures + 1;
                self.states[i].status = ProxyStatus::Dead;
                self.states[i].dead_until = until;
                assert(distinct_urls(self.states@)) by {
                    assert forall|a: int, b: int| 0 <= a < b < self.states@.len() implies self.states@[a].url@
                        != self.states@[b].url@ by {
                        assert(self.states@[a].url == prev[a].url);
                        assert(self.states@[b].url == prev[b].url);
                    }
                }
                true
            },
            None => true,
        }
    }

    /// Whether a failure of `url` at `now` can be recorded (see
    /// `record_failure`): false exactly where it would start a cooldown whose
    /// deadline `chrono` cannot compute.
    pub fn failure_recordable(&self, url: &str, now: Moment) -> (r: bool)
        requires
            self.wf(),
        ensures
            r == deadline_computable(self.states@, url@, self.max_fails, self.cooldown, now),
    {
        match position_of(&self.states, url) {
            Some(i) => {
                if self.states[i].consecutive_failures >= self.max_fails || self.states[i].consecutive_failures
                    + 1 >= self.max_fails {
                    deadline(now, self.cooldown).is_some()
                } else {
                    true
                }
            },
            None => true,
        }
    }

    /// Clears the failure marks of `url`: status unknown, no failures in a
    /// row, no cooldown. Unknown urls are ignored.
    pub fn reset(&mut self, url: &str)
        requires
            old(self).wf(),
        ensures
            final(self).wf(),
            final(self).all_urls == old(self).all_urls,
            final(self).max_fails == old(self).max_fails,
            final(self).cooldown == old(self).cooldown,
            final(self).fallback_count == old(self).fallback_count,
            match index_of(old(self).states@, url@) {
                Some(i) => {
                    &&& same_except(old(self).states@, final(self).states@, i)
                    &&& was_reset(old(self).states@[i], final(self).states@[i])
                },
                None => final(self).states@ == old(self).states@,
            },
    {
        match position_of(&self.states, url) {
            Some(i) => {
                let ghost prev = self.states@;
                self.states[i].status = ProxyStatus::Unknown;
                self.states[i].consecutive_failures = 0;
                self.states[i].dead_until = None;
                assert(distinct_urls(self.states@)) by {
                    assert forall|a: int, b: int| 0 <= a < b < self.states@.len() implies self.states@[a].url@
                        != self.states@[b].url@ by {
                        assert(self.states@[a].url == prev[a].url);
                        assert(self.states@[b].url == prev[b].url);
                    }
                }
            },
            None => {},
        }
    }

    /// The positions of the usable records at `now`, best first.
    pub fn healthy_order_at(&self, now: Moment) -> (r: Vec<usize>)
        ensures
            r@ == healthy_order(self.states@, now),
            is_stable_order(health_keys(self.states@), available_mask(self.states@, now), r@),
    {
        let n = self.states.len();
        let mut keys: Vec<HealthKey> = Vec::new();
        let mut keep: Vec<bool> = Vec::new();
        let mut i: usize = 0;
        while i < n
            invariant
                n == self.states.len(),
                0 <= i <= n,
                keys@ == health_keys(self.states@).take(i as int),
                keep@ == available_mask(self.states@, now).take(i as int),
            decreases n - i,
        {
            let s = &self.states[i];
            let lat = match s.latency_ms {
                Some(ms) => ms,
                None => u64::MAX,
            };
            keys.push(HealthKey { successes: s.total_successes, failures: s.total_failures, latency: lat });
            keep.push(is_available_at(s, now));
            assert(keys@ =~= health_keys(self.states@).take(i + 1));
            assert(keep@ =~= available_mask(self.states@, now).take(i + 1));
            i += 1;
        }
        assert(keys@ =~= health_keys(self.states@));
        assert(keep@ =~= available_mask(self.states@, now));
        let r = stable_order(&keys, &keep);
        proof {
            let o = healthy_order(self.states@, now);
            assert(is_stable_order(keys@, keep@, o));
            lemma_stable_order_unique(keys@, keep@, r@, o);
        }
        r
    }

    /// The usable proxies at `now`, best first: higher health score first,
    /// then lower latency; ties keep the records' order.
    pub fn get_sorted_healthy(&self, now: Moment) -> (r: Vec<&ProxyState>)
        ensures
            r@.len() == sorted_healthy(self.states@, now).len(),
            forall|i: int| 0 <= i < r@.len() ==> *r@[i] == sorted_healthy(self.states@, now)[i],
    {
        let order = self.healthy_order_at(now);
        let mut r: Vec<&ProxyState> = Vec::new();
        let mut i: usize = 0;
        while i < order.len()
            invariant
                0 <= i <= order.len(),
                order@ == healthy_order(self.states@, now),
                is_stable_order(health_keys(self.states@), available_mask(self.states@, now), order@),
                r@.len() == i,
                forall|j: int| 0 <= j < i ==> *r@[j] == self.states@[order@[j] as int],
            decreases order.len() - i,
        {
            assert(order@[i as int] < health_keys(self.states@).len());
            r.push(&self.states[order[i]]);
            i += 1;
        }
        r
    }

    /// The url of the best usable proxy at `now`.
    pub fn get_best_proxy_url(&self, now: Moment) -> (r: Option<String>)
        ensures
            best_url(self.states@, now, r),
    {
        let v = self.get_sorted_healthy(now);
        if v.len() == 0 {
            None
        } else {
            Some(v[0].url.clone())
        }
    }

    /// Up to `fallback_count` usable proxies at `now` other than `exclude`,
    /// best first.
    pub fn get_fallback_proxies(&self, exclude: &str, now: Moment) -> (r: Vec<String>)
        ensures
            r.deep_view() == fallback_urls(
                sorted_healthy_urls(self.states@, now),
                exclude@,
                self.fallback_count,
            ),
    {
        let v = self.get_sorted_healthy(now);
        let ghost urls = sorted_healthy_urls(self.states@, now);
        let ex = String::from_str(exclude);
        let mut r: Vec<String> = Vec::new();
        let mut i: usize = 0;
        assert(urls.take(0).filter(differs_from(exclude@)) =~= Seq::<Seq<char>>::empty()) by {
            reveal_with_fuel(Seq::filter, 1);
        }
        while i < v.len() && r.len() < self.fallback_count
            invariant
                0 <= i <= v.len(),
                v@.len() == urls.len(),
                urls == sorted_healthy_urls(self.states@, now),
                forall|j: int| 0 <= j < v@.len() ==> v@[j].url@ == #[trigger] urls[j],
                ex@ == exclude@,
                r.deep_view() == urls.take(i as int).filter(differs_from(exclude@)),
                r.len() <= self.fallback_count,
            decreases v.len() - i,
        {
            proof {
                reveal_with_fuel(Seq::filter, 1);
                assert(urls.take(i + 1).drop_last() =~= urls.take(i as int));
            }
            if v[i].url != ex {
                let ghost prev = r.deep_view();
                r.push(v[i].url.clone());
                assert(r.deep_view() =~= prev.push(urls[i as int]));
            }
            i += 1;
        }
        proof {
            let rest = urls.filter(differs_from(exclude@));
            if i == v.len() {
                assert(urls.take(i as int) =~= urls);
            } else {
                // r already holds fallback_count urls: a prefix of the full filter
                lemma_filter_take_prefix(urls, exclude@, i as int);
                assert(r.deep_view() =~= rest.take(self.fallback_count as int));
            }
        }
        r
    }

    /// The urls to try for a download at `now`: the one the user named, else
    /// the best usable proxy followed by its fallbacks, else every known url.
    pub fn resolve_proxies(&self, specified: Option<&str>, now: Moment) -> (r: Vec<String>)
        ensures
            r.deep_view() == resolved_urls(
                self.states@,
                self.all_urls.deep_view(),
                self.fallback_count,
                opt_view(specified),
                now,
            ),
    {
        match specified {
            Some(p) => {
                let mut r: Vec<String> = Vec::new();
                r.push(String::from_str(p));
                assert(r.deep_view() =~= seq![p@]);
                r
            },
            None => match self.get_best_proxy_url(now) {
                Some(best) => {
                    let rest = self.get_fallback_proxies(best.as_str(), now);
                    let ghost b = best@;
                    let mut r: Vec<String> = Vec::new();
                    r.push(best);
                    let mut i: usize = 0;
                    while i < rest.len()
                        invariant
                            0 <= i <= rest.len(),
                            r@.len() >= 1,
                            r.deep_view()[0] == b,
                            r.deep_view() == seq![b] + rest.deep_view().take(i as int),
                        decreases rest.len() - i,
                    {
                        let ghost prev = r.deep_view();
                        let u = rest[i].clone();
                        r.push(u);
                        assert(r.deep_view() =~= prev.push(u@));
                        assert(r.deep_view() =~= prev.push(rest.deep_view()[i as int]));
                        assert(rest.deep_view().take(i + 1) =~= rest.deep_view().take(i as int).push(
                            rest.deep_view()[i as int],
                        ));
                        i += 1;
                    }
                    assert(rest.deep_view().take(rest.len() as int) =~= rest.deep_view());
                    r
                },
                None => {
                    let mut r: Vec<String> = Vec::new();
                    let mut i: usize = 0;
                    while i < self.all_urls.len()
                        invariant
                            0 <= i <= self.all_urls.len(),
                            r.deep_view() == self.all_urls.deep_view().take(i as int),
                        decreases self.all_urls.len() - i,
                    {
                        let ghost prev = r.deep_view();
                        let u = self.all_urls[i].clone();
                        r.push(u);
                        assert(r.deep_view() =~= prev.push(u@));
                        assert(r.deep_view() =~= self.all_urls.deep_view().take(i + 1));
                        i += 1;
                    }
                    assert(self.all_urls.deep_view().take(self.all_urls.len() as int)
                        =~= self.all_urls.deep_view());
                    r
                },
            },
        }
    }

    /// Adds `url` to the known proxies unless it is known already; a new url
    /// gets a fresh record (replacing any old one). Says whether it was new;
    /// the caller then adds it to the user configuration.
    pub fn add_custom(&mut self, url: &str) -> (added: bool)
        requires
            old(self).wf(),
        ensures
            final(self).wf(),
            added == !old(self).all_urls.deep_view().contains(url@),
            final(self).max_fails == old(self).max_fails,
            final(self).cooldown == old(self).cooldown,
            final(self).fallback_count == old(self).fallback_count,
            !added ==> final(self).all_urls == old(self).all_urls && final(self).states@ == old(self).states@,
            added ==> final(self).all_urls.deep_view() == old(self).all_urls.deep_view().push(url@),
            added ==> match index_of(old(self).states@, url@) {
                Some(i) => same_except(old(self).states@, final(self).states@, i) && fresh_record(
                    final(self).states@[i],
                    url@,
                ),
                None => final(self).states@.drop_last() == old(self).states@ && final(self).states@.len() == old(self).states@.len() + 1 && fresh_record(
                    final(self).states@.last(),
                    url@,
                ),
            },
    {
        if contains_url(&self.all_urls, url) {
            return false;
        }
        let ghost prev_urls = self.all_urls.deep_view();
        self.all_urls.push(String::from_str(url));
        assert(self.all_urls.deep_view() =~= prev_urls.push(url@));
        let ghost prev = self.states@;
        match position_of(&self.states, url) {
            Some(i) => {
                self.states[i] = ProxyState::new(url);
                assert(distinct_urls(self.states@)) by {
                    assert forall|a: int, b: int| 0 <= a < b < self.states@.len() implies self.states@[a].url@
                        != self.states@[b].url@ by {
                        assert(self.states@[a].url@ == prev[a].url@);
                        assert(self.states@[b].url@ == prev[b].url@);
                    }
                }
            },
            None => {
                self.state_index(url);
            },
        }
        true
    }

    /// Forgets `url`: it leaves the known proxies and its record is dropped.
    /// The caller also removes it from the user configuration.
    pub fn remove_custom(&mut self, url: &str)
        requires
            old(self).wf(),
        ensures
            final(self).wf(),
            final(self).all_urls.deep_view() == without(old(self).all_urls.deep_view(), url@),
            final(self).max_fails == old(self).max_fails,
            final(self).cooldown == old(self).cooldown,
            final(self).fallback_count == old(self).fallback_count,
            match index_of(old(self).states@, url@) {
                Some(i) => final(self).states@ == old(self).states@.remove(i),
                None => final(self).states@ == old(self).states@,
            },
    {
        remove_url(&mut self.all_urls, url);
        match position_of(&self.states, url) {
            Some(i) => {
                let ghost prev = self.states@;
                self.states.remove(i);
                assert(distinct_urls(self.states@)) by {
                    assert forall|a: int, b: int| 0 <= a < b < self.states@.len() implies self.states@[a].url@
                        != self.states@[b].url@ by {
                        let a0 = if a < i { a } else { a + 1 };
                        let b0 = if b < i { b } else { b + 1 };
                        assert(self.states@[a] == prev[a0]);
                        assert(self.states@[b] == prev[b0]);
                    }
                }
            },
            None => {},
        }
    }

    /// Every record, healthy proxies first, then lower latency; ties keep
    /// the records' order.
    pub fn generate_report(&self) -> (r: Vec<ProxyState>)
        ensures
            r@ == report_order(self.states@).map_values(|i: usize| self.states@[i as int]),
    {
        let n = self.states.len();
        let mut keys: Vec<ReportKey> = Vec::new();
        let mut keep: Vec<bool> = Vec::new();
        let mut i: usize = 0;
        while i < n
            invariant
                n == self.states.len(),
                0 <= i <= n,
                keys@ == report_keys(self.states@).take(i as int),
                keep@ == all_kept(n as nat).take(i as int),
            decreases n - i,
        {
            let s = &self.states[i];
            let lat = match s.latency_ms {
                Some(ms) => ms,
                None => u64::MAX,
            };
            keys.push(ReportKey { healthy: s.status == ProxyStatus::Healthy, latency: lat });
            keep.push(true);
            assert(keys@ =~= report_keys(self.states@).take(i + 1));
            assert(keep@ =~= all_kept(n as nat).take(i + 1));
            i += 1;
        }
        assert(keys@ =~= report_keys(self.states@));
        assert(keep@ =~= all_kept(n as nat));
        let order = stable_order(&keys, &keep);
        proof {
            let o = report_order(self.states@);
            assert(is_stable_order(keys@, keep@, o));
            lemma_stable_order_unique(keys@, keep@, order@, o);
        }
        let mut r: Vec<ProxyState> = Vec::new();
        let mut j: usize = 0;
        while j < order.len()
            invariant
                0 <= j <= order.len(),
                n == self.states.len(),
                keys@.len() == n,
                order@ == report_order(self.states@),
                is_stable_order(keys@, keep@, order@),
                r@ == order@.take(j as int).map_values(|i: usize| self.states@[i as int]),
            decreases order.len() - j,
        {
            assert(order@[j as int] < n);
            r.push(self.states[order[j]].duplicate());
            assert(r@ =~= order@.take(j + 1).map_values(|i: usize| self.states@[i as int]));
            j += 1;
        }
        assert(order@.take(order.len() as int) =~= order@);
        r
    }
}


/// What comes next in a download that tries a list of proxies in turn.
#[derive(Debug, Clone, Copy, PartialEq, Eq, Structural)]
pub enum FailoverStep {
    /// Try the proxy at `index`, resuming after the first `resume_from`
    /// bytes.
    Attempt { index: usize, resume_from: u64 },
    /// The proxy at `index` delivered the file.
    Done { index: usize },
    /// Every proxy failed.
    Exhausted,
}

/// The attempt at position `from` of `len` proxies, or the end of the list.
pub open spec fn attempt_from(from: int, len: int, existing: u64) -> FailoverStep {
    if from < len {
        FailoverStep::Attempt { index: from as usize, resume_from: existing }
    } else {
        FailoverStep::Exhausted
    }
}

/// One decision of a download with proxy failover. `last` is the outcome of
/// the previous attempt (the proxy's position in `proxies` and whether it
/// delivered), `None` before the first; `existing` is the number of bytes
/// already on disk, from which every attempt resumes. A success is recorded
/// in the pool and ends the download; a failure is recorded at `now` and
/// moves on to the next proxy, until none is left.
pub fn failover_step(
    pool: &mut ProxyManager,
    proxies: &Vec<String>,
    last: Option<(usize, bool)>,
    existing: u64,
    now: Moment,
) -> (step: FailoverStep)
    requires
        old(pool).wf(),
        last matches Some((i, ok)) ==> i < proxies.len(),
        last matches Some((i, true)) ==> successes_fit(old(pool).states@, proxies@[i as int]@),
        last matches Some((i, false)) ==> {
            &&& failures_fit(old(pool).states@, proxies@[i as int]@)
            &&& representable(now)
            &&& deadline_computable(
                old(pool).states@,
                proxies@[i as int]@,
                old(pool).max_fails,
                old(pool).cooldown,
                now,
            )
        },
    ensures
        final(pool).wf(),
        final(pool).all_urls == old(pool).all_urls,
        final(pool).max_fails == old(pool).max_fails,
        final(pool).cooldown == old(pool).cooldown,
        final(pool).fallback_count == old(pool).fallback_count,
        match last {
            None => {
                &&& final(pool).states@ == old(pool).states@
                &&& step == attempt_from(0, proxies.len() as int, existing)
            },
            Some((i, true)) => {
                &&& success_recorded(old(pool).states@, final(pool).states@, proxies@[i as int]@)
                &&& step == FailoverStep::Done { index: i }
            },
            Some((i, false)) => {
                &&& failure_recorded(
                    old(pool).states@,
                    final(pool).states@,
                    proxies@[i as int]@,
                    old(pool).max_fails,
                    old(pool).cooldown,
                    now,
                    true,
                )
                &&& step == attempt_from(i + 1, proxies.len() as int, existing)
            },
        },
{
    match last {
        None => {
            if proxies.len() > 0 {
                FailoverStep::Attempt { index: 0, resume_from: existing }
            } else {
                FailoverStep::Exhausted
            }
        },
        Some((i, ok)) => {
            if ok {
                pool.record_success(proxies[i].as_str());
                FailoverStep::Done { index: i }
            } else {
                let done = pool.record_failure(proxies[i].as_str(), now);
                assert(done);
                if i + 1 < proxies.len() {
                    FailoverStep::Attempt { index: i + 1, resume_from: existing }
                } else {
                    FailoverStep::Exhausted
                }
            }
        },
    }
}

/// After `max_fails` failures in a row a proxy rests for `cooldown`
/// seconds: with the deadline `now + cooldown`, it is unusable at every
/// moment before the deadline and usable at every moment from it on; a
/// positive cooldown makes it unusable at the moment of the failure.
pub proof fn lemma_cooldown(
    old: ProxyState,
    new: ProxyState,
    max_fails: u32,
    cooldown: u64,
    now: Moment,
    later: Moment,
)
    requires
        failed(old, new, max_fails, cooldown, now),
        old.consecutive_failures + 1 >= max_fails,
    ensures
        deadline_after(now, cooldown) is Some,
        available(new, later) == !earlier(later, deadline_after(now, cooldown)->0),
        0 < cooldown <= i64::MAX ==> !available(new, now),
{
}

/// The usable proxies at `now`, best first, are exactly the usable records,
/// each once: none is missing, none is dead without a pending deadline, and
/// each ranks no later (health, then latency) than every one after it.
pub proof fn lemma_sorted_healthy(states: Seq<ProxyState>, now: Moment)
    requires
        states.len() <= usize::MAX,
        distinct_urls(states),
    ensures
        forall|i: int| 0 <= i < sorted_healthy(states, now).len() ==> available(
            #[trigger] sorted_healthy(states, now)[i],
            now,
        ) && states.contains(sorted_healthy(states, now)[i]),
        forall|k: int| 0 <= k < states.len() && available(#[trigger] states[k], now) ==> sorted_healthy(
            states,
            now,
        ).contains(states[k]),
        forall|i: int, j: int|
            0 <= i < j < sorted_healthy(states, now).len() ==> health_key(
                #[trigger] sorted_healthy(states, now)[i],
            ).ranks_no_later(health_key(#[trigger] sorted_healthy(states, now)[j])),
        distinct_urls(sorted_healthy(states, now)),
{
    let keys = health_keys(states);
    let keep = available_mask(states, now);
    lemma_stable_order_of(keys, keep);
    let o = healthy_order(states, now);
    lemma_stable_order_distinct(keys, keep, o);
    let sh = sorted_healthy(states, now);
    assert forall|i: int| 0 <= i < sh.len() implies available(#[trigger] sh[i], now) && states.contains(
        sh[i],
    ) by {
        assert(o[i] < keys.len() && keep[o[i] as int]);
        assert(sh[i] == states[o[i] as int]);
    }
    assert forall|k: int| 0 <= k < states.len() && available(#[trigger] states[k], now) implies sh.contains(
        states[k],
    ) by {
        assert(keep[k]);
        assert(o.contains(k as usize));
        let i = choose|i: int| 0 <= i < o.len() && o[i] == k as usize;
        assert(sh[i] == states[k]);
    }
    assert forall|i: int, j: int| 0 <= i < j < sh.len() implies health_key(#[trigger] sh[i]).ranks_no_later(
        health_key(#[trigger] sh[j]),
    ) by {
        assert(in_order(keys, o[i] as int, o[j] as int));
    }
    assert forall|i: int, j: int| 0 <= i < j < sh.len() implies sh[i].url@ != sh[j].url@ by {
        assert(o[i] != o[j]);
        assert(o[i] < keys.len() && o[j] < keys.len());
        if o[i] < o[j] {
            assert(states[o[i] as int].url@ != states[o[j] as int].url@);
        } else {
            assert(states[o[j] as int].url@ != states[o[i] as int].url@);
        }
    }
}

/// The best proxy at `now`, when there is one, is usable and ranks no later
/// than any usable record: no usable proxy has a higher health score, nor
/// the same score and a lower latency.
pub proof fn lemma_best_is_best(states: Seq<ProxyState>, now: Moment)
    requires
        states.len() <= usize::MAX,
        distinct_urls(states),
        sorted_healthy(states, now).len() > 0,
    ensures
        available(sorted_healthy(states, now)[0], now),
        forall|k: int|
            0 <= k < states.len() && available(#[trigger] states[k], now) ==> health_key(
                sorted_healthy(states, now)[0],
            ).ranks_no_later(health_key(states[k])),
{
    lemma_sorted_healthy(states, now);
    let sh = sorted_healthy(states, now);
    assert(available(sh[0], now));
    assert forall|k: int| 0 <= k < states.len() && available(#[trigger] states[k], now) implies health_key(
        sh[0],
    ).ranks_no_later(health_key(states[k])) by {
        assert(sh.contains(states[k]));
        let i = choose|i: int| 0 <= i < sh.len() && sh[i] == states[k];
        if i > 0 {
            assert(health_key(sh[0]).ranks_no_later(health_key(sh[i])));
        } else {
            HealthKey::lemma_total(health_key(sh[0]), health_key(sh[0]));
        }
    }
}

/// Among usable proxies of equal health score, the one ranked first has the
/// lower latency, an unmeasured latency counting as the largest
/// (`latency_ms.unwrap_or(u64::MAX)` ascending): a measured proxy is never
/// ranked after an unmeasured one of the same score, and no proxy of a
/// higher score is ranked after one of a lower score.
pub proof fn lemma_healthy_tiebreak(states: Seq<ProxyState>, now: Moment, i: int, j: int)
    requires
        states.len() <= usize::MAX,
        distinct_urls(states),
        0 <= i < j < sorted_healthy(states, now).len(),
    ensures
        ({
            let a = sorted_healthy(states, now)[i];
            let b = sorted_healthy(states, now)[j];
            &&& !scores_higher(b.total_successes, b.total_failures, a.total_successes, a.total_failures)
            &&& scores_equal(a.total_successes, a.total_failures, b.total_successes, b.total_failures) ==> (
            match a.latency_ms {
                Some(x) => x,
                None => u64::MAX,
            }) <= (match b.latency_ms {
                Some(y) => y,
                None => u64::MAX,
            })
        }),
{
    lemma_sorted_healthy(states, now);
    let a = sorted_healthy(states, now)[i];
    let b = sorted_healthy(states, now)[j];
    assert(health_key(a).ranks_no_later(health_key(b)));
    lemma_health_order(
        a.total_successes,
        a.total_failures,
        b.total_successes,
        b.total_failures,
        0,
        0,
    );
}

/// The fallback proxies are at most `count` usable proxies, none of them
/// `exclude`, in ranking order.
pub proof fn lemma_fallbacks(states: Seq<ProxyState>, now: Moment, exclude: Seq<char>, count: usize)
    requires
        states.len() <= usize::MAX,
        distinct_urls(states),
    ensures
        fallback_urls(sorted_healthy_urls(states, now), exclude, count).len() <= count,
        forall|i: int|
            0 <= i < fallback_urls(sorted_healthy_urls(states, now), exclude, count).len() ==> #[trigger] fallback_urls(
                sorted_healthy_urls(states, now),
                exclude,
                count,
            )[i] != exclude && sorted_healthy_urls(states, now).contains(
                fallback_urls(sorted_healthy_urls(states, now), exclude, count)[i],
            ),
{
    broadcast use vstd::seq_lib::group_filter_ensures;
    let urls = sorted_healthy_urls(states, now);
    let rest = urls.filter(differs_from(exclude));
    let f = fallback_urls(urls, exclude, count);
    assert forall|i: int| 0 <= i < f.len() implies #[trigger] f[i] != exclude && urls.contains(f[i]) by {
        assert(f[i] == rest[i]);
        assert(differs_from(exclude)(rest[i]));
        assert(rest.contains(rest[i]));
        urls.lemma_filter_contains_rev(differs_from(exclude), rest[i]);
    }
}

/// A health probe changes no download count but the failures: a
/// successful probe leaves both totals (and so the health score) as they
/// were, a failed one adds exactly one failure and never raises the score;
/// either way the url stays.
pub proof fn lemma_probe_counts(
    old: ProxyState,
    new: ProxyState,
    latency_ms: Option<u64>,
    ok: bool,
    checked_at: Seq<char>,
)
    requires
        probed(old, new, latency_ms, ok, checked_at),
    ensures
        new.url@ == old.url@,
        new.total_successes == old.total_successes,
        ok ==> new.total_failures == old.total_failures,
        ok ==> new.consecutive_failures == 0,
        !ok ==> new.total_failures == old.total_failures + 1,
        !ok ==> new.consecutive_failures == old.consecutive_failures + 1,
        ok ==> scores_equal(
            new.total_successes,
            new.total_failures,
            old.total_successes,
            old.total_failures,
        ),
        !scores_higher(new.total_successes, new.total_failures, old.total_successes, old.total_failures),
{
    lemma_score_monotone(new.total_successes, new.total_failures, old.total_successes, old.total_failures);
}

/// Recording a failure keeps every success count of the pool, adds one
/// failure (also in a row) to the failed url's record alone, and never
/// raises that record's health score; no record is added or dropped.
pub proof fn lemma_failure_counts(
    old: Seq<ProxyState>,
    new: Seq<ProxyState>,
    url: Seq<char>,
    max_fails: u32,
    cooldown: u64,
    now: Moment,
    done: bool,
)
    requires
        distinct_urls(old),
        failure_recorded(old, new, url, max_fails, cooldown, now, done),
    ensures
        new.len() == old.len(),
        forall|k: int| 0 <= k < old.len() ==> #[trigger] new[k].total_successes == old[k].total_successes,
        forall|k: int| 0 <= k < old.len() && old[k].url@ != url ==> #[trigger] new[k] == old[k],
        forall|k: int|
            0 <= k < old.len() && old[k].url@ == url && done ==> {
                &&& #[trigger] new[k].total_failures == old[k].total_failures + 1
                &&& new[k].consecutive_failures == old[k].consecutive_failures + 1
                &&& new[k].status == ProxyStatus::Dead
                &&& !scores_higher(
                    new[k].total_successes,
                    new[k].total_failures,
                    old[k].total_successes,
                    old[k].total_failures,
                )
            },
{
    match index_of(old, url) {
        Some(i) => {
            assert(has_url(old, url));
            assert(old[i].url@ == url);
            assert forall|k: int| 0 <= k < old.len() && old[k].url@ == url implies k == i by {
                lemma_index_of(old, k);
            }
            if done {
                lemma_score_monotone(
                    new[i].total_successes,
                    new[i].total_failures,
                    old[i].total_successes,
                    old[i].total_failures,
                );
            }
        },
        None => {},
    }
}

/// A record just marked successful, or just reset, is usable at any moment.
pub proof fn lemma_success_and_reset_make_usable(old: ProxyState, new: ProxyState, now: Moment)
    requires
        succeeded(old, new) || was_reset(old, new),
    ensures
        available(new, now),
{
}

/// The probe ranking puts every reachable proxy before every unreachable
/// one, the reachable ones by ascending latency, the unreachable ones in
/// the order they came; each result appears once.
pub proof fn lemma_probe_ranking(results: Seq<ProbeResult>)
    requires
        results.len() <= usize::MAX,
    ensures
        forall|i: int, j: int|
            0 <= i < j < probe_order(results).len() ==> {
                let a = results[#[trigger] probe_order(results)[i] as int];
                let b = results[#[trigger] probe_order(results)[j] as int];
                &&& b.ok ==> a.ok && latency_rank(a.latency_ms) <= latency_rank(b.latency_ms)
                &&& !a.ok ==> !b.ok && probe_order(results)[i] < probe_order(results)[j]
            },
        probe_order(results).len() == results.len(),
        forall|k: usize| k < results.len() ==> #[trigger] probe_order(results).contains(k),
{
    let keys = probe_keys(results);
    let keep = all_kept(results.len());
    lemma_stable_order_of(keys, keep);
    let o = probe_order(results);
    lemma_stable_order_distinct(keys, keep, o);
    assert forall|i: int, j: int| 0 <= i < j < o.len() implies {
        let a = results[#[trigger] o[i] as int];
        let b = results[#[trigger] o[j] as int];
        &&& b.ok ==> a.ok && latency_rank(a.latency_ms) <= latency_rank(b.latency_ms)
        &&& !a.ok ==> !b.ok && o[i] < o[j]
    } by {
        assert(in_order(keys, o[i] as int, o[j] as int));
    }
    assert forall|k: usize| k < results.len() implies #[trigger] o.contains(k) by {
        assert(keep[k as int]);
    }
    lemma_distinct_cover_len(o, results.len());
}

/// A sequence of distinct indices below `n` that holds each of them has
/// length `n`.
proof fn lemma_distinct_cover_len(o: Seq<usize>, n: nat)
    requires
        forall|i: int| 0 <= i < o.len() ==> #[trigger] o[i] < n,
        forall|i: int, j: int| 0 <= i < j < o.len() ==> o[i] != o[j],
        forall|k: usize| k < n ==> #[trigger] o.contains(k),
        n <= usize::MAX,
    ensures
        o.len() == n,
{
    let s = o.to_set();
    let full = Set::new(|k: usize| k < n);
    assert(s =~= full) by {
        assert forall|k: usize| s.contains(k) <==> full.contains(k) by {
            if full.contains(k) {
                assert(o.contains(k));
            }
        }
    }
    o.unique_seq_to_set();
    lemma_range_set_len(n);
}

proof fn lemma_range_set_len(n: nat)
    requires
        n <= usize::MAX,
    ensures
        Set::new(|k: usize| k < n).finite(),
        Set::new(|k: usize| k < n).len() == n,
    decreases n,
{
    if n == 0 {
        assert(Set::new(|k: usize| k < n) =~= Set::<usize>::empty());
    } else {
        lemma_range_set_len((n - 1) as nat);
        assert(Set::new(|k: usize| k < n) =~= Set::new(|k: usize| k < (n - 1) as nat).insert(
            (n - 1) as usize,
        ));
    }
}

/// The report lists every record once, healthy ones before the others, and
/// within each group by ascending latency.
pub proof fn lemma_report_order(states: Seq<ProxyState>)
    requires
        states.len() <= usize::MAX,
    ensures
        report_order(states).len() == states.len(),
        forall|k: usize| k < states.len() ==> #[trigger] report_order(states).contains(k),
        forall|i: int, j: int|
            0 <= i < j < report_order(states).len() ==> {
                let a = states[#[trigger] report_order(states)[i] as int];
                let b = states[#[trigger] report_order(states)[j] as int];
                &&& b.status == ProxyStatus::Healthy ==> a.status == ProxyStatus::Healthy
                &&& (a.status == ProxyStatus::Healthy) == (b.status == ProxyStatus::Healthy) ==> latency_rank(
                    a.latency_ms,
                ) <= latency_rank(b.latency_ms)
            },
{
    let keys = report_keys(states);
    let keep = all_kept(states.len());
    lemma_stable_order_of(keys, keep);
    let o = report_order(states);
    lemma_stable_order_distinct(keys, keep, o);
    assert forall|i: int, j: int| 0 <= i < j < o.len() implies {
        let a = states[#[trigger] o[i] as int];
        let b = states[#[trigger] o[j] as int];
        &&& b.status == ProxyStatus::Healthy ==> a.status == ProxyStatus::Healthy
        &&& (a.status == ProxyStatus::Healthy) == (b.status == ProxyStatus::Healthy) ==> latency_rank(
            a.latency_ms,
        ) <= latency_rank(b.latency_ms)
    } by {
        assert(in_order(keys, o[i] as int, o[j] as int));
    }
    assert forall|k: usize| k < states.len() implies #[trigger] o.contains(k) by {
        assert(keep[k as int]);
    }
    lemma_distinct_cover_len(o, states.len());
}

/// After a url is removed, it is neither a known proxy nor has a record.
pub proof fn lemma_removed_is_forgotten(
    urls: Seq<Seq<char>>,
    states: Seq<ProxyState>,
    url: Seq<char>,
)
    requires
        distinct_urls(states),
    ensures
        !without(urls, url).contains(url),
        match index_of(states, url) {
            Some(i) => !has_url(states.remove(i), url),
            None => !has_url(states, url),
        },
{
    broadcast use vstd::seq_lib::group_filter_ensures;
    if without(urls, url).contains(url) {
        let i = choose|i: int| 0 <= i < without(urls, url).len() && without(urls, url)[i] == url;
        assert((|u: Seq<char>| u != url)(without(urls, url)[i]));
    }
    match index_of(states, url) {
        Some(i) => {
            let r = states.remove(i);
            if has_url(r, url) {
                let j = choose|j: int| 0 <= j < r.len() && #[trigger] r[j].url@ == url;
                let j0 = if j < i { j } else { j + 1 };
                assert(r[j] == states[j0]);
                assert(states[i].url@ == url);
                if j0 < i {
                    assert(states[j0].url@ != states[i].url@);
                } else {
                    assert(states[i].url@ != states[j0].url@);
                }
            }
        },
        None => {},
    }
}

/// The merged list starts with the user's proxies, holds every builtin
/// prefix, and appends no builtin prefix twice nor one the user listed.
pub proof fn lemma_merge_urls(custom: Seq<Seq<char>>, builtin: Seq<Seq<char>>)
    ensures
        merge_urls(custom, builtin).len() >= custom.len(),
        merge_urls(custom, builtin).take(custom.len() as int) == custom,
        forall|b: Seq<char>| builtin.contains(b) ==> #[trigger] merge_urls(custom, builtin).contains(b),
        forall|i: int, j: int|
            custom.len() <= i < j < merge_urls(custom, builtin).len() ==> merge_urls(custom, builtin)[i]
                != merge_urls(custom, builtin)[j],
        forall|i: int|
            custom.len() <= i < merge_urls(custom, builtin).len() ==> !custom.contains(
                #[trigger] merge_urls(custom, builtin)[i],
            ) && builtin.contains(merge_urls(custom, builtin)[i]),
    decreases builtin.len(),
{
    if builtin.len() > 0 {
        let d = builtin.drop_last();
        let last = builtin.last();
        lemma_merge_urls(custom, d);
        let r = merge_urls(custom, d);
        let m = merge_urls(custom, builtin);
        assert forall|b: Seq<char>| builtin.contains(b) implies #[trigger] m.contains(b) by {
            let k = choose|k: int| 0 <= k < builtin.len() && builtin[k] == b;
            if k < builtin.len() - 1 {
                assert(d[k] == b);
                assert(r.contains(b));
                let p = choose|p: int| 0 <= p < r.len() && r[p] == b;
                assert(m[p] == b);
            } else if !r.contains(last) {
                assert(m[r.len() as int] == b);
            }
        }
        if !r.contains(last) {
            assert(m.take(custom.len() as int) =~= r.take(custom.len() as int));
            assert forall|i: int| custom.len() <= i < m.len() implies !custom.contains(#[trigger] m[i])
                && builtin.contains(m[i]) by {
                if i < r.len() {
                    assert(m[i] == r[i]);
                    assert(d.contains(r[i]));
                    let k = choose|k: int| 0 <= k < d.len() && d[k] == r[i];
                    assert(builtin[k] == r[i]);
                } else {
                    assert(builtin[builtin.len() - 1] == last);
                    if custom.contains(last) {
                        let k = choose|k: int| 0 <= k < custom.len() && custom[k] == last;
                        assert(r.take(custom.len() as int)[k] == last);
                        assert(r[k] == last);
                    }
                }
            }
        }
    }
}


/// `x` occurs in `s` before any occurrence of `y`.
pub open spec fn occurs_before(s: Seq<Seq<char>>, x: Seq<char>, y: Seq<char>) -> bool {
    exists|a: int| 0 <= a < s.len() && s[a] == x && forall|c: int| 0 <= c <= a ==> #[trigger] s[c] != y
}

/// The builtin prefixes appended after the user's proxies keep their
/// builtin order: of two appended prefixes, the earlier one occurs in the
/// builtin list before the later one does.
pub proof fn lemma_merge_order(custom: Seq<Seq<char>>, builtin: Seq<Seq<char>>)
    ensures
        forall|p: int, q: int|
            custom.len() <= p < q < merge_urls(custom, builtin).len() ==> occurs_before(
                builtin,
                #[trigger] merge_urls(custom, builtin)[p],
                #[trigger] merge_urls(custom, builtin)[q],
            ),
    decreases builtin.len(),
{
    if builtin.len() > 0 {
        let d = builtin.drop_last();
        let last = builtin.last();
        lemma_merge_order(custom, d);
        lemma_merge_urls(custom, d);
        let r = merge_urls(custom, d);
        let m = merge_urls(custom, builtin);
        assert forall|p: int, q: int| custom.len() <= p < q < m.len() implies occurs_before(
            builtin,
            #[trigger] m[p],
            #[trigger] m[q],
        ) by {
            assert(m[p] == r[p]);
            if q < r.len() {
                assert(m[q] == r[q]);
                assert(occurs_before(d, r[p], r[q]));
                let a = choose|a: int|
                    0 <= a < d.len() && d[a] == r[p] && forall|c: int| 0 <= c <= a ==> #[trigger] d[c] != r[q];
                assert(builtin[a] == r[p]);
                assert forall|c: int| 0 <= c <= a implies #[trigger] builtin[c] != m[q] by {
                    assert(builtin[c] == d[c]);
                }
            } else {
                // m[q] is the newly appended last builtin prefix, absent from r
                assert(!r.contains(last));
                assert(m[q] == last);
                assert(d.contains(r[p]));
                let a = choose|a: int| 0 <= a < d.len() && d[a] == r[p];
                assert(builtin[a] == r[p]);
                assert forall|c: int| 0 <= c <= a implies #[trigger] builtin[c] != m[q] by {
                    assert(builtin[c] == d[c]);
                    if d[c] == last {
                        assert(d.contains(last));
                    }
                }
            }
        }
    }
}

proof fn lemma_filter_no_duplicates(s: Seq<Seq<char>>, p: spec_fn(Seq<char>) -> bool)
    requires
        s.no_duplicates(),
    ensures
        s.filter(p).no_duplicates(),
    decreases s.len(),
{
    reveal_with_fuel(Seq::filter, 1);
    if s.len() > 0 {
        let d = s.drop_last();
        assert(d.no_duplicates()) by {
            assert forall|i: int, j: int| 0 <= i < d.len() && 0 <= j < d.len() && i != j implies d[i]
                != d[j] by {
                assert(d[i] == s[i] && d[j] == s[j]);
            }
        }
        lemma_filter_no_duplicates(d, p);
        let f = d.filter(p);
        if p(s.last()) {
            if f.contains(s.last()) {
                d.lemma_filter_contains_rev(p, s.last());
                let k = choose|k: int| 0 <= k < d.len() && d[k] == s.last();
                assert(s[k] == s[s.len() - 1]);
            }
            assert(s.filter(p) == f.push(s.last()));
            assert forall|i: int, j: int|
                0 <= i < f.len() + 1 && 0 <= j < f.len() + 1 && i != j implies f.push(s.last())[i]
                != f.push(s.last())[j] by {
                if i == f.len() {
                    assert(!f.contains(s.last()));
                    assert(f.push(s.last())[j] == f[j]);
                } else if j == f.len() {
                    assert(!f.contains(s.last()));
                    assert(f.push(s.last())[i] == f[i]);
                }
            }
        }
    }
}

/// The urls to try for a download: the named proxy alone; else the best
/// usable proxy first, then at most `fallback_count` others, all usable and
/// none twice; else, when no proxy is usable, every known url.
pub proof fn lemma_resolved_urls(
    states: Seq<ProxyState>,
    all_urls: Seq<Seq<char>>,
    fallback_count: usize,
    specified: Option<Seq<char>>,
    now: Moment,
)
    requires
        states.len() <= usize::MAX,
        distinct_urls(states),
    ensures
        ({
            let r = resolved_urls(states, all_urls, fallback_count, specified, now);
            let sorted = sorted_healthy_urls(states, now);
            match specified {
                Some(p) => r == seq![p],
                None => if sorted.len() > 0 {
                    &&& r[0] == sorted[0]
                    &&& 1 <= r.len() <= fallback_count + 1
                    &&& r.no_duplicates()
                    &&& forall|i: int| 0 <= i < r.len() ==> sorted.contains(#[trigger] r[i])
                } else {
                    r == all_urls
                },
            }
        }),
{
    broadcast use vstd::seq_lib::group_filter_ensures;
    if specified.is_none() {
        let sorted = sorted_healthy_urls(states, now);
        if sorted.len() > 0 {
            lemma_sorted_healthy(states, now);
            let sh = sorted_healthy(states, now);
            assert(sorted.no_duplicates()) by {
                assert forall|i: int, j: int| 0 <= i < sorted.len() && 0 <= j < sorted.len() && i != j implies sorted[i]
                    != sorted[j] by {
                    if i < j {
                        assert(sh[i].url@ != sh[j].url@);
                    } else {
                        assert(sh[j].url@ != sh[i].url@);
                    }
                }
            }
            let best = sorted[0];
            lemma_fallbacks(states, now, best, fallback_count);
            let fb = fallback_urls(sorted, best, fallback_count);
            let rest = sorted.filter(differs_from(best));
            lemma_filter_no_duplicates(sorted, differs_from(best));
            assert(fb.no_duplicates()) by {
                assert forall|i: int, j: int| 0 <= i < fb.len() && 0 <= j < fb.len() && i != j implies fb[i]
                    != fb[j] by {
                    assert(fb[i] == rest[i] && fb[j] == rest[j]);
                }
            }
            let r = seq![best] + fb;
            assert(r == resolved_urls(states, all_urls, fallback_count, specified, now));
            assert forall|i: int, j: int| 0 <= i < r.len() && 0 <= j < r.len() && i != j implies r[i]
                != r[j] by {
                if i > 0 && j > 0 {
                    assert(r[i] == fb[i - 1] && r[j] == fb[j - 1]);
                } else if i == 0 {
                    assert(r[j] == fb[j - 1]);
                } else {
                    assert(r[i] == fb[i - 1]);
                }
            }
            assert forall|i: int| 0 <= i < r.len() implies sorted.contains(#[trigger] r[i]) by {
                if i > 0 {
                    assert(r[i] == fb[i - 1]);
                }
            }
        }
    }
}

} // verus!
