//! Per-peer request limits for the endpoints no credential guards.
//!
//! This bounds **how many** requests arrive, per peer and per minute. It is
//! one process's own counter: two processes behind one proxy count
//! separately, and a restart forgets every window.
use vstd::hash_map::StringHashMap;
use vstd::prelude::*;

verus! {

/// Microseconds as whole seconds, toward zero.
pub open spec fn whole_seconds(us: int) -> int {
    if us >= 0 {
        us / 1_000_000
    } else {
        -((-us) / 1_000_000)
    }
}

/// Microseconds as whole seconds, toward zero.
pub fn seconds_of(us: i64) -> (r: i64)
    ensures
        r == whole_seconds(us as int),
{
    if us >= 0 {
        us / 1_000_000
    } else {
        let away: i128 = -(us as i128);
        let seconds: i128 = away / 1_000_000;
        -(seconds as i64)
    }
}

/// How long one counting window lasts, in microseconds.
pub const WINDOW_US: i64 = 60_000_000;

/// How many registrations one peer may send in a window.
///
/// Lower than the rest because a registration is the one anonymous request
/// that writes a row nothing expires.
pub const REGISTER_PER_WINDOW: u32 = 20;

/// How many requests one peer may send in a window to each of the endpoints
/// that carry a login or a credential.
pub const LOGIN_PER_WINDOW: u32 = 60;

/// The most peers one limiter counts inside one window.
pub const MAX_KEYS: usize = 8192;

/// A fixed-window request counter, keyed by peer address.
///
/// The window is shared by every key: when it ends, every counter is retired
/// at once, so nothing has to be scanned or evicted.
pub struct RateLimiter {
    limit: u32,
    window_us: i64,
    max_keys: usize,
    /// When this window opened. Zero before the first request.
    started_us: i64,
    /// How many requests each peer has sent inside this window.
    counts: StringHashMap<u32>,
}

/// The state of a [`RateLimiter`].
#[verifier::ext_equal]
pub struct Window {
    pub limit: int,
    pub window: int,
    pub max_keys: int,
    pub started: int,
    pub counts: Map<Seq<char>, u32>,
}

impl View for RateLimiter {
    type V = Window;

    closed spec fn view(&self) -> Window {
        Window {
            limit: self.limit as int,
            window: self.window_us as int,
            max_keys: self.max_keys as int,
            started: self.started_us as int,
            counts: self.counts@,
        }
    }
}

/// A difference of two times, kept within 64 bits.
pub open spec fn elapsed(now: int, started: int) -> int {
    if now - started > i64::MAX {
        i64::MAX as int
    } else if now - started < i64::MIN {
        i64::MIN as int
    } else {
        now - started
    }
}

impl Window {
    /// The window that a request at this time falls into.
    pub open spec fn at(self, now: int) -> Window {
        if elapsed(now, self.started) >= self.window {
            Window { started: now, counts: Map::empty(), ..self }
        } else {
            self
        }
    }

    /// Whether a request is admitted.
    pub open spec fn admits(self, key: Seq<char>, now: int) -> bool {
        let w = self.at(now);
        if w.counts.contains_key(key) {
            w.counts[key] < w.limit
        } else {
            w.limit > 0
        }
    }

    /// The window after a request: an admitted request of a counted peer is
    /// counted, that of a new peer begins its count while there is room, and
    /// a refused request leaves every count alone.
    pub open spec fn after(self, key: Seq<char>, now: int) -> Window {
        let w = self.at(now);
        if !self.admits(key, now) {
            w
        } else if w.counts.contains_key(key) {
            Window { counts: w.counts.insert(key, (w.counts[key] + 1) as u32), ..w }
        } else if w.counts.len() < w.max_keys {
            Window { counts: w.counts.insert(key, 1), ..w }
        } else {
            w
        }
    }
}

/// The window that has seen no request: the given limit, the length and the
/// room that every limiter of the server has.
pub open spec fn fresh(limit: u32) -> Window {
    Window {
        limit: limit as int,
        window: WINDOW_US as int,
        max_keys: MAX_KEYS as int,
        started: 0,
        counts: Map::empty(),
    }
}

impl RateLimiter {
    /// A limiter admitting `limit` requests per peer in each [`WINDOW_US`],
    /// counting at most [`MAX_KEYS`] peers at a time.
    pub fn per_window(limit: u32) -> (r: RateLimiter)
        ensures
            r@ == fresh(limit),
    {
        RateLimiter::new(limit, WINDOW_US, MAX_KEYS)
    }

    /// A limiter with every bound named.
    pub fn new(limit: u32, window_us: i64, max_keys: usize) -> (r: RateLimiter)
        ensures
            r@ == (Window {
                limit: limit as int,
                window: window_us as int,
                max_keys: max_keys as int,
                started: 0,
                counts: Map::empty(),
            }),
    {
        RateLimiter { limit, window_us, max_keys, started_us: 0, counts: StringHashMap::new() }
    }

    /// How long a refused caller must wait before the window is certain to
    /// have rolled, in seconds: the whole window, which is an upper bound.
    pub fn retry_after_seconds(&self) -> (r: i64)
        ensures
            r == whole_seconds(self@.window),
    {
        seconds_of(self.window_us)
    }

    /// Counts one request from `key` and says whether it may proceed.
    ///
    /// A refusal consumes nothing, so a refused caller cannot push its own
    /// window further out by continuing to send. A key that arrives when
    /// `max_keys` peers are already counted is admitted and not counted. A
    /// limiter of no requests admits nobody.
    pub fn check(&mut self, key: &str, now_us: i64) -> (r: bool)
        ensures
            r == old(self)@.admits(key@, now_us as int),
            final(self)@ == old(self)@.after(key@, now_us as int),
    {
        let gone: i128 = now_us as i128 - self.started_us as i128;
        let gone: i128 = if gone > i64::MAX as i128 {
            i64::MAX as i128
        } else if gone < i64::MIN as i128 {
            i64::MIN as i128
        } else {
            gone
        };
        if gone >= self.window_us as i128 {
            self.counts.clear();
            self.started_us = now_us;
        }
        let held: Option<u32> = match self.counts.get(key) {
            Some(n) => Some(*n),
            None => None,
        };
        match held {
            Some(n) => {
                if n >= self.limit {
                    return false;
                }
                self.counts.insert(key.to_owned(), n + 1);
            },
            None => {
                if self.limit == 0 {
                    return false;
                }
                if self.counts.len() < self.max_keys {
                    self.counts.insert(key.to_owned(), 1);
                }
            },
        }
        true
    }
}

/// One request: the peer and the time.
pub type Request = (Seq<char>, int);

/// The window after some requests.
pub open spec fn after_all(w: Window, requests: Seq<Request>) -> Window
    decreases requests.len(),
{
    if requests.len() == 0 {
        w
    } else {
        after_all(w, requests.drop_last()).after(requests.last().0, requests.last().1)
    }
}

/// How many of a peer's requests are admitted among those of everybody.
pub open spec fn admitted(w: Window, requests: Seq<Request>, key: Seq<char>) -> int
    decreases requests.len(),
{
    if requests.len() == 0 {
        0
    } else {
        admitted(w, requests.drop_last(), key) + (if requests.last().0 == key && after_all(
            w,
            requests.drop_last(),
        ).admits(key, requests.last().1) {
            1int
        } else {
            0int
        })
    }
}

/// The request falls into the window that is open.
pub open spec fn within(w: Window, now: int) -> bool {
    elapsed(now, w.started) < w.window
}

/// A counted peer is admitted within one window until its count has reached
/// the limit, and no further, whatever other peers send.
pub proof fn law_a_peer_is_admitted_up_to_the_limit(
    w: Window,
    requests: Seq<Request>,
    key: Seq<char>,
)
    requires
        w.counts.contains_key(key),
        w.counts[key] <= w.limit <= u32::MAX,
        forall|i: int| 0 <= i < requests.len() ==> within(w, (#[trigger] requests[i]).1),
    ensures
        admitted(w, requests, key) <= w.limit - w.counts[key],
        after_all(w, requests).counts.contains_key(key),
        after_all(w, requests).counts[key] == w.counts[key] + admitted(w, requests, key),
        after_all(w, requests).started == w.started,
        after_all(w, requests).window == w.window,
        after_all(w, requests).limit == w.limit,
    decreases requests.len(),
{
    if requests.len() > 0 {
        let head = requests.drop_last();
        assert forall|i: int| 0 <= i < head.len() implies within(w, (#[trigger] head[i]).1) by {
            assert(head[i] == requests[i]);
        }
        law_a_peer_is_admitted_up_to_the_limit(w, head, key);
        assert(within(w, requests[requests.len() - 1].1));
    }
}

/// How many requests a peer sent.
pub open spec fn sent(requests: Seq<Request>, key: Seq<char>) -> nat
    decreases requests.len(),
{
    if requests.len() == 0 {
        0
    } else {
        sent(requests.drop_last(), key) + (if requests.last().0 == key {
            1nat
        } else {
            0nat
        })
    }
}

/// The peers that sent a request.
pub open spec fn peers(requests: Seq<Request>) -> Set<Seq<char>> {
    requests.map_values(|r: Request| r.0).to_set()
}

/// All requests come within one window's time of the first, and that comes when
/// a window of a fresh limiter has passed.
pub open spec fn in_one_window(requests: Seq<Request>) -> bool {
    requests.len() > 0 ==> {
        &&& WINDOW_US <= requests[0].1
        &&& forall|i: int|
            0 <= i < requests.len() ==> requests[0].1 <= (#[trigger] requests[i]).1 < requests[0].1
                + WINDOW_US && requests[i].1 <= i64::MAX
    }
}

proof fn lemma_head_in_one_window(requests: Seq<Request>)
    requires
        requests.len() > 0,
        in_one_window(requests),
    ensures
        in_one_window(requests.drop_last()),
        peers(requests.drop_last()).subset_of(peers(requests)),
        peers(requests).contains(requests.last().0),
        peers(requests).finite(),
        forall|k: Seq<char>| #[trigger] sent(requests.drop_last(), k) > 0 ==> peers(requests).contains(k),
{
    let head = requests.drop_last();
    let names = requests.map_values(|r: Request| r.0);
    let before = head.map_values(|r: Request| r.0);
    vstd::seq_lib::seq_to_set_is_finite(names);
    assert forall|i: int| 0 <= i < head.len() implies requests[0].1 <= (#[trigger] head[i]).1 < requests[0].1
        + WINDOW_US && head[i].1 <= i64::MAX by {
        assert(head[i] == requests[i]);
    }
    if head.len() > 0 {
        assert(head[0] == requests[0]);
    }
    assert(names[requests.len() - 1] == requests.last().0);
    assert forall|k: Seq<char>| peers(head).contains(k) implies peers(requests).contains(k) by {
        let i = choose|i: int| 0 <= i < before.len() && before[i] == k;
        assert(names[i] == k);
    }
    assert forall|k: Seq<char>| #[trigger] sent(head, k) > 0 implies peers(requests).contains(k) by {
        lemma_senders_are_peers(head, k);
    }
}

proof fn lemma_senders_are_peers(requests: Seq<Request>, key: Seq<char>)
    requires
        sent(requests, key) > 0,
    ensures
        peers(requests).contains(key),
    decreases requests.len(),
{
    let names = requests.map_values(|r: Request| r.0);
    if requests.last().0 == key {
        assert(names[requests.len() - 1] == key);
    } else {
        let before = requests.drop_last().map_values(|r: Request| r.0);
        lemma_senders_are_peers(requests.drop_last(), key);
        let i = choose|i: int| 0 <= i < before.len() && before[i] == key;
        assert(names[i] == key);
    }
}

proof fn lemma_counts_in_one_window(limit: u32, requests: Seq<Request>)
    requires
        limit >= 1,
        in_one_window(requests),
        peers(requests).len() <= MAX_KEYS,
        requests.len() > 0,
    ensures
        ({
            let w = after_all(fresh(limit), requests);
            &&& w == (Window { started: requests[0].1, counts: w.counts, ..fresh(limit) })
            &&& w.counts.dom().subset_of(peers(requests))
            &&& forall|k: Seq<char>| #[trigger]
                w.counts.contains_key(k) <==> sent(requests, k) > 0
            &&& forall|k: Seq<char>| #[trigger]
                w.counts.contains_key(k) ==> w.counts[k] == (if sent(requests, k) < limit {
                    sent(requests, k) as int
                } else {
                    limit as int
                })
        }),
    decreases requests.len(),
{
    let head = requests.drop_last();
    let w = after_all(fresh(limit), head);
    let (key, now) = requests.last();
    lemma_head_in_one_window(requests);
    reveal_with_fuel(after_all, 2);
    reveal_with_fuel(sent, 2);
    if head.len() == 0 {
        assert(requests[0] == requests.last());
        assert(head =~= Seq::<Request>::empty());
        assert(Set::<Seq<char>>::empty().len() == 0);
    } else {
        assert(head[0] == requests[0]);
        vstd::set_lib::lemma_len_subset(peers(head), peers(requests));
        lemma_counts_in_one_window(limit, head);
        assert(requests[requests.len() - 1].1 == now);
        if !w.counts.contains_key(key) {
            assert(w.counts.dom().insert(key).subset_of(peers(requests)));
            vstd::set_lib::lemma_len_subset(w.counts.dom(), peers(requests));
            vstd::set_lib::lemma_len_subset(w.counts.dom().insert(key), peers(requests));
        }
    }
}

/// Within one window a fresh limiter admits exactly the first requests of each
/// peer, as many as the limit, whatever other peers send.
pub proof fn law_a_fresh_peer_gets_exactly_the_limit(
    limit: u32,
    requests: Seq<Request>,
    key: Seq<char>,
    i: int,
)
    requires
        limit >= 1,
        in_one_window(requests),
        peers(requests).len() <= MAX_KEYS,
        0 <= i < requests.len(),
        requests[i].0 == key,
    ensures
        after_all(fresh(limit), requests.take(i)).admits(key, requests[i].1) <==> sent(
            requests.take(i),
            key,
        ) < limit,
        admitted(fresh(limit), requests, key) == (if sent(requests, key) < limit {
            sent(requests, key) as int
        } else {
            limit as int
        }),
{
    let part = requests.take(i + 1);
    assert forall|j: int| 0 <= j < part.len() implies part[j] == requests[j] by {}
    assert(part.drop_last() =~= requests.take(i));
    lemma_part_of_one_window(requests, i + 1);
    lemma_admission(limit, part);
    assert(requests.take(requests.len() as int) =~= requests);
    lemma_admitted_in_one_window(limit, requests, key);
}

proof fn lemma_part_of_one_window(requests: Seq<Request>, n: int)
    requires
        in_one_window(requests),
        0 <= n <= requests.len(),
    ensures
        in_one_window(requests.take(n)),
        peers(requests.take(n)).len() <= peers(requests).len(),
    decreases requests.len() - n,
{
    if n == requests.len() {
        assert(requests.take(n) =~= requests);
    } else {
        lemma_part_of_one_window(requests, n + 1);
        let more = requests.take(n + 1);
        assert(more.drop_last() =~= requests.take(n));
        lemma_head_in_one_window(more);
        vstd::set_lib::lemma_len_subset(peers(requests.take(n)), peers(more));
    }
}

/// Whether the last request is admitted.
proof fn lemma_admission(limit: u32, requests: Seq<Request>)
    requires
        limit >= 1,
        requests.len() > 0,
        in_one_window(requests),
        peers(requests).len() <= MAX_KEYS,
    ensures
        after_all(fresh(limit), requests.drop_last()).admits(requests.last().0, requests.last().1)
            <==> sent(requests.drop_last(), requests.last().0) < limit,
{
    let head = requests.drop_last();
    lemma_head_in_one_window(requests);
    vstd::set_lib::lemma_len_subset(peers(head), peers(requests));
    if head.len() == 0 {
        reveal_with_fuel(after_all, 2);
        reveal_with_fuel(sent, 2);
    } else {
        assert(head[0] == requests[0]);
        assert(requests[requests.len() - 1] == requests.last());
        lemma_counts_in_one_window(limit, head);
        assert(after_all(fresh(limit), head).counts.contains_key(requests.last().0) <==> sent(
            head,
            requests.last().0,
        ) > 0);
    }
}

proof fn lemma_admitted_in_one_window(limit: u32, requests: Seq<Request>, key: Seq<char>)
    requires
        limit >= 1,
        in_one_window(requests),
        peers(requests).len() <= MAX_KEYS,
    ensures
        admitted(fresh(limit), requests, key) == (if sent(requests, key) < limit {
            sent(requests, key) as int
        } else {
            limit as int
        }),
    decreases requests.len(),
{
    if requests.len() > 0 {
        lemma_head_in_one_window(requests);
        vstd::set_lib::lemma_len_subset(peers(requests.drop_last()), peers(requests));
        lemma_admitted_in_one_window(limit, requests.drop_last(), key);
        lemma_admission(limit, requests);
    }
}

/// A refused request changes no later answer: it leaves the window as any
/// request at that time finds it.
pub proof fn law_a_refused_request_consumes_nothing(
    w: Window,
    key: Seq<char>,
    now: int,
    other: Seq<char>,
    later: int,
)
    requires
        !w.admits(key, now),
        within(w, now),
    ensures
        w.after(key, now) == w,
        w.after(key, now).admits(other, later) == w.admits(other, later),
{
}

/// A peer that waits out the whole window is admitted again, whatever it sent
/// before.
pub proof fn law_waiting_out_the_window_admits_again(w: Window, key: Seq<char>, now: int)
    requires
        elapsed(now, w.started) >= w.window,
        w.limit > 0,
    ensures
        w.admits(key, now),
{
}

/// The clock that the requests were timed by never goes back, and had passed
/// zero at the first.
pub open spec fn in_order(requests: Seq<Request>) -> bool {
    forall|i: int, j: int|
        0 <= i <= j < requests.len() ==> 0 <= (#[trigger] requests[i]).1 <= (#[trigger] requests[j]).1
            <= i64::MAX
}

/// A window opens no later than the last request.
proof fn lemma_windows_open_in_the_past(limit: u32, requests: Seq<Request>)
    requires
        in_order(requests),
    ensures
        ({
            let w = after_all(fresh(limit), requests);
            &&& w == (Window { started: w.started, counts: w.counts, ..fresh(limit) })
            &&& 0 <= w.started
            &&& requests.len() > 0 ==> w.started <= requests.last().1
            &&& requests.len() == 0 ==> w.started == 0
        }),
    decreases requests.len(),
{
    if requests.len() > 0 {
        let head = requests.drop_last();
        assert(in_order(head)) by {
            assert forall|i: int, j: int| 0 <= i <= j < head.len() implies 0 <= (#[trigger] head[i]).1 <= (
            #[trigger] head[j]).1 <= i64::MAX by {
                assert(head[i] == requests[i] && head[j] == requests[j]);
            }
        }
        lemma_windows_open_in_the_past(limit, head);
        if head.len() > 0 {
            assert(head.last() == requests[head.len() - 1]);
            assert(requests[head.len() - 1].1 <= requests[requests.len() - 1].1);
        } else {
            assert(0 <= requests[requests.len() - 1].1);
        }
    }
}

/// Once a peer was refused it is counted in no window that opens later, as long
/// as it sends nothing.
proof fn lemma_the_silent_are_not_counted(
    w: Window,
    others: Seq<Request>,
    key: Seq<char>,
    t: int,
)
    requires
        0 <= w.started <= t,
        forall|i: int|
            0 <= i < others.len() ==> t <= (#[trigger] others[i]).1 <= i64::MAX && others[i].0 != key,
    ensures
        ({
            let after = after_all(w, others);
            &&& 0 <= after.started
            &&& after.limit == w.limit && after.window == w.window
            &&& after.started <= t || !after.counts.contains_key(key)
        }),
    decreases others.len(),
{
    if others.len() > 0 {
        let head = others.drop_last();
        assert forall|i: int| 0 <= i < head.len() implies t <= (#[trigger] head[i]).1 <= i64::MAX && head[i].0
            != key by {
            assert(head[i] == others[i]);
        }
        lemma_the_silent_are_not_counted(w, head, key, t);
        assert(t <= others[others.len() - 1].1);
    }
}

proof fn lemma_after_both(w: Window, first: Seq<Request>, second: Seq<Request>)
    ensures
        after_all(w, first + second) == after_all(after_all(w, first), second),
    decreases second.len(),
{
    if second.len() == 0 {
        assert(first + second =~= first);
    } else {
        lemma_after_both(w, first, second.drop_last());
        assert((first + second).drop_last() =~= first + second.drop_last());
        assert((first + second).last() == second.last());
    }
}

/// A peer that was refused and then sends nothing for the time it was told is
/// admitted, whatever other peers sent before and meanwhile. That time is a
/// minute.
pub proof fn law_a_refused_peer_is_admitted_after_the_wait(
    limit: u32,
    past: Seq<Request>,
    key: Seq<char>,
    t: int,
    others: Seq<Request>,
)
    requires
        limit >= 1,
        in_order(past.push((key, t)) + others),
        !after_all(fresh(limit), past).admits(key, t),
        forall|i: int| 0 <= i < others.len() ==> (#[trigger] others[i]).0 != key,
        t + WINDOW_US <= i64::MAX,
    ensures
        whole_seconds(fresh(limit).window) == 60,
        after_all(fresh(limit), past.push((key, t)) + others).admits(
            key,
            t + whole_seconds(fresh(limit).window) * 1_000_000,
        ),
{
    let all = past.push((key, t)) + others;
    let told = past.push((key, t));
    assert(all[past.len() as int] == (key, t));
    assert(in_order(told)) by {
        assert forall|i: int, j: int| 0 <= i <= j < told.len() implies 0 <= (#[trigger] told[i]).1 <= (
        #[trigger] told[j]).1 <= i64::MAX by {
            assert(told[i] == all[i] && told[j] == all[j]);
        }
    }
    lemma_windows_open_in_the_past(limit, told);
    assert forall|i: int| 0 <= i < others.len() implies t <= (#[trigger] others[i]).1 <= i64::MAX
        && others[i].0 != key by {
        assert(others[i] == all[told.len() + i]);
    }
    assert(0 <= t) by {
        assert(0 <= all[past.len() as int].1);
    }
    lemma_the_silent_are_not_counted(after_all(fresh(limit), told), others, key, t);
    lemma_after_both(fresh(limit), told, others);
}

/// The limiter behind each anonymous endpoint. One per endpoint, because the
/// budgets are not interchangeable; `token` and `revoke` share one.
pub struct Limits {
    pub register: RateLimiter,
    pub authorize: RateLimiter,
    pub callback: RateLimiter,
    pub consent: RateLimiter,
    pub credential: RateLimiter,
}

impl Limits {
    /// No request was seen yet, and every endpoint has its own limit.
    pub open spec fn is_fresh(self) -> bool {
        &&& self.register@ == fresh(REGISTER_PER_WINDOW)
        &&& self.authorize@ == fresh(LOGIN_PER_WINDOW)
        &&& self.callback@ == fresh(LOGIN_PER_WINDOW)
        &&& self.consent@ == fresh(LOGIN_PER_WINDOW)
        &&& self.credential@ == fresh(LOGIN_PER_WINDOW)
    }

    /// The defaults this server runs with.
    pub fn new() -> (r: Limits)
        ensures
            r.is_fresh(),
    {
        Limits {
            register: RateLimiter::per_window(REGISTER_PER_WINDOW),
            authorize: RateLimiter::per_window(LOGIN_PER_WINDOW),
            callback: RateLimiter::per_window(LOGIN_PER_WINDOW),
            consent: RateLimiter::per_window(LOGIN_PER_WINDOW),
            credential: RateLimiter::per_window(LOGIN_PER_WINDOW),
        }
    }
}

impl Default for Limits {
    fn default() -> (r: Limits)
        ensures
            r.is_fresh(),
    {
        Limits::new()
    }
}

/// In a minute one peer may register twenty times and send sixty requests to each
/// of the other endpoints, and up to 8192 peers are told apart.
pub proof fn law_each_endpoint_has_its_limit(l: Limits)
    requires
        l.is_fresh(),
    ensures
        l.register@.limit == 20,
        l.authorize@.limit == 60 && l.callback@.limit == 60 && l.consent@.limit == 60 && l.credential@.limit == 60,
        l.register@.window == 60_000_000 && l.authorize@.window == 60_000_000 && l.callback@.window == 60_000_000
            && l.consent@.window == 60_000_000 && l.credential@.window == 60_000_000,
        l.register@.max_keys == 8192 && l.authorize@.max_keys == 8192 && l.callback@.max_keys == 8192
            && l.consent@.max_keys == 8192 && l.credential@.max_keys == 8192,
{
}

} // verus!
