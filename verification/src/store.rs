use std::sync::Arc;
use vstd::prelude::*;
use vstd::string::StringExecFns;
use vstd::string::StrSliceExecFns;

use crate::model::SiteData;
use crate::wrap::chars_of;

verus! {

/// Minimum number of seconds between two pulls of the site data; a request
/// inside this window reuses the cached snapshot.
pub const MIN_REFRESH_INTERVAL_SECS: u64 = 60;

/// The data store: the current snapshot of the site content, the time of the
/// last pull attempt (Unix seconds, 0 = never attempted), and whether a pull
/// is in flight.
pub struct Store {
    data: Arc<SiteData>,
    last_fetch: u64,
    fetching: bool,
}

/// The state of a [`Store`] as the contracts speak of it.
pub struct StoreState {
    pub data: SiteData,
    pub last_fetch: u64,
    pub fetching: bool,
}

impl View for Store {
    type V = StoreState;

    closed spec fn view(&self) -> StoreState {
        StoreState { data: *self.data, last_fetch: self.last_fetch, fetching: self.fetching }
    }
}

/// Seconds from `last` to `now`, zero when the clock reads earlier than `last`.
pub open spec fn elapsed(last: u64, now: u64) -> int {
    if now >= last {
        now - last
    } else {
        0
    }
}

/// Whether a pull at `now` is due: none was ever attempted, or the last
/// attempt is at least [`MIN_REFRESH_INTERVAL_SECS`] old.
pub open spec fn is_stale(last_fetch: u64, now: u64) -> bool {
    last_fetch == 0 || elapsed(last_fetch, now) >= MIN_REFRESH_INTERVAL_SECS
}

/// Whether a refresh check at `now` starts a pull.
pub open spec fn refresh_starts(s: StoreState, now: u64) -> bool {
    is_stale(s.last_fetch, now) && !s.fetching
}

/// The state after a refresh check at `now`: a started pull is marked in
/// flight and recorded as attempted at `now`; otherwise nothing changes.
pub open spec fn after_refresh_check(s: StoreState, now: u64) -> StoreState {
    if refresh_starts(s, now) {
        StoreState { data: s.data, last_fetch: now, fetching: true }
    } else {
        s
    }
}

/// The data after a pull that returned `fetched`: new data replaces the
/// snapshot, a failed pull keeps it.
pub open spec fn data_after_pull(old: SiteData, fetched: Option<SiteData>) -> SiteData {
    match fetched {
        Some(d) => d,
        None => old,
    }
}

/// The state after the start-up pull is recorded as attempted at `now`.
pub open spec fn after_init_start(s: StoreState, now: u64) -> StoreState {
    StoreState { data: s.data, last_fetch: now, fetching: s.fetching }
}

/// The state after the start-up pull returned `fetched`.
pub open spec fn after_init_pull(s: StoreState, fetched: Option<SiteData>) -> StoreState {
    StoreState { data: data_after_pull(s.data, fetched), last_fetch: s.last_fetch, fetching: s.fetching }
}

/// The state after a background pull returned `fetched`: the data is
/// installed or kept, the attempt time stays, and no pull is in flight.
pub open spec fn after_refresh_pull(s: StoreState, fetched: Option<SiteData>) -> StoreState {
    StoreState { data: data_after_pull(s.data, fetched), last_fetch: s.last_fetch, fetching: false }
}

/// `Arc::clone` on the snapshot: a new handle to the same data.
#[verifier::external_body]
fn share(data: &Arc<SiteData>) -> (res: Arc<SiteData>)
    ensures
        *res == **data,
{
    Arc::clone(data)
}

impl Store {
    /// A store holding `fallback`, with no pull attempted and none in flight.
    pub fn new(fallback: SiteData) -> (s: Store)
        ensures
            s@.data == fallback,
            s@.last_fetch == 0,
            !s@.fetching,
    {
        Store { data: Arc::new(fallback), last_fetch: 0, fetching: false }
    }

    /// Records the start-up pull as attempted at `now`.
    pub fn begin_init(&mut self, now: u64)
        ensures
            final(self)@ == after_init_start(old(self)@, now),
    {
        self.last_fetch = now;
    }

    /// Installs the result of the start-up pull; on failure the current
    /// snapshot is kept.
    pub fn finish_init(&mut self, fetched: Option<SiteData>)
        ensures
            final(self)@ == after_init_pull(old(self)@, fetched),
    {
        match fetched {
            Some(d) => {
                self.data = Arc::new(d);
            },
            None => {},
        }
    }

    /// Decides whether a background pull starts at `now`: only when the last
    /// attempt is older than the refresh interval (or there was none) and no
    /// pull is in flight. A started pull is marked in flight and recorded as
    /// attempted at once, so that a failure still respects the rate limit.
    pub fn refresh_if_stale(&mut self, now: u64) -> (start: bool)
        ensures
            start == refresh_starts(old(self)@, now),
            final(self)@ == after_refresh_check(old(self)@, now),
    {
        let last = self.last_fetch;
        if last != 0 && now.saturating_sub(last) < MIN_REFRESH_INTERVAL_SECS {
            return false;
        }
        if self.fetching {
            return false;
        }
        self.fetching = true;
        self.last_fetch = now;
        true
    }

    /// Installs the result of a background pull (on failure the snapshot is
    /// kept) and clears the in-flight mark.
    pub fn finish_refresh(&mut self, fetched: Option<SiteData>)
        ensures
            final(self)@ == after_refresh_pull(old(self)@, fetched),
    {
        match fetched {
            Some(d) => {
                self.data = Arc::new(d);
            },
            None => {},
        }
        self.fetching = false;
    }
}

/// A consistent snapshot of the current site data; cheap to take (a shared
/// handle), so it can be taken on every render.
pub fn snapshot(store: &Store) -> (data: Arc<SiteData>)
    ensures
        *data == store@.data,
{
    share(&store.data)
}

/// Rate limit: once a check has started a pull at `now` (a clock reading
/// after the epoch), every check before `now` plus the refresh interval is
/// refused, while the pull is in flight and after it has finished, whatever
/// it returned.
pub proof fn lemma_refresh_rate_limited(
    s: StoreState,
    now: u64,
    later: u64,
    fetched: Option<SiteData>,
)
    requires
        refresh_starts(s, now),
        now != 0,
        later < now + MIN_REFRESH_INTERVAL_SECS,
    ensures
        !refresh_starts(after_refresh_check(s, now), later),
        !refresh_starts(after_refresh_pull(after_refresh_check(s, now), fetched), later),
{
}

/// At most one pull is in flight: while one is, a check starts nothing and
/// changes nothing.
pub proof fn lemma_single_flight(s: StoreState, now: u64)
    requires
        s.fetching,
    ensures
        !refresh_starts(s, now),
        after_refresh_check(s, now) == s,
{
}

/// The start-up pull counts as an attempt: after it was recorded at `now`
/// (after the epoch), checks before `now` plus the interval start nothing,
/// whatever the pull returned.
pub proof fn lemma_init_rate_limited(
    s: StoreState,
    now: u64,
    later: u64,
    fetched: Option<SiteData>,
)
    requires
        now != 0,
        later < now + MIN_REFRESH_INTERVAL_SECS,
    ensures
        !refresh_starts(after_init_start(s, now), later),
        !refresh_starts(after_init_pull(after_init_start(s, now), fetched), later),
{
}

/// A check starts a pull when none is in flight and the last attempt is at
/// least the refresh interval old, or none was made.
pub proof fn lemma_refresh_due(s: StoreState, now: u64)
    requires
        !s.fetching,
        s.last_fetch == 0 || s.last_fetch + MIN_REFRESH_INTERVAL_SECS <= now,
    ensures
        refresh_starts(s, now),
        after_refresh_check(s, now).fetching,
        after_refresh_check(s, now).last_fetch == now,
        after_refresh_check(s, now).data == s.data,
{
}

/// A pull that returned data makes it the snapshot; a failed pull keeps the
/// snapshot that was there, so a usable snapshot is always present.
pub proof fn lemma_pull_result(s: StoreState, d: SiteData)
    ensures
        after_refresh_pull(s, Some(d)).data == d,
        after_refresh_pull(s, None).data == s.data,
        after_init_pull(s, Some(d)).data == d,
        after_init_pull(s, None).data == s.data,
{
}

/// `s` without its trailing slashes.
pub open spec fn trim_trailing_slashes(s: Seq<char>) -> Seq<char>
    decreases s.len(),
{
    if s.len() > 0 && s.last() == '/' {
        trim_trailing_slashes(s.drop_last())
    } else {
        s
    }
}

/// One operation on the store, as a run of the application performs them:
/// recording the start-up pull at a clock reading, installing its result, a
/// refresh check at a clock reading, or installing a background pull's
/// result.
pub enum StoreEvent {
    BeginInit(u64),
    FinishInit(Option<SiteData>),
    Check(u64),
    FinishRefresh(Option<SiteData>),
}

/// The state after `e`, as the store's methods give it.
pub open spec fn store_step(s: StoreState, e: StoreEvent) -> StoreState {
    match e {
        StoreEvent::BeginInit(now) => after_init_start(s, now),
        StoreEvent::FinishInit(fetched) => after_init_pull(s, fetched),
        StoreEvent::Check(now) => after_refresh_check(s, now),
        StoreEvent::FinishRefresh(fetched) => after_refresh_pull(s, fetched),
    }
}

/// Whether `e`, applied to `s`, starts a pull: the start-up pull always
/// does, a check does when it is due.
pub open spec fn starts_pull(s: StoreState, e: StoreEvent) -> bool {
    match e {
        StoreEvent::BeginInit(_) => true,
        StoreEvent::Check(now) => refresh_starts(s, now),
        _ => false,
    }
}

/// The clock reading an event carries (0 for the result installations).
pub open spec fn event_clock(e: StoreEvent) -> u64 {
    match e {
        StoreEvent::BeginInit(now) => now,
        StoreEvent::Check(now) => now,
        _ => 0,
    }
}

/// The state after the events `evs`, in order, from `s`.
pub open spec fn run_state(s: StoreState, evs: Seq<StoreEvent>) -> StoreState
    decreases evs.len(),
{
    if evs.len() == 0 {
        s
    } else {
        store_step(run_state(s, evs.drop_last()), evs.last())
    }
}

proof fn lemma_run_step(s: StoreState, evs: Seq<StoreEvent>, k: int)
    requires
        0 < k <= evs.len(),
    ensures
        run_state(s, evs.take(k)) == store_step(run_state(s, evs.take(k - 1)), evs[k - 1]),
{
    assert(evs.take(k).drop_last() =~= evs.take(k - 1));
}

proof fn lemma_last_fetch_after_start(s: StoreState, evs: Seq<StoreEvent>, i: int, k: int)
    requires
        0 <= i < k <= evs.len(),
        forall|m: int| 0 <= m < evs.len() && #[trigger] evs[m] is BeginInit ==> m == 0,
        event_clock(evs[i]) != 0,
        starts_pull(run_state(s, evs.take(i)), evs[i]),
    ensures
        run_state(s, evs.take(k)).last_fetch >= event_clock(evs[i]),
    decreases k,
{
    lemma_run_step(s, evs, k);
    if k > i + 1 {
        lemma_last_fetch_after_start(s, evs, i, k - 1);
        assert(!(evs[k - 1] is BeginInit));
    }
}

/// Rate limit over a whole run: whatever checks and result installations
/// come in between, two pulls started in a run are at least the refresh
/// interval apart, provided the clock reads after the epoch and the start-up
/// pull, if any, comes first.
pub proof fn lemma_pulls_spaced(s: StoreState, evs: Seq<StoreEvent>, i: int, j: int)
    requires
        0 <= i < j < evs.len(),
        forall|m: int| 0 <= m < evs.len() && #[trigger] evs[m] is BeginInit ==> m == 0,
        forall|m: int| 0 <= m < evs.len() ==> (#[trigger] evs[m] is BeginInit || evs[m] is Check)
            ==> event_clock(evs[m]) != 0,
        starts_pull(run_state(s, evs.take(i)), evs[i]),
        starts_pull(run_state(s, evs.take(j)), evs[j]),
    ensures
        event_clock(evs[j]) >= event_clock(evs[i]) + MIN_REFRESH_INTERVAL_SECS,
{
    assert(evs[i] is BeginInit || evs[i] is Check);
    lemma_last_fetch_after_start(s, evs, i, j);
    assert(!(evs[j] is BeginInit));
}

/// A trailing slash on the base address changes no data address.
pub proof fn lemma_trailing_slash_ignored(base: Seq<char>)
    ensures
        trim_trailing_slashes(base.push('/')) == trim_trailing_slashes(base),
{
    assert(base.push('/').drop_last() =~= base);
}

/// The address of the data file `path` under the base address `base`:
/// trailing slashes of `base` are dropped and one slash joins the two.
pub fn data_url(base: &str, path: &str) -> (url: String)
    ensures
        url@ == trim_trailing_slashes(base@) + seq!['/'] + path@,
{
    let chars = chars_of(base);
    let mut end = chars.len();
    proof {
        assert(base@.take(end as int) =~= base@);
    }
    while end > 0 && chars[end - 1] == '/'
        invariant
            chars@ == base@,
            end <= chars.len(),
            trim_trailing_slashes(base@) == trim_trailing_slashes(base@.take(end as int)),
        decreases end,
    {
        proof {
            assert(base@.take(end as int).drop_last() =~= base@.take(end - 1));
        }
        end = end - 1;
    }
    let trimmed = base.substring_char(0, end);
    let mut url = String::from_str(trimmed);
    url.append("/");
    url.append(path);
    proof {
        reveal_strlit("/");
        assert(base@.take(end as int) =~= base@.subrange(0, end as int));
    }
    url
}

} // verus!
