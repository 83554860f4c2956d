//! What the server keeps between requests, and what a request does to it.
use crate::clock::{self, wall_clock, Clock, Instant};
use crate::error::Error;
use crate::handlers::{
    self, should_early_refresh, view_update, ViewBody, ViewUpdate, STATS_CACHE_SECS,
    STATS_RATE_LIMIT_PER_MINUTE,
};
use crate::rate_limit::{self, RateLimiter, TokenBucket};
use crate::sitemap::{self, PathSet};
use crate::stats::{self, scan_request, ScanRequest, StatsResponse};
use crate::text;
use crate::time;
use std::sync::atomic::{AtomicBool, Ordering};
use std::sync::Arc;
use vstd::prelude::*;
use vstd::string::*;

verus! {

/// The most views per path and minute.
pub const MAX_REQUESTS_PER_MINUTE: u32 = 60;

/// Statistics, and when they were gathered.
pub struct CachedStats {
    pub at: Instant,
    pub data: StatsResponse,
}

/// What a [`CachedStats`] holds.
#[verifier::ext_equal]
pub struct CacheView {
    pub at: Instant,
    pub data: stats::StatsView,
}

impl View for CachedStats {
    type V = CacheView;

    open spec fn view(&self) -> CacheView {
        CacheView { at: self.at, data: self.data@ }
    }
}

/// What the server keeps between requests.
pub struct AppState {
    table_name: String,
    rate_limiter: RateLimiter,
    valid_paths: PathSet,
    clock: Clock,
    started_at: Instant,
    stats_cache: Option<CachedStats>,
    stats_rate_limiter: TokenBucket,
    enable_status: bool,
}

/// What an [`AppState`] holds.
#[verifier::ext_equal]
pub struct AppView {
    /// The table that holds the counters.
    pub table_name: Seq<char>,
    /// The limiter of views.
    pub limiter: rate_limit::LimiterState,
    /// The paths that are counted.
    pub valid_paths: Set<Seq<char>>,
    /// When the server started.
    pub started_at: Instant,
    /// The statistics that were gathered last, and when.
    pub stats_cache: Option<CacheView>,
    /// The limiter of requests for the statistics.
    pub stats_bucket: rate_limit::BucketState,
    /// Whether the status may be asked for.
    pub enable_status: bool,
}

impl View for AppState {
    type V = AppView;

    closed spec fn view(&self) -> AppView {
        AppView {
            table_name: self.table_name@,
            limiter: self.rate_limiter@,
            valid_paths: self.valid_paths@,
            started_at: self.started_at,
            stats_cache: match self.stats_cache {
                Some(cached) => Some(cached@),
                None => None,
            },
            stats_bucket: self.stats_rate_limiter@,
            enable_status: self.enable_status,
        }
    }
}

impl AppView {
    /// What holds at all times: some paths are counted, all of them may be and are normalized;
    /// views are limited per path, and no limiter holds more than its capacity.
    pub open spec fn sound(self) -> bool {
        &&& sitemap::acceptable_paths(self.valid_paths)
        &&& !self.valid_paths.is_empty()
        &&& self.limiter.capacity == MAX_REQUESTS_PER_MINUTE
        &&& self.limiter.bounded()
        &&& self.stats_bucket.tokens <= STATS_RATE_LIMIT_PER_MINUTE
    }

    /// Whether a view of `path` is counted at `now`.
    pub open spec fn counts(self, path: Seq<char>, now: Instant) -> bool {
        self.valid_paths.contains(path) && self.limiter.allows(path, now)
    }

    /// After a view with `body` has come in at `now`.
    pub open spec fn after_view(self, body: ViewBody, now: Instant) -> AppView {
        match body.requested() {
            Some(path) => if self.valid_paths.contains(path) {
                AppView { limiter: self.limiter.after(path, now), ..self }
            } else {
                self
            },
            None => self,
        }
    }

    /// Whether the statistics at hand are recent enough at `now`.
    pub open spec fn cache_is_fresh(self, now: Instant) -> bool {
        self.stats_cache is Some && clock::elapsed_secs(now, self.stats_cache->0.at)
            < STATS_CACHE_SECS
    }

    /// With `data` as the statistics that were gathered last, at `now`.
    pub open spec fn with_stats(self, now: Instant, data: stats::StatsView) -> AppView {
        AppView { stats_cache: Some(CacheView { at: now, data }), ..self }
    }

    /// After a request for the statistics at `now`.
    pub open spec fn after_stats(self, now: Instant) -> AppView {
        AppView {
            stats_bucket: self.stats_bucket.after(now, STATS_RATE_LIMIT_PER_MINUTE as nat),
            ..self
        }
    }
}

/// What the server says of itself.
pub struct StatusResponse {
    pub status: &'static str,
    /// The whole seconds since the server started.
    pub uptime_seconds: u64,
    /// The number of paths that are counted.
    pub paths_monitored: usize,
}

/// What is done about a request for the statistics.
pub enum StatsStep {
    /// It is answered with these.
    Answer(StatsResponse),
    /// They are gathered anew, unless another request is doing so.
    Claim,
}

/// What is done about a request for the statistics once it is known who gathers them.
pub enum ClaimStep {
    /// This request gathers them, under the guard.
    Gather(RefreshGuard),
    /// It is answered with these.
    Answer(StatsResponse),
}

/// The outcome of fetching a sitemap, as a view.
pub open spec fn fetched_paths(fetched: Result<PathSet, Error>) -> Option<Set<Seq<char>>> {
    match fetched {
        Ok(paths) => if paths@.is_empty() {
            None
        } else {
            Some(paths@)
        },
        Err(_) => None,
    }
}

/// Whether the paths that were fetched, if any, may be counted.
pub open spec fn fetched_acceptable(fetched: Result<PathSet, Error>) -> bool {
    fetched matches Ok(paths) ==> sitemap::acceptable_paths(paths@)
}

/// The one path that is counted where no sitemap tells more.
pub open spec fn fallback_paths() -> Set<Seq<char>> {
    set![seq!['/']]
}

/// The paths that are counted from the start: those of the sitemap, or the site's root alone if
/// it could not be fetched or lists none.
pub fn initial_paths(fetched: Result<PathSet, Error>) -> (paths: PathSet)
    requires
        fetched_acceptable(fetched),
    ensures
        paths@ == match fetched_paths(fetched) {
            Some(listed) => listed,
            None => fallback_paths(),
        },
        sitemap::acceptable_paths(paths@),
        !paths@.is_empty(),
{
    if let Ok(listed) = fetched {
        if !listed.is_empty() {
            return listed;
        }
    }
    let mut paths = PathSet::new();
    paths.insert("/".to_string());
    proof {
        reveal_strlit("/");
        assert("/"@ =~= seq!['/']);
        lemma_root_is_acceptable();
        assert(paths@ =~= fallback_paths());
        assert(paths@.contains(seq!['/']));
    }
    paths
}

/// The site's root may be counted.
proof fn lemma_root_is_acceptable()
    ensures
        sitemap::acceptable_paths(fallback_paths()),
{
    let root = seq!['/'];
    assert(vstd::utf8::is_ascii_chars(root));
    vstd::utf8::is_ascii_chars_encode_utf8(root);
    assert(sitemap::valid_path(root));
    sitemap::normalizing_is_idempotent(Seq::<char>::empty());
    assert(sitemap::normalized(root) == root);
    assert(fallback_paths().len() == 1);
}

impl AppState {
    /// Whether the limiter's own parts fit together, and it goes by the server's clock.
    pub closed spec fn limiter_wf(&self) -> bool {
        self.rate_limiter.wf() && self.rate_limiter.own_clock() == self.clock
    }

    /// The clock by which the server goes.
    pub closed spec fn own_clock(&self) -> Clock {
        self.clock
    }

    /// What holds of a server at all times.
    pub open spec fn wf(&self) -> bool {
        &&& self.limiter_wf()
        &&& self@.sound()
    }

    /// A server that starts now.
    pub fn new(
        table_name: String,
        valid_paths: PathSet,
        enable_status: bool,
    ) -> (r: AppState)
        requires
            sitemap::acceptable_paths(valid_paths@),
            !valid_paths@.is_empty(),
        ensures
            r.wf(),
            r.own_clock().was_started(),
            r.own_clock().reads(r@.started_at),
            r@.table_name == table_name@,
            r@.limiter.buckets == Map::<Seq<char>, rate_limit::BucketState>::empty(),
            r@.valid_paths == valid_paths@,
            r@.stats_cache is None,
            r@.stats_bucket == rate_limit::BucketState::full(
                STATS_RATE_LIMIT_PER_MINUTE as nat,
                r@.started_at,
            ),
            r@.enable_status == enable_status,
    {
        let rate_limiter = RateLimiter::new(MAX_REQUESTS_PER_MINUTE);
        let clock = rate_limiter.clock();
        let now = clock.now();
        AppState {
            table_name,
            rate_limiter,
            valid_paths,
            clock,
            started_at: now,
            stats_cache: None,
            stats_rate_limiter: TokenBucket::new(STATS_RATE_LIMIT_PER_MINUTE, now),
            enable_status,
        }
    }

    /// Takes over the paths of a sitemap that was fetched anew. If it could not be fetched or
    /// lists none, the paths stay. Tells whether they were taken over.
    pub fn refresh_paths(&mut self, fetched: Result<PathSet, Error>) -> (replaced: bool)
        requires
            old(self).wf(),
            fetched_acceptable(fetched),
        ensures
            final(self).wf(),
            final(self).own_clock() == old(self).own_clock(),
            replaced == (fetched_paths(fetched) is Some),
            final(self)@ == match fetched_paths(fetched) {
                Some(listed) => (AppView { valid_paths: listed, ..old(self)@ }),
                None => old(self)@,
            },
    {
        if let Ok(listed) = fetched {
            if !listed.is_empty() {
                self.valid_paths = listed;
                return true;
            }
        }
        false
    }

    /// Forgets the buckets of paths that were not filled in the five minutes before `now`.
    pub fn cleanup_at(&mut self, now: Instant)
        requires
            old(self).wf(),
        ensures
            final(self).wf(),
            final(self).own_clock() == old(self).own_clock(),
            final(self)@ == (AppView { limiter: old(self)@.limiter.cleaned(now), ..old(self)@ }),
    {
        self.rate_limiter.cleanup_at(now);
        assert(self@ =~= (AppView { limiter: old(self)@.limiter.cleaned(now), ..old(self)@ }));
    }

    /// Forgets the buckets of paths that were not filled in the last five minutes.
    pub fn cleanup(&mut self)
        requires
            old(self).wf(),
        ensures
            final(self).wf(),
            final(self).own_clock() == old(self).own_clock(),
            exists|now: Instant| #[trigger]
                old(self).own_clock().reads(now) && final(self)@ == (AppView {
                    limiter: old(self)@.limiter.cleaned(now),
                    ..old(self)@
                }),
    {
        let now = self.clock.now();
        self.cleanup_at(now);
    }

    /// The scan that gathers the statistics.
    pub fn scan_request(&self) -> (r: ScanRequest)
        ensures
            r.table_name@ == self@.table_name,
            r.projection_expression@ == "#p, dateHour, #v"@,
            r.path_attribute@ == "path"@,
            r.count_attribute@ == "views"@,
    {
        scan_request(self.table_name.as_str())
    }

    /// Decides on a view that comes in at `now`, `secs` seconds after the start of 1970: `Ok(None)`
    /// if it is dropped, `Ok` with the write that counts it, or an error if there were too many
    /// for its path.
    pub fn track_view_at(&mut self, body: ViewBody, now: Instant, secs: u64) -> (r: Result<
        Option<ViewUpdate>,
        Error,
    >)
        requires
            old(self).wf(),
        ensures
            final(self).wf(),
            final(self).own_clock() == old(self).own_clock(),
            final(self)@ == old(self)@.after_view(body, now),
            answers_view(old(self)@, body, now, secs, r),
    {
        let path = match body.requested_path() {
            Some(p) => p,
            None => {
                return Ok(None);
            }
        };
        if !self.valid_paths.contains(path.as_str()) {
            return Ok(None);
        }
        if !self.rate_limiter.allow_at(path.as_str(), now) {
            return Err(Error::RateLimited);
        }
        Ok(Some(view_update(self.table_name.as_str(), path, secs)))
    }

    /// Decides on a view that comes in now.
    pub fn track_view(&mut self, body: ViewBody) -> (r: Result<Option<ViewUpdate>, Error>)
        requires
            old(self).wf(),
        ensures
            final(self).wf(),
            final(self).own_clock() == old(self).own_clock(),
            exists|now: Instant, secs: u64, nanos: u32|
                #![trigger old(self).own_clock().reads(now), clock::wall_clock_reads(secs, nanos)]
                old(self).own_clock().reads(now) && clock::wall_clock_reads(secs, nanos)
                    && final(self)@ == old(self)@.after_view(body, now) && answers_view(
                    old(self)@,
                    body,
                    now,
                    secs,
                    r,
                ),
    {
        let now = self.clock.now();
        let (secs, _nanos) = wall_clock();
        self.track_view_at(body, now, secs)
    }

    /// What the server says of itself at `now`; an error if that is switched off.
    pub fn health_status_at(&self, now: Instant) -> (r: Result<StatusResponse, Error>)
        ensures
            answers_status(self@, now, r),
    {
        if !self.enable_status {
            return Err(Error::NotFound);
        }
        Ok(
            StatusResponse {
                status: "ok",
                uptime_seconds: now.secs_since(self.started_at),
                paths_monitored: self.valid_paths.len(),
            },
        )
    }

    /// What the server says of itself now; an error if that is switched off.
    pub fn health_status(&self) -> (r: Result<StatusResponse, Error>)
        ensures
            exists|now: Instant| #[trigger]
                self.own_clock().reads(now) && answers_status(self@, now, r),
    {
        let now = self.clock.now();
        assert(self.own_clock().reads(now));
        self.health_status_at(now)
    }

    /// Decides on a request for the statistics at `now`: an error if there were too many, the
    /// statistics at hand if they are recent enough, and otherwise that they are gathered anew.
    pub fn stats_at(&mut self, now: Instant) -> (r: Result<StatsStep, Error>)
        requires
            old(self).wf(),
        ensures
            final(self).wf(),
            final(self).own_clock() == old(self).own_clock(),
            final(self)@ == old(self)@.after_stats(now),
            answers_stats(old(self)@, now, r),
    {
        if !self.stats_rate_limiter.try_consume(now, STATS_RATE_LIMIT_PER_MINUTE) {
            assert(self@ =~= old(self)@.after_stats(now));
            return Err(Error::RateLimited);
        }
        assert(self@ =~= old(self)@.after_stats(now));
        match &self.stats_cache {
            Some(cached) => {
                if now.secs_since(cached.at) < STATS_CACHE_SECS {
                    return Ok(StatsStep::Answer(cached.data.duplicate()));
                }
            }
            None => {}
        }
        Ok(StatsStep::Claim)
    }

    /// Decides on a request for the statistics now.
    pub fn stats(&mut self) -> (r: Result<StatsStep, Error>)
        requires
            old(self).wf(),
        ensures
            final(self).wf(),
            final(self).own_clock() == old(self).own_clock(),
            exists|now: Instant| #[trigger]
                old(self).own_clock().reads(now) && final(self)@ == old(self)@.after_stats(now)
                    && answers_stats(old(self)@, now, r),
    {
        let now = self.clock.now();
        self.stats_at(now)
    }

    /// The answer to a request for the statistics while another request gathers them: those at
    /// hand, however old, or an error if there are none.
    pub fn stale_stats(&self) -> (r: Result<StatsResponse, Error>)
        ensures
            match r {
                Ok(data) => self@.stats_cache is Some && data@ == self@.stats_cache->0.data,
                Err(e) => self@.stats_cache is None && e == Error::StatsUnavailable,
            },
    {
        match &self.stats_cache {
            Some(cached) => Ok(cached.data.duplicate()),
            None => Err(Error::StatsUnavailable),
        }
    }

    /// Decides on a request for the statistics that has asked for the guard: it gathers them if it
    /// got the guard, and otherwise is answered while another request does so.
    pub fn claim(&self, guard: Option<RefreshGuard>) -> (r: Result<ClaimStep, Error>)
        ensures
            match r {
                Ok(ClaimStep::Gather(g)) => guard == Some(g),
                Ok(ClaimStep::Answer(data)) => guard is None && self@.stats_cache is Some && data@
                    == self@.stats_cache->0.data,
                Err(e) => guard is None && self@.stats_cache is None && e
                    == Error::StatsUnavailable,
            },
    {
        match guard {
            Some(g) => Ok(ClaimStep::Gather(g)),
            None => match self.stale_stats() {
                Ok(data) => Ok(ClaimStep::Answer(data)),
                Err(e) => Err(e),
            },
        }
    }

    /// Keeps the statistics that were gathered at `now`.
    pub fn store_stats_at(&mut self, data: StatsResponse, now: Instant)
        requires
            old(self).wf(),
        ensures
            final(self).wf(),
            final(self).own_clock() == old(self).own_clock(),
            final(self)@ == old(self)@.with_stats(now, data@),
    {
        self.stats_cache = Some(CachedStats { at: now, data });
        assert(self@ =~= old(self)@.with_stats(now, data@));
    }

    /// Keeps the statistics that were gathered just now.
    pub fn store_stats(&mut self, data: StatsResponse)
        requires
            old(self).wf(),
        ensures
            final(self).wf(),
            final(self).own_clock() == old(self).own_clock(),
            exists|now: Instant| #[trigger]
                old(self).own_clock().reads(now) && final(self)@ == old(self)@.with_stats(
                    now,
                    data@,
                ),
    {
        let now = self.clock.now();
        self.store_stats_at(data, now);
    }

    /// Decides by chance whether the statistics at hand, if there are any, are gathered anew
    /// ahead of time.
    pub fn wants_early_refresh(&self) -> (r: bool)
        ensures
            self@.stats_cache is None ==> !r,
            self@.stats_cache is Some ==> exists|now: Instant, secs: u64, nanos: u32|
                #![trigger self.own_clock().reads(now), clock::wall_clock_reads(secs, nanos)]
                self.own_clock().reads(now) && clock::wall_clock_reads(secs, nanos) && r
                    == handlers::early_refresh(
                    clock::elapsed_secs(now, self@.stats_cache->0.at),
                    handlers::mixed(nanos as nat),
                ),
    {
        match &self.stats_cache {
            Some(cached) => {
                assert(self@.stats_cache->0.at == cached.at && self.own_clock() == self.clock);
                should_early_refresh(cached.at, &self.clock)
            }
            None => false,
        }
    }
}

/// Whether `r` is the decision on a view with `body` that comes in at `now`, `secs` seconds after
/// the start of 1970.
pub open spec fn answers_view(
    state: AppView,
    body: ViewBody,
    now: Instant,
    secs: u64,
    r: Result<Option<ViewUpdate>, Error>,
) -> bool {
    match body.requested() {
        None => r matches Ok(None),
        Some(path) => if !state.valid_paths.contains(path) {
            r matches Ok(None)
        } else if !state.limiter.allows(path, now) {
            r matches Err(e) && e == Error::RateLimited
        } else {
            r matches Ok(Some(update)) && update@ == handlers::update_for(
                state.table_name,
                path,
                secs as nat,
            )
        },
    }
}

/// Whether `r` is what the server says of itself at `now`.
pub open spec fn answers_status(
    state: AppView,
    now: Instant,
    r: Result<StatusResponse, Error>,
) -> bool {
    match r {
        Ok(status) => state.enable_status && status.status@ == "ok"@ && status.uptime_seconds
            == clock::elapsed_secs(now, state.started_at) && status.paths_monitored
            == state.valid_paths.len(),
        Err(e) => !state.enable_status && e == Error::NotFound,
    }
}

/// Whether `r` is the decision on a request for the statistics at `now`.
pub open spec fn answers_stats(
    state: AppView,
    now: Instant,
    r: Result<StatsStep, Error>,
) -> bool {
    match r {
        Err(e) => !state.stats_bucket.grants(now, STATS_RATE_LIMIT_PER_MINUTE as nat) && e
            == Error::RateLimited,
        Ok(StatsStep::Answer(data)) => state.stats_bucket.grants(
            now,
            STATS_RATE_LIMIT_PER_MINUTE as nat,
        ) && state.cache_is_fresh(now) && data@ == state.stats_cache->0.data,
        Ok(StatsStep::Claim) => state.stats_bucket.grants(now, STATS_RATE_LIMIT_PER_MINUTE as nat)
            && !state.cache_is_fresh(now),
    }
}

/// Whatever a client sends, what is written on its account is a path that the sitemap lists, and
/// the hour: the write does not depend on anything else in the request.
pub proof fn only_listed_paths_are_written(
    state: AppView,
    body: ViewBody,
    now: Instant,
    secs: u64,
    r: Result<Option<ViewUpdate>, Error>,
)
    requires
        state.sound(),
        answers_view(state, body, now, secs, r),
        r matches Ok(Some(_)),
    ensures
        state.valid_paths.contains(r->Ok_0->0@.path),
        sitemap::valid_path(r->Ok_0->0@.path),
        state.limiter.allows(r->Ok_0->0@.path, now),
        r->Ok_0->0@ == handlers::update_for(state.table_name, r->Ok_0->0@.path, secs as nat),
{
}

/// A body that names a listed path, with slashes at its end or without, asks to count that path.
pub proof fn slashes_at_the_end_do_not_matter(
    state: AppView,
    path: Seq<char>,
    slashes: nat,
    sent: String,
)
    requires
        state.sound(),
        state.valid_paths.contains(path),
        sent@ == path + Seq::new(slashes, |i: int| '/'),
        vstd::utf8::encode_utf8(sent@).len() <= sitemap::MAX_PATH_BYTES,
    ensures
        ViewBody::View(Some(sent)).requested() == Some(path),
{
    lemma_slashes_are_cut(path, slashes);
}

/// Cutting the slashes off the end cuts off those that were appended.
proof fn lemma_slashes_are_cut(path: Seq<char>, slashes: nat)
    ensures
        text::trimmed(path + Seq::new(slashes, |i: int| '/')) == text::trimmed(path),
    decreases slashes,
{
    let longer = path + Seq::new(slashes, |i: int| '/');
    if slashes == 0 {
        assert(longer =~= path);
    } else {
        lemma_slashes_are_cut(path, (slashes - 1) as nat);
        assert(longer.drop_last() =~= path + Seq::new((slashes - 1) as nat, |i: int| '/'));
    }
}

/// Something that happens to the server.
pub enum Happening {
    /// A view with this body comes in at this moment.
    View(ViewBody, Instant),
    /// Idle buckets are forgotten at this moment.
    Cleanup(Instant),
    /// A request for the statistics comes in at this moment.
    Stats(Instant),
    /// These statistics are kept at this moment.
    Kept(stats::StatsView, Instant),
    /// These paths are taken over from a sitemap.
    Listed(Set<Seq<char>>),
}

impl Happening {
    /// When it happens, if that makes a difference.
    pub open spec fn moment(self) -> Option<Instant> {
        match self {
            Happening::View(_, now) => Some(now),
            Happening::Cleanup(now) => Some(now),
            Happening::Stats(now) => Some(now),
            Happening::Kept(_, now) => Some(now),
            Happening::Listed(_) => None,
        }
    }

    /// Whether this is a view of `path`, which `state` lists.
    pub open spec fn asks_for(self, state: AppView, path: Seq<char>) -> bool {
        self matches Happening::View(body, _) && body.requested() == Some(path)
            && state.valid_paths.contains(path)
    }
}

impl AppView {
    /// After one more happening.
    pub open spec fn after(self, h: Happening) -> AppView {
        match h {
            Happening::View(body, now) => self.after_view(body, now),
            Happening::Cleanup(now) => AppView { limiter: self.limiter.cleaned(now), ..self },
            Happening::Stats(now) => self.after_stats(now),
            Happening::Kept(data, now) => self.with_stats(now, data),
            Happening::Listed(paths) => AppView { valid_paths: paths, ..self },
        }
    }
}

/// The server after all of `run` has happened.
pub open spec fn after_run(state: AppView, run: Seq<Happening>) -> AppView
    decreases run.len(),
{
    if run.len() == 0 {
        state
    } else {
        after_run(state, run.drop_last()).after(run.last())
    }
}

/// Whether the moments of `run` are in order.
pub open spec fn in_order(run: Seq<Happening>) -> bool {
    forall|i: int, j: int|
        0 <= i <= j < run.len() && (#[trigger] run[i]).moment() is Some && (
        #[trigger] run[j]).moment() is Some ==> run[i].moment()->0.nanos_since_start()
            <= run[j].moment()->0.nanos_since_start()
}

/// The moments at which, in the course of `run`, views of `path` come in while it is listed.
pub open spec fn asked_at(state: AppView, run: Seq<Happening>, path: Seq<char>) -> Seq<Instant>
    decreases run.len(),
{
    if run.len() == 0 {
        Seq::empty()
    } else {
        let before = asked_at(state, run.drop_last(), path);
        if run.last().asks_for(after_run(state, run.drop_last()), path) {
            before.push(run.last().moment()->0)
        } else {
            before
        }
    }
}

/// Of each of these views, whether it is counted.
pub open spec fn decisions(state: AppView, run: Seq<Happening>, path: Seq<char>) -> Seq<bool>
    decreases run.len(),
{
    if run.len() == 0 {
        Seq::empty()
    } else {
        let now = after_run(state, run.drop_last());
        let before = decisions(state, run.drop_last(), path);
        if run.last().asks_for(now, path) {
            before.push(now.counts(path, run.last().moment()->0))
        } else {
            before
        }
    }
}

/// How many of these views are counted.
pub open spec fn counted(state: AppView, run: Seq<Happening>, path: Seq<char>) -> nat
    decreases run.len(),
{
    if run.len() == 0 {
        0
    } else {
        let now = after_run(state, run.drop_last());
        counted(state, run.drop_last(), path) + if run.last().asks_for(now, path) && now.counts(
            path,
            run.last().moment()->0,
        ) {
            1nat
        } else {
            0nat
        }
    }
}

/// The bucket that decides on the views of `path` in the course of `run`.
pub open spec fn deciding_bucket(
    state: AppView,
    run: Seq<Happening>,
    path: Seq<char>,
) -> rate_limit::BucketState {
    state.limiter.bucket(path, asked_at(state, run, path)[0])
}

/// The same bucket, as the first of these views finds it.
pub open spec fn found_bucket(
    state: AppView,
    run: Seq<Happening>,
    path: Seq<char>,
) -> rate_limit::BucketState {
    deciding_bucket(state, run, path).refilled(asked_at(state, run, path)[0], 60)
}

/// Whatever else happens in between, be it views of other paths, cleanups, requests for the
/// statistics or a new sitemap, the views of a path are decided on by its own bucket alone, as if
/// nothing else had happened and no bucket were ever forgotten.
pub proof fn a_path_is_decided_on_by_its_own_bucket(
    state: AppView,
    run: Seq<Happening>,
    path: Seq<char>,
)
    requires
        state.sound(),
        in_order(run),
        asked_at(state, run, path).len() > 0,
    ensures
        decisions(state, run, path).len() == asked_at(state, run, path).len(),
        forall|k: int|
            0 <= k < decisions(state, run, path).len() ==> (#[trigger] decisions(state, run, path)[k]
                <==> rate_limit::passes(
                deciding_bucket(state, run, path),
                asked_at(state, run, path),
                k,
                60,
            )),
        counted(state, run, path) == rate_limit::passed(
            deciding_bucket(state, run, path),
            asked_at(state, run, path),
            60,
        ),
{
    let bucket = deciding_bucket(state, run, path);
    assert(run.take(run.len() as int) =~= run);
    lemma_run_goes_through_the_bucket(state, run, path, bucket, run.len() as int);
}

/// Whether, after some of a run, the limiter decides on `path` as `bucket` does: it holds that
/// bucket, or has forgotten it when it was at least a minute old, or has none yet.
spec fn stands_for(
    limiter: rate_limit::LimiterState,
    path: Seq<char>,
    bucket: rate_limit::BucketState,
    run: Seq<Happening>,
    n: int,
) -> bool {
    if limiter.buckets.contains_key(path) {
        limiter.buckets[path] == bucket
    } else {
        forall|i: int|
            n <= i < run.len() && (#[trigger] run[i]).moment() is Some ==> clock::elapsed_secs(
                run[i].moment()->0,
                bucket.last_refill,
            ) >= 60
    }
}

/// What holds after the first `n` happenings of a run.
proof fn lemma_run_goes_through_the_bucket(
    state: AppView,
    run: Seq<Happening>,
    path: Seq<char>,
    bucket: rate_limit::BucketState,
    n: int,
)
    requires
        state.sound(),
        in_order(run),
        asked_at(state, run, path).len() > 0,
        bucket == deciding_bucket(state, run, path),
        0 <= n <= run.len(),
    ensures
        ({
            let done = run.take(n);
            let asked = asked_at(state, done, path);
            let now = after_run(state, done);
            &&& now.limiter.capacity == 60
            &&& asked.len() <= asked_at(state, run, path).len()
            &&& asked == asked_at(state, run, path).take(asked.len() as int)
            &&& decisions(state, done, path).len() == asked.len()
            &&& forall|k: int|
                0 <= k < asked.len() ==> (#[trigger] decisions(state, done, path)[k]
                    <==> rate_limit::passes(bucket, asked, k, 60))
            &&& counted(state, done, path) == rate_limit::passed(bucket, asked, 60)
            &&& asked.len() == 0 && !state.limiter.buckets.contains_key(path)
                ==> !now.limiter.buckets.contains_key(path)
            &&& asked.len() > 0 || state.limiter.buckets.contains_key(path) ==> stands_for(
                now.limiter,
                path,
                rate_limit::bucket_after(bucket, asked, 60),
                run,
                n,
            )
        }),
    decreases n,
{
    lemma_asked_is_prefix(state, run, path, n);
    if n == 0 {
        assert(run.take(0) =~= Seq::<Happening>::empty());
    } else {
        lemma_run_goes_through_the_bucket(state, run, path, bucket, n - 1);
        let done = run.take(n);
        let init = run.take(n - 1);
        assert(done.drop_last() =~= init);
        assert(done.last() == run[n - 1]);
        let asked_before = asked_at(state, init, path);
        let asked = asked_at(state, done, path);
        let before = after_run(state, init);
        let last = run[n - 1];
        let held = rate_limit::bucket_after(bucket, asked_before, 60);
        if last.asks_for(before, path) {
            let now = last.moment()->0;
            assert(asked.drop_last() =~= asked_before);
            assert(clock::elapsed_secs(now, now) == 0);
            if asked_before.len() == 0 {
                assert(asked[0] == now);
                assert(asked[0] == asked_at(state, run, path)[0]);
            }
            assert(before.limiter.bucket(path, now).refilled(now, 60) == held.refilled(now, 60));
            assert forall|k: int| 0 <= k < asked.len() implies (#[trigger] decisions(
                state,
                done,
                path,
            )[k] <==> rate_limit::passes(bucket, asked, k, 60)) by {
                if k < asked_before.len() {
                    assert(asked.take(k) =~= asked_before.take(k));
                    assert(decisions(state, init, path)[k] <==> rate_limit::passes(
                        bucket,
                        asked_before,
                        k,
                        60,
                    ));
                } else {
                    assert(asked.take(k) =~= asked_before);
                }
            }
        } else if let Happening::Cleanup(now) = last {
            if before.limiter.buckets.contains_key(path) && !before.limiter.recent(path, now) {
                assert forall|i: int|
                    n <= i < run.len() && (
                    #[trigger] run[i]).moment() is Some implies clock::elapsed_secs(
                    run[i].moment()->0,
                    held.last_refill,
                ) >= 60 by {
                    assert(run[n - 1].moment() == Some(now));
                    assert(now.nanos_since_start() <= run[i].moment()->0.nanos_since_start());
                }
            }
        }
    }
}

/// The views asked for in the first part of a run are the first ones of the whole.
proof fn lemma_asked_is_prefix(state: AppView, run: Seq<Happening>, path: Seq<char>, n: int)
    requires
        0 <= n <= run.len(),
    ensures
        asked_at(state, run.take(n), path).len() <= asked_at(state, run, path).len(),
        asked_at(state, run.take(n), path) == asked_at(state, run, path).take(
            asked_at(state, run.take(n), path).len() as int,
        ),
    decreases run.len(),
{
    if n == run.len() {
        assert(run.take(n) =~= run);
    } else {
        lemma_asked_is_prefix(state, run.drop_last(), path, n);
        assert(run.drop_last().take(n) =~= run.take(n));
        let part = asked_at(state, run.take(n), path);
        assert(asked_at(state, run, path).take(part.len() as int) =~= part);
    }
}

/// Of the views of a listed path in the minute after its bucket was filled, the first ones are
/// counted, as many as the bucket held when the first of them came in, and no other is, whatever
/// else happens in between. These are never more than sixty, and sixty where the path had no bucket
/// or one that was a minute old.
pub proof fn a_path_is_counted_sixty_times_a_minute(
    state: AppView,
    run: Seq<Happening>,
    path: Seq<char>,
)
    requires
        state.sound(),
        in_order(run),
        asked_at(state, run, path).len() > 0,
        forall|k: int|
            0 <= k < asked_at(state, run, path).len() ==> clock::elapsed_secs(
                #[trigger] asked_at(state, run, path)[k],
                found_bucket(state, run, path).last_refill,
            ) < 60,
    ensures
        decisions(state, run, path).len() == asked_at(state, run, path).len(),
        forall|k: int|
            0 <= k < decisions(state, run, path).len() ==> (#[trigger] decisions(state, run, path)[k]
                <==> k < found_bucket(state, run, path).tokens),
        counted(state, run, path) == if asked_at(state, run, path).len() < found_bucket(
            state,
            run,
            path,
        ).tokens {
            asked_at(state, run, path).len()
        } else {
            found_bucket(state, run, path).tokens
        },
        found_bucket(state, run, path).tokens <= 60,
        !state.limiter.buckets.contains_key(path) || clock::elapsed_secs(
            asked_at(state, run, path)[0],
            state.limiter.buckets[path].last_refill,
        ) >= 60 ==> found_bucket(state, run, path).tokens == 60,
{
    let asked = asked_at(state, run, path);
    let bucket = deciding_bucket(state, run, path);
    let found = found_bucket(state, run, path);
    a_path_is_decided_on_by_its_own_bucket(state, run, path);
    rate_limit::a_window_passes_exactly_its_tokens(found, asked, 60);
    assert(clock::elapsed_secs(asked[0], found.last_refill) < 60);
    assert forall|k: int| 0 <= k < asked.len() implies (#[trigger] decisions(state, run, path)[k]
        <==> k < found.tokens) by {
        lemma_refilling_first(bucket, asked, k);
        assert(rate_limit::passes(found, asked, k, 60) <==> k < found.tokens);
    }
    lemma_refilled_passes_the_same(bucket, asked);
}

/// A bucket decides on a run of requests as it does after it was filled for the first of them.
proof fn lemma_refilling_first(bucket: rate_limit::BucketState, times: Seq<Instant>, k: int)
    requires
        0 <= k < times.len(),
    ensures
        k > 0 ==> rate_limit::bucket_after(bucket, times.take(k), 60) == rate_limit::bucket_after(
            bucket.refilled(times[0], 60),
            times.take(k),
            60,
        ),
        rate_limit::passes(bucket, times, k, 60) == rate_limit::passes(
            bucket.refilled(times[0], 60),
            times,
            k,
            60,
        ),
    decreases k,
{
    assert(clock::elapsed_secs(times[0], times[0]) == 0);
    if k == 0 {
        assert(times.take(0) =~= Seq::<Instant>::empty());
    } else {
        lemma_refilling_first(bucket, times, k - 1);
        assert(times.take(k).drop_last() =~= times.take(k - 1));
        assert(times.take(k).last() == times[k - 1]);
        if k == 1 {
            assert(times.take(0) =~= Seq::<Instant>::empty());
        }
    }
}

/// As many requests pass as do after the bucket was filled for the first of them.
proof fn lemma_refilled_passes_the_same(bucket: rate_limit::BucketState, times: Seq<Instant>)
    requires
        times.len() > 0,
    ensures
        rate_limit::passed(bucket, times, 60) == rate_limit::passed(
            bucket.refilled(times[0], 60),
            times,
            60,
        ),
    decreases times.len(),
{
    let init = times.drop_last();
    let last = times.len() - 1;
    assert(times.take(last) =~= init);
    lemma_refilling_first(bucket, times, last);
    if init.len() > 0 {
        assert(init[0] == times[0]);
        lemma_refilled_passes_the_same(bucket, init);
    } else {
        assert(rate_limit::passed(bucket, init, 60) == 0);
        assert(rate_limit::passed(bucket.refilled(times[0], 60), init, 60) == 0);
    }
}

/// In no minute, wherever it starts, are more than twice sixty views of a path counted, whatever
/// else happens in between.
pub proof fn a_path_is_never_counted_more_than_twice_sixty_times_a_minute(
    state: AppView,
    run: Seq<Happening>,
    path: Seq<char>,
)
    requires
        state.sound(),
        in_order(run),
        forall|i: int, j: int|
            0 <= i <= j < asked_at(state, run, path).len() ==> clock::elapsed_secs(
                #[trigger] asked_at(state, run, path)[j],
                #[trigger] asked_at(state, run, path)[i],
            ) < 60,
    ensures
        counted(state, run, path) <= 120,
{
    let asked = asked_at(state, run, path);
    if asked.len() > 0 {
        a_path_is_decided_on_by_its_own_bucket(state, run, path);
        lemma_asked_in_order(state, run, path);
        rate_limit::a_minute_passes_at_most_two_fillings(
            deciding_bucket(state, run, path),
            asked,
            60,
        );
    } else {
        lemma_counted_were_asked(state, run, path);
    }
}

/// Only views that are asked for are counted.
proof fn lemma_counted_were_asked(state: AppView, run: Seq<Happening>, path: Seq<char>)
    ensures
        counted(state, run, path) <= asked_at(state, run, path).len(),
    decreases run.len(),
{
    if run.len() > 0 {
        lemma_counted_were_asked(state, run.drop_last(), path);
    }
}

/// The moments of the views of a path are moments of the run, and in order.
proof fn lemma_asked_in_order(state: AppView, run: Seq<Happening>, path: Seq<char>)
    requires
        in_order(run),
    ensures
        forall|k: int|
            0 <= k < asked_at(state, run, path).len() ==> exists|i: int|
                0 <= i < run.len() && (#[trigger] run[i]).moment() == Some(
                    #[trigger] asked_at(state, run, path)[k],
                ),
        forall|j: int, k: int|
            0 <= j <= k < asked_at(state, run, path).len() ==> (
            #[trigger] asked_at(state, run, path)[j]).nanos_since_start() <= (
            #[trigger] asked_at(state, run, path)[k]).nanos_since_start(),
    decreases run.len(),
{
    if run.len() > 0 {
        let init = run.drop_last();
        assert forall|i: int, j: int|
            0 <= i <= j < init.len() && (#[trigger] init[i]).moment() is Some && (
            #[trigger] init[j]).moment() is Some implies init[i].moment()->0.nanos_since_start()
            <= init[j].moment()->0.nanos_since_start() by {
            assert(init[i] == run[i] && init[j] == run[j]);
        }
        lemma_asked_in_order(state, init, path);
        let before = asked_at(state, init, path);
        let asked = asked_at(state, run, path);
        let last = run.len() - 1;
        assert forall|k: int| 0 <= k < asked.len() implies exists|i: int|
            0 <= i < run.len() && (#[trigger] run[i]).moment() == Some(#[trigger] asked[k]) by {
            if k < before.len() {
                assert(asked[k] == before[k]);
                let i = choose|i: int|
                    0 <= i < init.len() && (#[trigger] init[i]).moment() == Some(before[k]);
                assert(run[i] == init[i]);
            } else {
                assert(run[last].moment() == Some(asked[k]));
            }
        }
        assert forall|j: int, k: int| 0 <= j <= k < asked.len() implies (
        #[trigger] asked[j]).nanos_since_start() <= (#[trigger] asked[k]).nanos_since_start() by {
            if k < before.len() {
                assert(asked[j] == before[j] && asked[k] == before[k]);
            } else {
                let i = choose|i: int|
                    0 <= i < run.len() && (#[trigger] run[i]).moment() == Some(asked[j]);
                assert(run[last].moment() == Some(asked[k]));
                assert(run[i].moment() is Some);
            }
        }
    }
}

/// Once the paths of a sitemap have been taken over, views of other paths are not counted, and the
/// limits on how often a path is counted are what they were.
pub proof fn only_the_latest_sitemap_counts(
    state: AppView,
    listed: Set<Seq<char>>,
    path: Seq<char>,
    now: Instant,
)
    ensures
        (AppView { valid_paths: listed, ..state }).counts(path, now) <==> listed.contains(path)
            && state.limiter.allows(path, now),
{
}

/// The server after requests for the statistics have come in at `times`.
pub open spec fn after_requests(state: AppView, times: Seq<Instant>) -> AppView
    decreases times.len(),
{
    if times.len() == 0 {
        state
    } else {
        after_requests(state, times.drop_last()).after_stats(times.last())
    }
}

/// Of the requests for the statistics in the minute after their limiter was filled, the first ones
/// are let through, as many as it held, and every other one is answered with an error.
pub proof fn statistics_are_limited_per_minute(
    state: AppView,
    times: Seq<Instant>,
    i: int,
    r: Result<StatsStep, Error>,
)
    requires
        0 <= i < times.len(),
        forall|j: int|
            0 <= j < times.len() ==> clock::elapsed_secs(
                #[trigger] times[j],
                state.stats_bucket.last_refill,
            ) < 60,
        answers_stats(after_requests(state, times.take(i)), times[i], r),
    ensures
        r is Ok <==> i < state.stats_bucket.tokens,
        r matches Err(e) ==> e == Error::RateLimited,
{
    let capacity = STATS_RATE_LIMIT_PER_MINUTE as nat;
    rate_limit::a_window_passes_exactly_its_tokens(state.stats_bucket, times, capacity);
    lemma_requests_go_through_the_bucket(state, times.take(i));
    assert(rate_limit::passes(state.stats_bucket, times, i, capacity) <==> i
        < state.stats_bucket.tokens);
}

/// Requests for the statistics change the limiter's bucket and nothing else.
proof fn lemma_requests_go_through_the_bucket(state: AppView, times: Seq<Instant>)
    ensures
        after_requests(state, times) == (AppView {
            stats_bucket: rate_limit::bucket_after(
                state.stats_bucket,
                times,
                STATS_RATE_LIMIT_PER_MINUTE as nat,
            ),
            ..state
        }),
    decreases times.len(),
{
    if times.len() > 0 {
        lemma_requests_go_through_the_bucket(state, times.drop_last());
    }
}

/// Statistics that were kept are what a request gets that is let through while they are recent.
pub proof fn kept_statistics_are_read_back(
    state: AppView,
    kept_at: Instant,
    data: stats::StatsView,
    now: Instant,
    r: Result<StatsStep, Error>,
)
    requires
        answers_stats(state.with_stats(kept_at, data), now, r),
        clock::elapsed_secs(now, kept_at) < STATS_CACHE_SECS,
        state.stats_bucket.grants(now, STATS_RATE_LIMIT_PER_MINUTE as nat),
    ensures
        r matches Ok(StatsStep::Answer(answer)) && answer@ == data,
{
}

/// The right to gather the statistics: while it lasts, the flag is set. It ends when the guard is
/// dropped, also by a panic.
pub struct RefreshGuard(pub Arc<AtomicBool>);

impl RefreshGuard {
    /// Takes the right to gather the statistics, unless someone has it: unless the flag was set.
    /// It does so by exchanging `false` for `true` in the flag, and gets the guard exactly if that
    /// succeeds. Which of several callers succeeds is the flag's to say: what an atomic holds is not
    /// part of its value here.
    pub fn acquire(flag: &Arc<AtomicBool>) -> (guard: Option<RefreshGuard>)
        ensures
            exists|exchanged: Result<bool, bool>|
                #[trigger] call_ensures(
                    AtomicBool::compare_exchange,
                    (&**flag, false, true, Ordering::Acquire, Ordering::Relaxed),
                    exchanged,
                ) && (guard is Some <==> exchanged is Ok),
            guard matches Some(g) ==> g.0 == *flag,
    {
        let exchanged = flag.compare_exchange(false, true, Ordering::Acquire, Ordering::Relaxed);
        RefreshGuard::from_exchange(flag, exchanged)
    }

    /// The guard of `flag` if exchanging `false` for `true` in it succeeded; none if it failed.
    pub fn from_exchange(flag: &Arc<AtomicBool>, exchanged: Result<bool, bool>) -> (guard: Option<
        RefreshGuard,
    >)
        ensures
            guard is Some <==> exchanged is Ok,
            guard matches Some(g) ==> g.0 == *flag,
    {
        match exchanged {
            Ok(_) => Some(RefreshGuard(Arc::clone(flag))),
            Err(_) => None,
        }
    }
}

/// Whether `flag` was cleared by a store of `false`.
pub closed spec fn flag_cleared(flag: AtomicBool) -> bool {
    call_ensures(clear, (&flag,), ())
}

impl Drop for RefreshGuard {
    /// Clears the flag.
    fn drop(&mut self)
        ensures
            flag_cleared(*old(self).0),
        opens_invariants none
        no_unwind
    {
        clear(&self.0);
    }
}

/// Clears `flag`: `AtomicBool::store` with `false`. What an atomic holds is not part of its value
/// here, so nothing is claimed of it; claimed is only that the call does not panic.
#[verifier::external_body]
fn clear(flag: &AtomicBool)
    opens_invariants none
    no_unwind
{
    flag.store(false, Ordering::Release);
}

/// The number of views per path and minute.
pub proof fn the_limit_of_views()
    ensures
        MAX_REQUESTS_PER_MINUTE == 60,
{
}

/// `path` with so many slashes behind it.
pub open spec fn with_slashes(path: Seq<char>, slashes: nat) -> Seq<char> {
    path + Seq::new(slashes, |i: int| '/')
}

/// Whether a bucket lets a request at `now` pass: there is none yet, it holds a token, or sixty
/// seconds have passed since it was filled.
pub open spec fn has_room(
    buckets: Map<Seq<char>, rate_limit::BucketState>,
    path: Seq<char>,
    now: Instant,
) -> bool {
    !buckets.contains_key(path) || buckets[path].tokens > 0 || now.nanos_since_start()
        - buckets[path].last_refill.nanos_since_start() >= 60_000_000_000
}

/// A view of a listed path, with any number of slashes at the end and up to 128 bytes, is written,
/// under that path, the server's table and the hour in which it came in, exactly if there is room;
/// if there is none, it is refused. It takes a token of that path, and changes nothing else.
pub proof fn a_view_of_a_listed_path_is_written_if_there_is_room(
    s: &mut AppState,
    sent: String,
    path: Seq<char>,
    slashes: nat,
    now: Instant,
    secs: u64,
    r: Result<Option<ViewUpdate>, Error>,
)
    requires
        old(s).wf(),
        call_ensures(
            AppState::track_view_at,
            (s, ViewBody::View(Some(sent)), now, secs),
            r,
        ),
        old(s)@.valid_paths.contains(path),
        sent@ == with_slashes(path, slashes),
        vstd::utf8::encode_utf8(sent@).len() <= 128,
    ensures
        has_room(old(s)@.limiter.buckets, path, now) ==> (r matches Ok(Some(update))
            && update.path@ == path && update.table_name@ == old(s)@.table_name
            && time::tells_an_hour(update.date_hour@) && time::start_of_hour(update.date_hour@)
            <= secs < time::start_of_hour(update.date_hour@) + 3600),
        !has_room(old(s)@.limiter.buckets, path, now) ==> (r matches Err(e) && e
            == Error::RateLimited),
        only_the_limiter_changed(old(s)@, final(s)@),
        ({
            let before = old(s)@.limiter.buckets;
            let after = final(s)@.limiter.buckets;
            let fresh = !before.contains_key(path) || now.nanos_since_start()
                - before[path].last_refill.nanos_since_start() >= 60_000_000_000;
            &&& after.contains_key(path)
            &&& fresh ==> after[path].tokens == 59 && after[path].last_refill == now
            &&& !fresh && before[path].tokens > 0 ==> after[path].tokens == before[path].tokens - 1
                && after[path].last_refill == before[path].last_refill
            &&& !fresh && before[path].tokens == 0 ==> after[path] == before[path]
            &&& forall|other: Seq<char>|
                other != path ==> (#[trigger] after.contains_key(other) <==> before.contains_key(
                    other,
                )) && (before.contains_key(other) ==> after[other] == before[other])
        }),
{
    slashes_at_the_end_do_not_matter(old(s)@, path, slashes, sent);
    time::lemma_hour_is_told(secs as nat);
}

/// Whether two states of a server differ in the limiter of views alone, which keeps its capacity.
pub open spec fn only_the_limiter_changed(before: AppView, after: AppView) -> bool {
    &&& after.table_name == before.table_name
    &&& after.valid_paths == before.valid_paths
    &&& after.started_at == before.started_at
    &&& after.stats_cache == before.stats_cache
    &&& after.stats_bucket == before.stats_bucket
    &&& after.enable_status == before.enable_status
    &&& after.limiter.capacity == before.limiter.capacity
}

/// Nothing else is written or refused: a write is of a listed path that the body names, with slashes
/// at the end or without, in up to 128 bytes, and for which there is room. A body that names no
/// such path is dropped and changes nothing.
pub proof fn nothing_but_views_of_listed_paths_is_written(
    s: &mut AppState,
    body: ViewBody,
    now: Instant,
    secs: u64,
    r: Result<Option<ViewUpdate>, Error>,
)
    requires
        old(s).wf(),
        call_ensures(AppState::track_view_at, (s, body, now, secs), r),
    ensures
        r matches Ok(Some(update)) ==> names(body, update.path@) && old(s)@.valid_paths.contains(
            update.path@,
        ) && has_room(old(s)@.limiter.buckets, update.path@, now),
        r is Err ==> exists|path: Seq<char>| #[trigger]
            names(body, path) && old(s)@.valid_paths.contains(path) && !has_room(
                old(s)@.limiter.buckets,
                path,
                now,
            ),
        (forall|path: Seq<char>| #[trigger]
            names(body, path) ==> !old(s)@.valid_paths.contains(path)) ==> r == Ok::<
            Option<ViewUpdate>,
            Error,
        >(None) && final(s)@ == old(s)@,
        r matches Ok(None) ==> forall|path: Seq<char>| #[trigger]
            names(body, path) ==> !old(s)@.valid_paths.contains(path),
{
    if let Some(path) = body.requested() {
        lemma_requested_is_named(body, path);
    }
    if r == Ok::<Option<ViewUpdate>, Error>(None) {
        assert forall|path: Seq<char>| #[trigger] names(body, path) implies !old(
            s,
        )@.valid_paths.contains(path) by {
            if old(s)@.valid_paths.contains(path) {
                let sent = body->View_0->0;
                if exists|k: nat| sent@ == #[trigger] with_slashes(path, k) {
                    let k = choose|k: nat| sent@ == #[trigger] with_slashes(path, k);
                    slashes_at_the_end_do_not_matter(old(s)@, path, k, sent);
                } else {
                    lemma_slashes_name_the_root(sent, path);
                }
            }
        }
    }
}

/// Whether `body` names `path`: in 1 to 128 bytes it holds the path and slashes behind it, or slashes
/// alone where the path is the root.
pub open spec fn names(body: ViewBody, path: Seq<char>) -> bool {
    body matches ViewBody::View(Some(sent)) && sent@.len() > 0 && vstd::utf8::encode_utf8(
        sent@,
    ).len() <= 128 && ((exists|k: nat| sent@ == #[trigger] with_slashes(path, k)) || (path == seq![
        '/',
    ] && forall|i: int| 0 <= i < sent@.len() ==> #[trigger] sent@[i] == '/'))
}

/// Slashes alone name the root.
proof fn lemma_slashes_name_the_root(sent: String, path: Seq<char>)
    requires
        path == seq!['/'],
        sent@.len() > 0,
        vstd::utf8::encode_utf8(sent@).len() <= 128,
        forall|i: int| 0 <= i < sent@.len() ==> #[trigger] sent@[i] == '/',
    ensures
        ViewBody::View(Some(sent)).requested() == Some(path),
{
    text::trimming_cuts_exactly_the_slashes(sent@);
    let t = text::trimmed(sent@);
    if t.len() > 0 {
        assert(t[t.len() - 1] == sent@[t.len() - 1]);
    }
}

/// The path that a body asks for is one that it names.
proof fn lemma_requested_is_named(body: ViewBody, path: Seq<char>)
    requires
        body.requested() == Some(path),
    ensures
        names(body, path),
{
    let sent = body->View_0->0;
    text::trimming_cuts_exactly_the_slashes(sent@);
    let t = text::trimmed(sent@);
    if t.len() > 0 {
        let k = (sent@.len() - t.len()) as nat;
        assert(sent@ =~= with_slashes(path, k));
    } else {
        assert forall|i: int| 0 <= i < sent@.len() implies #[trigger] sent@[i] == '/' by {}
    }
}

/// How many of the results of a run are writes of `path`, where `results[i]` is what came of
/// `run[i]`.
pub open spec fn writes_of(
    run: Seq<Happening>,
    results: Seq<Result<Option<ViewUpdate>, Error>>,
    path: Seq<char>,
) -> nat
    decreases run.len(),
{
    if run.len() == 0 {
        0
    } else {
        writes_of(run.drop_last(), results, path) + if run.last() is View && (
        results[run.len() - 1] matches Ok(Some(update)) && update.path@ == path) {
            1nat
        } else {
            0nat
        }
    }
}

/// Over any run there are as many writes of a path as views of it are counted.
pub proof fn as_many_writes_as_counted_views(
    state: AppView,
    run: Seq<Happening>,
    secs: Seq<u64>,
    results: Seq<Result<Option<ViewUpdate>, Error>>,
    path: Seq<char>,
)
    requires
        forall|i: int|
            #![trigger run[i]]
            0 <= i < run.len() ==> (run[i] matches Happening::View(body, now) ==> answers_view(
                after_run(state, run.take(i)),
                body,
                now,
                secs[i],
                results[i],
            )),
    ensures
        writes_of(run, results, path) == counted(state, run, path),
    decreases run.len(),
{
    if run.len() > 0 {
        let init = run.drop_last();
        let last = run.len() - 1;
        assert forall|i: int| #![trigger init[i]] 0 <= i < init.len() implies (
        init[i] matches Happening::View(body, now) ==> answers_view(
            after_run(state, init.take(i)),
            body,
            now,
            secs[i],
            results[i],
        )) by {
            assert(run[i] == init[i]);
            assert(run.take(i) =~= init.take(i));
        }
        as_many_writes_as_counted_views(state, init, secs, results, path);
        assert(run.take(last) =~= init);
        assert(run[last] == run.last());
    }
}

/// A request for the statistics is let through if the limiter holds a token or is sixty seconds old.
/// It is then answered with the statistics at hand if they were kept less than 300 seconds ago, and
/// in no other case; otherwise they are gathered anew. It changes the limiter alone.
pub proof fn statistics_are_answered_for_five_minutes(
    s: &mut AppState,
    now: Instant,
    r: Result<StatsStep, Error>,
)
    requires
        old(s).wf(),
        call_ensures(AppState::stats_at, (s, now), r),
    ensures
        ({
            let bucket = old(s)@.stats_bucket;
            let refilled = now.nanos_since_start() - bucket.last_refill.nanos_since_start()
                >= 60_000_000_000;
            let passes = refilled || bucket.tokens > 0;
            let cache = old(s)@.stats_cache;
            let recent = cache is Some && now.nanos_since_start() - cache->0.at.nanos_since_start()
                < 300_000_000_000;
            let after = final(s)@.stats_bucket;
            &&& !passes ==> r is Err && r->Err_0 == Error::RateLimited
            &&& passes && recent ==> r is Ok && r->Ok_0 is Answer && r->Ok_0->Answer_0@
                == cache->0.data
            &&& passes && !recent ==> r is Ok && r->Ok_0 is Claim
            &&& refilled ==> after.tokens == 11 && after.last_refill == now
            &&& !refilled ==> after.last_refill == bucket.last_refill && after.tokens
                == if bucket.tokens > 0 {
                bucket.tokens - 1
            } else {
                0
            }
            &&& final(s)@ == (AppView { stats_bucket: after, ..old(s)@ })
        }),
{
}

/// Once the statistics are to be gathered anew, they are so at every later moment until others are
/// kept: a request that is let through then is not answered with those at hand.
pub proof fn old_statistics_stay_old(
    s: &mut AppState,
    now: Instant,
    r: Result<StatsStep, Error>,
    t: &mut AppState,
    later: Instant,
    q: Result<StatsStep, Error>,
)
    requires
        old(s).wf(),
        old(t).wf(),
        call_ensures(AppState::stats_at, (s, now), r),
        r matches Ok(StatsStep::Claim),
        old(t)@.stats_cache == final(s)@.stats_cache,
        now.nanos_since_start() <= later.nanos_since_start(),
        call_ensures(AppState::stats_at, (t, later), q),
        q is Ok,
    ensures
        q matches Ok(StatsStep::Claim),
{
    statistics_are_answered_for_five_minutes(s, now, r);
    statistics_are_answered_for_five_minutes(t, later, q);
}

/// Statistics that are kept are what a request gets that is let through within 300 seconds, and from
/// then on none gets them.
pub proof fn kept_statistics_are_answered_for_five_minutes(
    s: &mut AppState,
    data: StatsResponse,
    at: Instant,
    t: &mut AppState,
    now: Instant,
    r: Result<StatsStep, Error>,
)
    requires
        old(s).wf(),
        call_ensures(AppState::store_stats_at, (s, data, at), ()),
        old(t).wf(),
        old(t)@ == final(s)@,
        call_ensures(AppState::stats_at, (t, now), r),
        r is Ok,
    ensures
        now.nanos_since_start() - at.nanos_since_start() < 300_000_000_000 ==> (r matches Ok(
            StatsStep::Answer(answer),
        ) && answer@ == data@),
        now.nanos_since_start() - at.nanos_since_start() >= 300_000_000_000 ==> (r matches Ok(
            StatsStep::Claim,
        )),
        final(s)@ == (AppView { stats_cache: final(s)@.stats_cache, ..old(s)@ }),
{
    statistics_are_answered_for_five_minutes(t, now, r);
}

/// While another request gathers the statistics, one is answered with those at hand, however old,
/// and with an error exactly if there are none; the one with the guard gathers them.
pub proof fn stale_statistics_are_better_than_none(
    s: &AppState,
    guard: Option<RefreshGuard>,
    r: Result<ClaimStep, Error>,
)
    requires
        call_ensures(AppState::claim, (s, guard), r),
    ensures
        guard is Some ==> r is Ok && r->Ok_0 is Gather && r->Ok_0->Gather_0 == guard->0,
        guard is None && s@.stats_cache is Some ==> r is Ok && r->Ok_0 is Answer
            && r->Ok_0->Answer_0@ == s@.stats_cache->0.data,
        guard is None && s@.stats_cache is None ==> r is Err && r->Err_0
            == Error::StatsUnavailable,
{
}

/// The status tells the whole seconds since the start and the number of paths, if it is switched on.
pub proof fn the_status_tells_uptime_and_paths(
    s: &AppState,
    now: Instant,
    r: Result<StatusResponse, Error>,
)
    requires
        call_ensures(AppState::health_status_at, (s, now), r),
    ensures
        !s@.enable_status ==> r is Err && r->Err_0 == Error::NotFound,
        s@.enable_status ==> r is Ok && r->Ok_0.status@ == "ok"@ && r->Ok_0.paths_monitored
            == s@.valid_paths.len(),
        s@.enable_status && now.nanos_since_start() >= s@.started_at.nanos_since_start()
            ==> r->Ok_0.uptime_seconds * 1_000_000_000 <= now.nanos_since_start()
            - s@.started_at.nanos_since_start() < (r->Ok_0.uptime_seconds + 1) * 1_000_000_000,
{
}

/// A sitemap that was fetched and lists paths decides which are counted; otherwise they stay as they
/// are, and at the start it is the root alone.
pub proof fn a_sitemap_with_paths_decides_what_is_counted(
    s: &mut AppState,
    fetched: Result<PathSet, Error>,
    replaced: bool,
    initial: PathSet,
)
    requires
        old(s).wf(),
        fetched_acceptable(fetched),
        call_ensures(AppState::refresh_paths, (s, fetched), replaced),
        call_ensures(initial_paths, (fetched,), initial),
    ensures
        ({
            let lists = fetched is Ok && exists|p: Seq<char>| #[trigger] fetched->Ok_0@.contains(p);
            &&& replaced <==> lists
            &&& lists ==> final(s)@.valid_paths == fetched->Ok_0@ && initial@ == fetched->Ok_0@
            &&& !lists ==> final(s)@.valid_paths == old(s)@.valid_paths && forall|p: Seq<char>|
                #[trigger] initial@.contains(p) <==> p == seq!['/']
            &&& final(s)@ == (AppView { valid_paths: final(s)@.valid_paths, ..old(s)@ })
        }),
{
    if fetched is Ok {
        let paths = fetched->Ok_0@;
        if exists|p: Seq<char>| #[trigger] paths.contains(p) {
            let p = choose|p: Seq<char>| #[trigger] paths.contains(p);
            assert(!paths.is_empty()) by {
                if paths.is_empty() {
                    assert(!paths.contains(p));
                }
            }
        } else {
            assert(paths =~= Set::<Seq<char>>::empty());
        }
    }
}

/// A cleanup of the server forgets the buckets that were filled five minutes ago or longer, and
/// changes nothing else.
pub proof fn a_cleanup_of_the_server_forgets_idle_buckets(s: &mut AppState, now: Instant)
    requires
        old(s).wf(),
        call_ensures(AppState::cleanup_at, (s, now), ()),
    ensures
        only_the_limiter_changed(old(s)@, final(s)@),
        forall|k: Seq<char>| #[trigger]
            final(s)@.limiter.buckets.contains_key(k) <==> old(s)@.limiter.buckets.contains_key(k)
                && now.nanos_since_start()
                - old(s)@.limiter.buckets[k].last_refill.nanos_since_start() < 300_000_000_000,
        forall|k: Seq<char>| #[trigger]
            final(s)@.limiter.buckets.contains_key(k) ==> final(s)@.limiter.buckets[k] == old(
                s,
            )@.limiter.buckets[k],
{
}

/// A server starts with all the limits unused and no statistics.
pub proof fn a_server_starts_afresh(
    table_name: String,
    paths: PathSet,
    enable_status: bool,
    s: AppState,
    path: Seq<char>,
    scan: ScanRequest,
)
    requires
        sitemap::acceptable_paths(paths@),
        !paths@.is_empty(),
        call_ensures(AppState::new, (table_name, paths, enable_status), s),
        call_ensures(AppState::scan_request, (&s,), scan),
    ensures
        s@.table_name == table_name@ && s@.valid_paths == paths@ && s@.enable_status
            == enable_status,
        s@.limiter.capacity == 60 && !s@.limiter.buckets.contains_key(path),
        s@.stats_bucket.tokens == 12 && s@.stats_bucket.last_refill == s@.started_at,
        s@.stats_cache is None,
        scan.table_name@ == table_name@,
        scan.projection_expression@ == "#p, dateHour, #v"@ && scan.path_attribute@ == "path"@
            && scan.count_attribute@ == "views"@,
{
}

} // verus!
