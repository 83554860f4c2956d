//! The decisions on requests.
use crate::clock::{self, wall_clock, Clock, Instant};
use crate::error::Error;
use crate::sitemap::{self, normalize, MAX_PATH_BYTES};
use crate::text::{self, push_decimal};
use crate::time::{self, date_hour_at};
use vstd::prelude::*;
use vstd::string::*;

verus! {

/// The longest body of a view that is accepted, in bytes.
pub const MAX_VIEW_BODY_BYTES: usize = 1024;

/// The most views that are stored per path and hour.
pub const MAX_VIEWS_PER_HOUR: u64 = 1000;

/// How long the statistics are kept before they are gathered anew, in seconds.
pub const STATS_CACHE_SECS: u64 = 300;

/// The most requests for the statistics per minute, of all clients together.
pub const STATS_RATE_LIMIT_PER_MINUTE: u32 = 12;

/// What is done with a view, from the head of its request.
#[derive(Clone, Copy, Debug, PartialEq, Eq, Structural)]
pub enum ViewScreening {
    /// It is answered and dropped.
    Ignore,
    /// Its body is read.
    Read,
}

/// Whether a content type is one that views come with: JSON, as `fetch` names it, or the type that
/// a browser gives to a beacon with a string.
pub open spec fn is_view_type(ct: Option<Seq<u8>>) -> bool {
    ct is Some && ("application/json".spec_bytes().is_prefix_of(ct->0)
        || "text/plain;charset=UTF-8".spec_bytes().is_prefix_of(ct->0))
}

/// Tells whether `bytes` starts with `prefix`.
fn has_byte_prefix(bytes: &[u8], prefix: &[u8]) -> (r: bool)
    ensures
        r == prefix@.is_prefix_of(bytes@),
{
    if bytes.len() < prefix.len() {
        return false;
    }
    let mut i: usize = 0;
    while i < prefix.len()
        invariant
            i <= prefix@.len() <= bytes@.len(),
            forall|j: int| 0 <= j < i ==> bytes@[j] == prefix@[j],
        decreases prefix@.len() - i,
    {
        if bytes[i] != prefix[i] {
            assert(bytes@.subrange(0, prefix@.len() as int)[i as int] != prefix@[i as int]);
            return false;
        }
        i = i + 1;
    }
    assert(bytes@.subrange(0, prefix@.len() as int) =~= prefix@);
    true
}

/// The content type that a request names.
pub open spec fn type_bytes(content_type: Option<&[u8]>) -> Option<Seq<u8>> {
    match content_type {
        Some(bytes) => Some(bytes@),
        None => None,
    }
}

/// Decides on a view from its content type and the length of its body. What comes
/// with another type than that of views is dropped; a view that is too long is an error.
pub fn screen_view(content_type: Option<&[u8]>, body_len: usize) -> (r: Result<
    ViewScreening,
    Error,
>)
    ensures
        match r {
            Ok(ViewScreening::Ignore) => !is_view_type(type_bytes(content_type)),
            Ok(ViewScreening::Read) => is_view_type(type_bytes(content_type)) && body_len
                <= MAX_VIEW_BODY_BYTES,
            Err(e) => is_view_type(type_bytes(content_type)) && body_len > MAX_VIEW_BODY_BYTES && e
                == Error::PayloadTooLarge,
        },
{
    let view_type = match content_type {
        Some(bytes) => has_byte_prefix(bytes, "application/json".as_bytes()) || has_byte_prefix(
            bytes,
            "text/plain;charset=UTF-8".as_bytes(),
        ),
        None => false,
    };
    if !view_type {
        Ok(ViewScreening::Ignore)
    } else if body_len > MAX_VIEW_BODY_BYTES {
        Err(Error::PayloadTooLarge)
    } else {
        Ok(ViewScreening::Read)
    }
}

/// What the body of a view was found to be.
pub enum ViewBody {
    /// No JSON object of a view.
    Malformed,
    /// A view, with the path that it names.
    View(Option<String>),
}

impl ViewBody {
    /// The path that this body asks to count: the one it names, normalized, if it is neither
    /// empty nor too long.
    pub open spec fn requested(self) -> Option<Seq<char>> {
        match self {
            ViewBody::View(Some(path)) => if path@.len() == 0 || vstd::utf8::encode_utf8(
                path@,
            ).len() > MAX_PATH_BYTES {
                None
            } else {
                Some(sitemap::normalized(path@))
            },
            _ => None,
        }
    }

    /// The path that this body asks to count.
    pub fn requested_path(self) -> (r: Option<String>)
        ensures
            match r {
                Some(path) => self.requested() == Some(path@),
                None => self.requested() is None,
            },
    {
        match self {
            ViewBody::Malformed => None,
            ViewBody::View(None) => None,
            ViewBody::View(Some(path)) => {
                if path.as_str().is_empty() || path.as_str().as_bytes().len() > MAX_PATH_BYTES {
                    None
                } else {
                    Some(normalize(path.as_str()))
                }
            }
        }
    }
}

/// A write that counts one view, as it goes to DynamoDB.
pub struct ViewUpdate {
    /// The table.
    pub table_name: String,
    /// The partition key `path`.
    pub path: String,
    /// The sort key `dateHour`.
    pub date_hour: String,
    /// What is done to the row.
    pub update_expression: String,
    /// When it is done.
    pub condition_expression: String,
    /// The attribute that `#v` stands for.
    pub count_attribute: String,
    /// The number that `:inc` stands for.
    pub increment: String,
    /// The number that `:max` stands for.
    pub maximum: String,
}

/// What a [`ViewUpdate`] holds.
#[verifier::ext_equal]
pub struct UpdateView {
    pub table_name: Seq<char>,
    pub path: Seq<char>,
    pub date_hour: Seq<char>,
    pub update_expression: Seq<char>,
    pub condition_expression: Seq<char>,
    pub count_attribute: Seq<char>,
    pub increment: Seq<char>,
    pub maximum: Seq<char>,
}

impl View for ViewUpdate {
    type V = UpdateView;

    open spec fn view(&self) -> UpdateView {
        UpdateView {
            table_name: self.table_name@,
            path: self.path@,
            date_hour: self.date_hour@,
            update_expression: self.update_expression@,
            condition_expression: self.condition_expression@,
            count_attribute: self.count_attribute@,
            increment: self.increment@,
            maximum: self.maximum@,
        }
    }
}

/// The write that counts a view of `path` at `secs` seconds after the start of 1970. It holds the
/// path and the hour, and nothing else of the request.
pub open spec fn update_for(table_name: Seq<char>, path: Seq<char>, secs: nat) -> UpdateView {
    UpdateView {
        table_name,
        path,
        date_hour: time::date_hour_text(secs),
        update_expression: "ADD #v :inc"@,
        condition_expression: "attribute_not_exists(#v) OR #v < :max"@,
        count_attribute: "views"@,
        increment: "1"@,
        maximum: text::decimal(MAX_VIEWS_PER_HOUR as nat),
    }
}

/// Makes the write that counts a view of `path` at `secs` seconds after the start of 1970.
pub fn view_update(table_name: &str, path: String, secs: u64) -> (r: ViewUpdate)
    ensures
        r@ == update_for(table_name@, path@, secs as nat),
{
    let mut maximum = String::new();
    push_decimal(&mut maximum, MAX_VIEWS_PER_HOUR);
    assert(maximum@ =~= text::decimal(MAX_VIEWS_PER_HOUR as nat));
    ViewUpdate {
        table_name: table_name.to_string(),
        path,
        date_hour: date_hour_at(secs),
        update_expression: "ADD #v :inc".to_string(),
        condition_expression: "attribute_not_exists(#v) OR #v < :max".to_string(),
        count_attribute: "views".to_string(),
        increment: "1".to_string(),
        maximum,
    }
}

impl UpdateView {
    /// The counter that this write leaves where it finds `stored`, by what its two expressions
    /// say: it adds the increment where there is no counter, or one below the maximum.
    pub open spec fn stored_after(self, stored: Option<int>) -> Option<int> {
        let increment = text::integer_of(self.increment)->0;
        let maximum = text::integer_of(self.maximum)->0;
        match stored {
            None => Some(increment),
            Some(n) => if n < maximum {
                Some(n + increment)
            } else {
                Some(n)
            },
        }
    }
}

/// How DynamoDB answered a write.
pub enum WriteReply {
    /// The view was counted.
    Stored,
    /// The condition did not hold: the hour's maximum is reached.
    CapReached,
    /// Anything else; holds the cause.
    Failed(String),
}

/// The HTTP status that answers a view which was written: 204, whatever the database said.
pub fn view_status(_reply: &WriteReply) -> (r: u16)
    ensures
        r == 204,
{
    204
}

/// Whether the statistics are gathered anew ahead of time, when they are `elapsed` seconds old.
/// `draw` is a random number, as the numerator over `u32::MAX`; the chance rises from none at four
/// fifths of their lifetime to certainty at its end.
pub open spec fn early_refresh(elapsed: nat, draw: nat) -> bool {
    elapsed >= 300 || (elapsed >= 240 && draw * 60 < (elapsed - 240) * 0xffff_ffff)
}

/// Decides whether the statistics are gathered anew ahead of time.
pub fn early_refresh_due(elapsed: u64, draw: u32) -> (r: bool)
    ensures
        r == early_refresh(elapsed as nat, draw as nat),
{
    let start: u64 = STATS_CACHE_SECS * 4 / 5;
    if elapsed < start {
        return false;
    }
    if elapsed >= STATS_CACHE_SECS {
        return true;
    }
    let window: u64 = STATS_CACHE_SECS / 5;
    let into_window: u64 = elapsed - start;
    assert(draw * window == draw * 60 && draw * 60 <= 0x100_0000_0000) by (nonlinear_arith)
        requires
            window == 60,
            draw <= 0xffff_ffff,
    ;
    (draw as u64) * window < into_window * 0xffff_ffff
}

/// Decides by chance whether statistics gathered at `cached_at` are gathered anew ahead of time.
pub fn should_early_refresh(cached_at: Instant, running: &Clock) -> (r: bool)
    ensures
        exists|now: Instant, secs: u64, nanos: u32|
            #![trigger running.reads(now), clock::wall_clock_reads(secs, nanos)]
            running.reads(now) && clock::wall_clock_reads(secs, nanos) && r == early_refresh(
                clock::elapsed_secs(now, cached_at),
                mixed(nanos as nat),
            ),
{
    let now = running.now();
    let elapsed: u64 = now.secs_since(cached_at);
    let draw: u32 = rand_simple();
    early_refresh_due(elapsed, draw)
}

/// Spreads the nanoseconds of a second over all numbers of 32 bits.
pub open spec fn mixed(nanos: nat) -> nat {
    (nanos * 2654435761) % 0x1_0000_0000
}

/// Spreads the nanoseconds of a second over all numbers of 32 bits.
pub fn mix(nanos: u32) -> (r: u32)
    ensures
        r == mixed(nanos as nat),
{
    nanos.wrapping_mul(2654435761)
}

/// A random number of 32 bits, from the clock's jitter. Taken as the numerator over `u32::MAX` it
/// lies in `[0, 1)`.
pub fn rand_simple() -> (r: u32)
    ensures
        exists|secs: u64, nanos: u32| #[trigger]
            clock::wall_clock_reads(secs, nanos) && r == mixed(nanos as nat),
        r < u32::MAX,
{
    let (_secs, nanos) = wall_clock();
    proof {
        lemma_mixed_is_below_one(nanos as nat);
    }
    mix(nanos)
}

/// No nanoseconds of a second are spread to the largest number of 32 bits: the one number that is,
/// is larger than they are.
proof fn lemma_mixed_is_below_one(nanos: nat)
    requires
        nanos < 1_000_000_000,
    ensures
        mixed(nanos) < 0xffff_ffff,
{
    if mixed(nanos) == 0xffff_ffff {
        let q = (nanos * 2654435761) / 0x1_0000_0000 + 1;
        assert(nanos * 2654435761 + 1 == q * 0x1_0000_0000);
        let k = q * 244002641 - nanos * 150801925;
        assert(nanos + 244002641 == k * 0x1_0000_0000);
    }
}

/// The older the statistics, the more draws lead to their being gathered anew; none does before
/// four fifths of their lifetime, and all do from its end on.
pub proof fn early_refresh_gets_likelier(elapsed: nat, older: nat, draw: nat)
    requires
        elapsed <= older,
    ensures
        early_refresh(elapsed, draw) ==> early_refresh(older, draw),
        elapsed < 240 ==> !early_refresh(elapsed, draw),
        elapsed >= STATS_CACHE_SECS ==> early_refresh(elapsed, draw),
{
}

/// A write of this library adds one view where there is no counter or one below the hour's
/// maximum, and leaves every other counter as it is; so it brings no counter past the maximum.
pub proof fn no_counter_passes_the_cap(
    table_name: Seq<char>,
    path: Seq<char>,
    secs: nat,
    stored: Option<int>,
)
    ensures
        stored is None ==> update_for(table_name, path, secs).stored_after(stored) == Some(1int),
        stored is Some && stored->0 < MAX_VIEWS_PER_HOUR ==> update_for(
            table_name,
            path,
            secs,
        ).stored_after(stored) == Some(stored->0 + 1),
        stored is Some && stored->0 >= MAX_VIEWS_PER_HOUR ==> update_for(
            table_name,
            path,
            secs,
        ).stored_after(stored) == stored,
        stored is None || stored->0 <= MAX_VIEWS_PER_HOUR ==> update_for(
            table_name,
            path,
            secs,
        ).stored_after(stored)->0 <= MAX_VIEWS_PER_HOUR,
{
    reveal_strlit("1");
    assert("1"@ =~= text::decimal(1));
    text::a_written_number_reads_back(1);
    text::a_written_number_reads_back(MAX_VIEWS_PER_HOUR as nat);
}

/// The limits on views and statistics.
pub proof fn the_limits_of_requests()
    ensures
        MAX_VIEW_BODY_BYTES == 1024,
        MAX_VIEWS_PER_HOUR == 1000,
        STATS_CACHE_SECS == 300,
        STATS_RATE_LIMIT_PER_MINUTE == 12,
{
}

/// A view is read if it comes as JSON or as a beacon's text and has at most 1024 bytes, refused if
/// it is longer, and dropped if it comes as anything else.
pub proof fn views_are_screened_by_type_and_length(
    content_type: Option<&[u8]>,
    body_len: usize,
    r: Result<ViewScreening, Error>,
)
    requires
        call_ensures(screen_view, (content_type, body_len), r),
    ensures
        ({
            let known = content_type is Some && ("application/json".spec_bytes().is_prefix_of(
                content_type->0@,
            ) || "text/plain;charset=UTF-8".spec_bytes().is_prefix_of(content_type->0@));
            &&& !known ==> r == Ok::<ViewScreening, Error>(ViewScreening::Ignore)
            &&& known && body_len <= 1024 ==> r == Ok::<ViewScreening, Error>(
                ViewScreening::Read,
            )
            &&& known && body_len > 1024 ==> r == Err::<ViewScreening, Error>(
                Error::PayloadTooLarge,
            )
        }),
{
}

/// A body asks to count the path that it names, without slashes at its end, if that has between one
/// and 128 bytes; any other body asks for nothing.
pub proof fn bodies_ask_for_the_path_they_name(
    body: ViewBody,
    named: &str,
    normal: String,
    r: Option<String>,
)
    requires
        call_ensures(ViewBody::requested_path, (body,), r),
        call_ensures(normalize, (named,), normal),
        body matches ViewBody::View(Some(path)) ==> path@ == named@,
    ensures
        body matches ViewBody::View(Some(path)) && 1 <= vstd::utf8::encode_utf8(path@).len() <= 128
            ==> (r matches Some(p) && p@ == normal@),
        body matches ViewBody::View(Some(path)) && vstd::utf8::encode_utf8(path@).len() > 128
            ==> r is None,
        body matches ViewBody::View(Some(path)) && path@.len() == 0 ==> r is None,
        body matches ViewBody::View(None) ==> r is None,
        body is Malformed ==> r is None,
{
    if named@.len() == 0 {
        assert(vstd::utf8::encode_utf8(named@).len() == 0);
    }
}

/// The write of a view names the path, the table, and the hour in which the view came in: two views
/// of a path go to the same row exactly if they came in the same hour. It adds one to the attribute
/// `views` as long as that is below a thousand or missing.
pub proof fn a_view_is_written_under_its_hour(
    table_name: &str,
    path: String,
    secs: u64,
    r: ViewUpdate,
    other_secs: u64,
    other: ViewUpdate,
)
    requires
        call_ensures(view_update, (table_name, path, secs), r),
        call_ensures(view_update, (table_name, path, other_secs), other),
    ensures
        r.table_name@ == table_name@,
        r.path@ == path@,
        time::tells_an_hour(r.date_hour@),
        time::start_of_hour(r.date_hour@) <= secs < time::start_of_hour(r.date_hour@) + 3600,
        r.date_hour@ == other.date_hour@ <==> secs / 3600 == other_secs / 3600,
        r.update_expression@ == "ADD #v :inc"@,
        r.condition_expression@ == "attribute_not_exists(#v) OR #v < :max"@,
        r.count_attribute@ == "views"@,
        text::integer_of(r.increment@) == Some(1int),
        text::integer_of(r.maximum@) == Some(1000int),
{
    time::lemma_hour_is_told(secs as nat);
    time::lemma_hour_is_told(other_secs as nat);
    if secs / 3600 == other_secs / 3600 {
        assert(secs / 86400 == other_secs / 86400);
        assert((secs % 86400) / 3600 == (other_secs % 86400) / 3600);
    }
    reveal_strlit("1");
    assert("1"@ =~= text::decimal(1));
    text::a_written_number_reads_back(1);
    text::a_written_number_reads_back(1000);
}

/// A view is written under an hour whose text starts with the text of a day exactly if it came in on
/// that day. Both days are to lie before the year 10000.
pub proof fn a_view_is_written_under_its_day(
    table_name: &str,
    path: String,
    secs: u64,
    r: ViewUpdate,
    day_secs: u64,
    day: String,
)
    requires
        call_ensures(view_update, (table_name, path, secs), r),
        call_ensures(time::date_at, (day_secs,), day),
        time::date_of_days((secs / 86400) as int).year <= 9999,
        time::date_of_days((day_secs / 86400) as int).year <= 9999,
    ensures
        day@.is_prefix_of(r.date_hour@) <==> secs / 86400 == day_secs / 86400,
{
    time::hours_start_with_their_day(secs as nat, day_secs as nat);
    let s = r.date_hour@;
    if day@.len() <= s.len() {
        assert(s.take(day@.len() as int) =~= s.subrange(0, day@.len() as int));
    }
}

/// Between four fifths of their lifetime and its end, the statistics are gathered anew by exactly
/// those draws that make up as large a part of all as has passed of that time; none before, and all
/// after.
pub proof fn the_chance_rises_with_the_age(elapsed: u64, draw: u32, r: bool, below: int)
    requires
        call_ensures(early_refresh_due, (elapsed, draw), r),
        240 <= elapsed ==> 60 * (below - 1) < (elapsed - 240) * u32::MAX <= 60 * below,
    ensures
        elapsed < 240 ==> !r,
        240 <= elapsed < 300 ==> (r <==> draw < below),
        elapsed >= 300 ==> r,
{
}

/// The nanoseconds are spread by multiplication, what does not fit in 32 bits being dropped; so
/// different ones give different numbers.
pub proof fn spreading_is_a_multiplication(nanos: u32, other: u32, r: u32, s: u32)
    requires
        call_ensures(mix, (nanos,), r),
        call_ensures(mix, (other,), s),
    ensures
        exists|q: int| nanos * 2654435761 == #[trigger] (q * 0x1_0000_0000) + r,
        nanos != other ==> r != s,
{
    let q = (nanos * 2654435761) / 0x1_0000_0000;
    let p = (other * 2654435761) / 0x1_0000_0000;
    assert(nanos * 2654435761 == q * 0x1_0000_0000 + r);
    assert(other * 2654435761 == p * 0x1_0000_0000 + s);
    if r == s {
        let k = (q - p) * 244002641 - (nanos - other) * 150801925;
        assert((nanos - other) * 2654435761 == (q - p) * 0x1_0000_0000);
        assert(nanos - other == k * 0x1_0000_0000);
    }
}

/// A view that was written is answered with 204, whatever the database said.
pub proof fn a_written_view_has_no_content(reply: &WriteReply, r: u16)
    requires
        call_ensures(view_status, (reply,), r),
    ensures
        r == 204,
{
}

} // verus!
