//! The paths that a sitemap lists.
use crate::error::Error;
use crate::text::{self, strip_prefix, trim_end_slashes};
use quick_xml::events::Event;
use quick_xml::Reader;
use vstd::hash_set::StringHashSet;
use vstd::prelude::*;
use vstd::string::*;

verus! {

/// The longest sitemap that is accepted, in bytes.
pub const MAX_SITEMAP_BYTES: u64 = 1_048_576;

/// The most paths that are taken from a sitemap.
pub const MAX_SITEMAP_PATHS: usize = 500;

/// The longest path that is accepted, in bytes.
pub const MAX_PATH_BYTES: usize = 128;

/// A set of paths.
pub type PathSet = StringHashSet;

/// Whether `c` is a letter or a number of some script, as the Unicode tables of the standard
/// library have it.
pub uninterp spec fn unicode_alphanumeric(c: char) -> bool;

/// Looks `c` up in the Unicode tables: `char::is_alphanumeric`. The result is named, not stated:
/// it is the tables' content.
#[verifier::external_body]
fn is_alphanumeric(c: char) -> (r: bool)
    ensures
        r == unicode_alphanumeric(c),
{
    c.is_alphanumeric()
}

/// Whether `c` may stand in a path: an ASCII letter or digit, a hyphen, a slash, or a letter or
/// number beyond ASCII.
pub open spec fn path_char(c: char) -> bool {
    if c <= '\u{7f}' {
        'a' <= c <= 'z' || 'A' <= c <= 'Z' || '0' <= c <= '9' || c == '-' || c == '/'
    } else {
        unicode_alphanumeric(c)
    }
}

/// Whether two slashes follow each other in `s`.
pub open spec fn has_double_slash(s: Seq<char>) -> bool {
    exists|i: int| 0 <= i < s.len() - 1 && #[trigger] s[i] == '/' && s[i + 1] == '/'
}

/// Whether `s` is a path that may be counted.
pub open spec fn valid_path(s: Seq<char>) -> bool {
    &&& s.len() > 0
    &&& s[0] == '/'
    &&& vstd::utf8::encode_utf8(s).len() <= MAX_PATH_BYTES
    &&& !has_double_slash(s)
    &&& forall|i: int| 0 <= i < s.len() ==> path_char(#[trigger] s[i])
}

/// Tells whether `c` may stand in a path.
fn is_path_char(c: char) -> (r: bool)
    ensures
        r == path_char(c),
{
    if c <= '\u{7f}' {
        ('a' <= c && c <= 'z') || ('A' <= c && c <= 'Z') || ('0' <= c && c <= '9') || c == '-' || c
            == '/'
    } else {
        is_alphanumeric(c)
    }
}

/// Tells whether `path` is a path that may be counted.
pub fn is_valid_path(path: &str) -> (r: bool)
    ensures
        r == valid_path(path@),
{
    if path.as_bytes().len() > MAX_PATH_BYTES {
        return false;
    }
    let mut first = true;
    let mut after_slash = false;
    for c in it: path.chars()
        invariant
            it.seq() == path@,
            first == (it.index() == 0),
            it.index() > 0 ==> path@[0] == '/',
            it.index() > 0 ==> after_slash == (path@[it.index() - 1] == '/'),
            it.index() == 0 ==> !after_slash,
            forall|i: int| 0 <= i < it.index() ==> path_char(#[trigger] path@[i]),
            forall|i: int|
                0 <= i < it.index() - 1 ==> !(#[trigger] path@[i] == '/' && path@[i + 1] == '/'),
    {
        let ghost n = it.index() as int;
        assert(path@[n] == c);
        if first && c != '/' {
            return false;
        }
        if c == '/' && after_slash {
            assert(path@[n - 1] == '/' && path@[n - 1 + 1] == '/');
            return false;
        }
        if !is_path_char(c) {
            return false;
        }
        first = false;
        after_slash = c == '/';
    }
    !first
}

/// `s` without the slashes at its end, or a single slash if nothing else is left.
pub open spec fn normalized(s: Seq<char>) -> Seq<char> {
    if text::trimmed(s).len() == 0 {
        seq!['/']
    } else {
        text::trimmed(s)
    }
}

/// Cuts the slashes off the end of `s`, and leaves one if nothing else is left.
pub fn normalize(s: &str) -> (r: String)
    ensures
        r@ == normalized(s@),
{
    let cut = trim_end_slashes(s);
    if cut.is_empty() {
        proof {
            reveal_strlit("/");
            assert("/"@ =~= seq!['/']);
        }
        "/".to_string()
    } else {
        cut.to_string()
    }
}

/// A pull parser over XML text.
#[verifier::external_type_specification]
#[verifier::external_body]
#[verifier::reject_recursive_types(R)]
pub struct ExReader<R>(Reader<R>);

/// One step through an XML text.
pub enum XmlEvent {
    /// A start tag with this name.
    Start(Vec<u8>),
    /// An end tag with this name.
    End(Vec<u8>),
    /// Character data, as it stands in the text.
    Text(Vec<u8>),
    /// An empty element, a comment, a CDATA section, a declaration or an instruction.
    Other,
    /// Text that is not XML.
    Malformed,
    /// The end of the text.
    Eof,
}

/// What an [`XmlEvent`] holds.
pub enum EventView {
    Start(Seq<u8>),
    End(Seq<u8>),
    Text(Seq<u8>),
    Other,
    Malformed,
    Eof,
}

impl View for XmlEvent {
    type V = EventView;

    open spec fn view(&self) -> EventView {
        match self {
            XmlEvent::Start(name) => EventView::Start(name@),
            XmlEvent::End(name) => EventView::End(name@),
            XmlEvent::Text(raw) => EventView::Text(raw@),
            XmlEvent::Other => EventView::Other,
            XmlEvent::Malformed => EventView::Malformed,
            XmlEvent::Eof => EventView::Eof,
        }
    }
}

/// The events of an XML text before its end.
pub uninterp spec fn xml_events(xml: Seq<u8>) -> Seq<EventView>;

/// The events before the end that a reader has yet to give.
pub uninterp spec fn pending_events(reader: Reader<&[u8]>) -> Seq<EventView>;

/// Starts to read an XML text: `quick_xml::Reader::from_reader`. Claimed is that the reader has
/// yet to give all events of the text. The reader counts the brackets of a document type
/// declaration in 32 bits, so the text must not be longer than that.
#[verifier::external_body]
fn open_xml(xml: &[u8]) -> (reader: Reader<&[u8]>)
    requires
        xml@.len() <= i32::MAX,
    ensures
        pending_events(reader) == xml_events(xml@),
{
    Reader::from_reader(xml)
}

/// Reads the next event: `quick_xml::Reader::read_event_into`. Claimed is that the events come
/// out in their order, each once, and then the end, as often as it is asked for.
#[verifier::external_body]
fn next_event(reader: &mut Reader<&[u8]>) -> (event: XmlEvent)
    ensures
        pending_events(*old(reader)).len() == 0 ==> event@ == EventView::Eof && pending_events(
            *final(reader),
        ) == pending_events(*old(reader)),
        pending_events(*old(reader)).len() > 0 ==> event@ != EventView::Eof && event@
            == pending_events(*old(reader))[0] && pending_events(*final(reader)) == pending_events(
            *old(reader),
        ).drop_first(),
{
    let mut buf = Vec::new();
    match reader.read_event_into(&mut buf) {
        Ok(Event::Start(tag)) => XmlEvent::Start(tag.name().as_ref().to_vec()),
        Ok(Event::End(tag)) => XmlEvent::End(tag.name().as_ref().to_vec()),
        Ok(Event::Text(text)) => XmlEvent::Text(text.into_inner().into_owned()),
        Ok(Event::Eof) => XmlEvent::Eof,
        Ok(_) => XmlEvent::Other,
        Err(_) => XmlEvent::Malformed,
    }
}

/// Character data with its escapes (`&amp;` and the like) replaced; `None` if one of them is
/// unknown or broken.
pub uninterp spec fn unescaped(raw: Seq<char>) -> Option<Seq<char>>;

/// Replaces the escapes in character data: `quick_xml::escape::unescape`. The result is named;
/// claimed of it is only that data without an ampersand stays as it is.
#[verifier::external_body]
fn unescape(raw: &str) -> (r: Option<String>)
    ensures
        r is Some <==> unescaped(raw@) is Some,
        r matches Some(s) ==> unescaped(raw@) == Some(s@),
        !raw@.contains('&') ==> r is Some && r->0@ == raw@,
{
    quick_xml::escape::unescape(raw).ok().map(|s| s.into_owned())
}

/// Reads bytes as UTF-8: `std::str::from_utf8`, which the standard library documents to give back
/// the same bytes as a string if they are valid UTF-8, and an error otherwise.
#[verifier::external_body]
fn decode(bytes: &[u8]) -> (r: Option<&str>)
    ensures
        r is Some <==> vstd::utf8::valid_utf8(bytes@),
        r matches Some(s) ==> vstd::utf8::encode_utf8(s@) == bytes@,
{
    std::str::from_utf8(bytes).ok()
}

/// The path of `url` on the site at `origin`: what follows the origin, normalized, if that is a
/// path that may be counted.
pub open spec fn path_under(url: Seq<char>, origin: Seq<char>) -> Option<Seq<char>> {
    if text::has_prefix(url, origin) && valid_path(normalized(url.skip(origin.len() as int))) {
        Some(normalized(url.skip(origin.len() as int)))
    } else {
        None
    }
}

/// The path of `url` on the site at `site_origin`.
pub fn path_of_url(url: &str, site_origin: &str) -> (r: Option<String>)
    ensures
        match r {
            Some(path) => path_under(url@, site_origin@) == Some(path@),
            None => path_under(url@, site_origin@) is None,
        },
{
    match strip_prefix(url, site_origin) {
        None => None,
        Some(rest) => {
            let path = normalize(rest);
            if is_valid_path(path.as_str()) {
                Some(path)
            } else {
                None
            }
        }
    }
}

/// The path that the character data `raw` of a `loc` element adds: that of the URL which it
/// writes, if it is UTF-8 and its escapes are sound.
pub open spec fn listed_path(raw: Seq<u8>, origin: Seq<char>) -> Option<Seq<char>> {
    if !vstd::utf8::valid_utf8(raw) {
        None
    } else {
        match unescaped(vstd::utf8::decode_utf8(raw)) {
            None => None,
            Some(url) => path_under(url, origin),
        }
    }
}

/// The path that the character data `raw` of a `loc` element adds. Where it holds no escapes, it
/// writes the URL as it is.
pub fn path_of_loc(raw: &[u8], site_origin: &str) -> (r: Option<String>)
    ensures
        match r {
            Some(path) => listed_path(raw@, site_origin@) == Some(path@),
            None => listed_path(raw@, site_origin@) is None,
        },
        vstd::utf8::valid_utf8(raw@) && !vstd::utf8::decode_utf8(raw@).contains('&') ==> match r {
            Some(path) => path_under(vstd::utf8::decode_utf8(raw@), site_origin@) == Some(path@),
            None => path_under(vstd::utf8::decode_utf8(raw@), site_origin@) is None,
        },
{
    match decode(raw) {
        None => None,
        Some(data) => {
            proof {
                vstd::utf8::encode_utf8_decode_utf8(data@);
            }
            match unescape(data) {
                None => None,
                Some(url) => path_of_url(url.as_str(), site_origin),
            }
        }
    }
}

/// The bytes of the name `loc`.
pub open spec fn loc_name() -> Seq<u8> {
    seq![0x6c, 0x6f, 0x63]
}

/// Tells whether `name` is `loc`.
fn is_loc(name: &Vec<u8>) -> (r: bool)
    ensures
        r == (name@ == loc_name()),
{
    let r = name.len() == 3 && name[0] == 0x6c && name[1] == 0x6f && name[2] == 0x63;
    assert(r ==> name@ =~= loc_name());
    r
}

/// The paths found so far on the way through a sitemap.
pub struct PathCollector {
    paths: PathSet,
    inside_loc: bool,
    done: bool,
}

/// What a [`PathCollector`] holds.
pub struct CollectorState {
    /// The paths found so far.
    pub paths: Set<Seq<char>>,
    /// Whether a `loc` element is open and its character data has not come yet.
    pub inside_loc: bool,
    /// Whether the rest of the sitemap is not looked at.
    pub done: bool,
}

impl View for PathCollector {
    type V = CollectorState;

    closed spec fn view(&self) -> CollectorState {
        CollectorState { paths: self.paths@, inside_loc: self.inside_loc, done: self.done }
    }
}

impl CollectorState {
    /// Before the first event.
    pub open spec fn start() -> CollectorState {
        CollectorState { paths: Set::empty(), inside_loc: false, done: false }
    }

    /// After one more event.
    pub open spec fn after(self, event: EventView, origin: Seq<char>) -> CollectorState {
        if self.done {
            self
        } else {
            match event {
                EventView::Start(name) => CollectorState {
                    inside_loc: self.inside_loc || name == loc_name(),
                    ..self
                },
                EventView::End(name) => CollectorState {
                    inside_loc: self.inside_loc && name != loc_name(),
                    ..self
                },
                EventView::Text(raw) => if !self.inside_loc {
                    self
                } else if self.paths.len() >= MAX_SITEMAP_PATHS {
                    CollectorState { done: true, ..self }
                } else {
                    CollectorState {
                        paths: match listed_path(raw, origin) {
                            Some(path) => self.paths.insert(path),
                            None => self.paths,
                        },
                        inside_loc: false,
                        done: false,
                    }
                },
                EventView::Other => self,
                EventView::Malformed | EventView::Eof => CollectorState { done: true, ..self },
            }
        }
    }
}

/// What has been collected after `events`.
pub open spec fn collected(events: Seq<EventView>, origin: Seq<char>) -> CollectorState
    decreases events.len(),
{
    if events.len() == 0 {
        CollectorState::start()
    } else {
        collected(events.drop_last(), origin).after(events.last(), origin)
    }
}

impl PathCollector {
    /// A collector that has seen nothing.
    pub fn new() -> (r: PathCollector)
        ensures
            r@ == CollectorState::start(),
    {
        PathCollector { paths: PathSet::new(), inside_loc: false, done: false }
    }

    /// Takes in one more event of the sitemap of the site at `site_origin`.
    pub fn on_event(&mut self, event: &XmlEvent, site_origin: &str)
        ensures
            final(self)@ == old(self)@.after(event@, site_origin@),
    {
        if self.done {
            return;
        }
        match event {
            XmlEvent::Start(name) => {
                if is_loc(name) {
                    self.inside_loc = true;
                }
            }
            XmlEvent::End(name) => {
                if is_loc(name) {
                    self.inside_loc = false;
                }
            }
            XmlEvent::Text(raw) => {
                if self.inside_loc {
                    if self.paths.len() >= MAX_SITEMAP_PATHS {
                        self.done = true;
                    } else {
                        if let Some(path) = path_of_loc(raw.as_slice(), site_origin) {
                            self.paths.insert(path);
                        }
                        self.inside_loc = false;
                    }
                }
            }
            XmlEvent::Other => {}
            XmlEvent::Malformed => {
                self.done = true;
            }
            XmlEvent::Eof => {
                self.done = true;
            }
        }
    }

    /// Tells whether the rest of the sitemap need not be looked at.
    pub fn is_done(&self) -> (r: bool)
        ensures
            r == self@.done,
    {
        self.done
    }

    /// The paths that were found.
    pub fn into_paths(self) -> (r: PathSet)
        ensures
            r@ == self@.paths,
    {
        self.paths
    }
}

/// Once a collector is done, the events that follow change nothing.
proof fn lemma_done_stays(events: Seq<EventView>, k: int, origin: Seq<char>)
    requires
        0 <= k <= events.len(),
        collected(events.take(k), origin).done,
    ensures
        collected(events, origin) == collected(events.take(k), origin),
    decreases events.len(),
{
    if k == events.len() {
        assert(events.take(k) =~= events);
    } else {
        assert(events.drop_last().take(k) =~= events.take(k));
        lemma_done_stays(events.drop_last(), k, origin);
    }
}

/// The paths that a sitemap lists for the site at `site_origin`: those of its `loc` elements
/// whose URL starts with the origin and goes on with a path that may be counted. Reading stops at
/// the first error, and where the most paths are found that are taken.
pub fn parse_sitemap(xml: &[u8], site_origin: &str) -> (paths: PathSet)
    requires
        xml@.len() <= i32::MAX,
    ensures
        paths@ == collected(xml_events(xml@), site_origin@).paths,
        paths@ == first_paths(named_paths(readable(xml_events(xml@)), site_origin@)).to_set(),
        acceptable_paths(paths@),
        forall|path: Seq<char>| #[trigger]
            paths@.contains(path) ==> exists|i: int|
                adds_path(xml_events(xml@), i, site_origin@, path),
{
    let mut reader = open_xml(xml);
    let mut collector = PathCollector::new();
    let ghost events = xml_events(xml@);
    let ghost mut k: int = 0;
    assert(events.skip(0) =~= events);
    while !collector.is_done()
        invariant
            events == xml_events(xml@),
            0 <= k <= events.len(),
            pending_events(reader) == events.skip(k),
            !collector@.done ==> collector@ == collected(events.take(k), site_origin@),
            collector@.done ==> collector@.paths == collected(events, site_origin@).paths,
        decreases
                events.len() - k,
                if collector@.done {
                    0int
                } else {
                    1int
                },
    {
        let event = next_event(&mut reader);
        collector.on_event(&event, site_origin);
        proof {
            if k == events.len() {
                assert(events.take(k) =~= events);
            } else {
                assert(events.take(k + 1).drop_last() =~= events.take(k));
                assert(events.take(k + 1).last() == event@);
                assert(events.skip(k).drop_first() =~= events.skip(k + 1));
                if collector@.done {
                    lemma_done_stays(events, k + 1, site_origin@);
                }
                k = k + 1;
            }
        }
    }
    proof {
        collected_paths_are_acceptable(events, site_origin@);
        the_first_named_paths_are_collected(events, site_origin@);
        assert forall|path: Seq<char>| #[trigger]
            collector@.paths.contains(path) implies exists|i: int|
            adds_path(events, i, site_origin@, path) by {
            collected_paths_stand_in_the_sitemap(events, site_origin@, path);
        }
    }
    collector.into_paths()
}

/// Cutting off the slashes at the end twice is no more than doing it once.
pub proof fn trimming_is_idempotent(s: Seq<char>)
    ensures
        text::trimmed(text::trimmed(s)) == text::trimmed(s),
        text::trimmed(s).len() > 0 ==> text::trimmed(s).last() != '/',
        text::trimmed(s).len() <= s.len(),
    decreases s.len(),
{
    if s.len() > 0 && s.last() == '/' {
        trimming_is_idempotent(s.drop_last());
    }
}

/// Normalizing twice is no more than doing it once.
pub proof fn normalizing_is_idempotent(s: Seq<char>)
    ensures
        normalized(normalized(s)) == normalized(s),
{
    trimming_is_idempotent(s);
    let root = seq!['/'];
    reveal_with_fuel(text::trimmed, 2);
    assert(root.drop_last() =~= Seq::<char>::empty());
    assert(text::trimmed(root) =~= Seq::<char>::empty());
}

/// Whether every path of `paths` may be counted and is normalized, and there are no more of them
/// than are taken from a sitemap.
pub open spec fn acceptable_paths(paths: Set<Seq<char>>) -> bool {
    &&& paths.finite()
    &&& paths.len() <= MAX_SITEMAP_PATHS
    &&& forall|p: Seq<char>| #[trigger]
        paths.contains(p) ==> valid_path(p) && normalized(p) == p
}

/// Whatever a sitemap holds, the paths taken from it may be counted, are normalized, and are no
/// more than the most that are taken.
pub proof fn collected_paths_are_acceptable(events: Seq<EventView>, origin: Seq<char>)
    ensures
        acceptable_paths(collected(events, origin).paths),
    decreases events.len(),
{
    if events.len() > 0 {
        collected_paths_are_acceptable(events.drop_last(), origin);
        if let EventView::Text(raw) = events.last() {
            if let Some(url) = unescaped(vstd::utf8::decode_utf8(raw)) {
                normalizing_is_idempotent(url.skip(origin.len() as int));
            }
        }
    }
}

/// Whether the event at `i` is character data that adds `path`: it comes where a `loc` element was
/// opened that had none yet, before reading stopped, and its URL has that path under the origin.
pub open spec fn adds_path(
    events: Seq<EventView>,
    i: int,
    origin: Seq<char>,
    path: Seq<char>,
) -> bool {
    &&& 0 <= i < events.len()
    &&& events[i] is Text
    &&& listed_path(events[i]->Text_0, origin) == Some(path)
    &&& collected(events.take(i), origin).inside_loc
    &&& !collected(events.take(i), origin).done
}

/// Every path taken from a sitemap stands in it, as the character data of a `loc` element. Nothing
/// else adds one: no comment, no CDATA section, no text elsewhere.
pub proof fn collected_paths_stand_in_the_sitemap(
    events: Seq<EventView>,
    origin: Seq<char>,
    path: Seq<char>,
)
    requires
        collected(events, origin).paths.contains(path),
    ensures
        exists|i: int| adds_path(events, i, origin, path),
    decreases events.len(),
{
    if events.len() > 0 {
        let init = events.drop_last();
        let last = events.len() - 1;
        assert(events.take(last) =~= init);
        if collected(init, origin).paths.contains(path) {
            collected_paths_stand_in_the_sitemap(init, origin, path);
            let i = choose|i: int| adds_path(init, i, origin, path);
            assert(events[i] == init[i]);
            assert(events.take(i) =~= init.take(i));
            assert(adds_path(events, i, origin, path));
        } else {
            assert(adds_path(events, last, origin, path));
        }
    }
}

/// Where a `loc` element counts as open, it was opened before, and since then there was no
/// character data and no end of a `loc` element.
pub proof fn an_open_loc_was_started(events: Seq<EventView>, origin: Seq<char>)
    requires
        collected(events, origin).inside_loc,
        !collected(events, origin).done,
    ensures
        exists|k: int|
            #![trigger events[k]]
            0 <= k < events.len() && events[k] == EventView::Start(loc_name()) && forall|j: int|
                k < j < events.len() ==> !(#[trigger] events[j] is Text) && events[j]
                    != EventView::End(loc_name()),
    decreases events.len(),
{
    if events.len() > 0 {
        let init = events.drop_last();
        let last = events.len() - 1;
        if events[last] == EventView::Start(loc_name()) {
        } else {
            an_open_loc_was_started(init, origin);
            let k = choose|k: int|
                #![trigger init[k]]
                0 <= k < init.len() && init[k] == EventView::Start(loc_name()) && forall|j: int|
                    k < j < init.len() ==> !(#[trigger] init[j] is Text) && init[j]
                        != EventView::End(loc_name());
            assert(events[k] == init[k]);
            assert forall|j: int| k < j < events.len() implies !(#[trigger] events[j] is Text)
                && events[j] != EventView::End(loc_name()) by {
                if j < last {
                    assert(events[j] == init[j]);
                }
            }
        }
    }
}

/// A path that was found is not lost by what follows in the sitemap.
pub proof fn collected_paths_stay(events: Seq<EventView>, k: int, origin: Seq<char>)
    requires
        0 <= k <= events.len(),
    ensures
        collected(events.take(k), origin).paths.subset_of(collected(events, origin).paths),
    decreases events.len(),
{
    if k == events.len() {
        assert(events.take(k) =~= events);
    } else {
        assert(events.drop_last().take(k) =~= events.take(k));
        collected_paths_stay(events.drop_last(), k, origin);
    }
}

/// The character data of an open `loc` element that names a path under the origin adds this path,
/// unless the most paths are found that are taken.
pub proof fn a_listed_path_is_collected(
    events: Seq<EventView>,
    k: int,
    origin: Seq<char>,
    path: Seq<char>,
)
    requires
        adds_path(events, k, origin, path),
        collected(events.take(k), origin).paths.len() < MAX_SITEMAP_PATHS,
    ensures
        collected(events, origin).paths.contains(path),
{
    collected_paths_stay(events, k + 1, origin);
    assert(events.take(k + 1).drop_last() =~= events.take(k));
    assert(events.take(k + 1).last() == events[k]);
}

/// Whether reading stops at `event`: it is an error or the end.
pub open spec fn stops(event: EventView) -> bool {
    event is Malformed || event is Eof
}

/// The events before the first at which reading stops.
pub open spec fn readable(events: Seq<EventView>) -> Seq<EventView>
    decreases events.len(),
{
    if events.len() == 0 {
        events
    } else {
        let init = readable(events.drop_last());
        if init.len() == events.len() - 1 && !stops(events.last()) {
            events
        } else {
            init
        }
    }
}

/// Whether after `events` a `loc` element is open whose character data has not come yet.
pub open spec fn loc_is_open(events: Seq<EventView>) -> bool
    decreases events.len(),
{
    if events.len() == 0 {
        false
    } else {
        match events.last() {
            EventView::Start(name) => name == loc_name() || loc_is_open(events.drop_last()),
            EventView::End(name) => name != loc_name() && loc_is_open(events.drop_last()),
            EventView::Text(_) => false,
            _ => loc_is_open(events.drop_last()),
        }
    }
}

/// The paths that the character data of `loc` elements names, in the order in which they first
/// come, each once.
pub open spec fn named_paths(events: Seq<EventView>, origin: Seq<char>) -> Seq<Seq<char>>
    decreases events.len(),
{
    if events.len() == 0 {
        Seq::empty()
    } else {
        let before = named_paths(events.drop_last(), origin);
        match events.last() {
            EventView::Text(raw) => if loc_is_open(events.drop_last()) {
                match listed_path(raw, origin) {
                    Some(path) => if before.contains(path) {
                        before
                    } else {
                        before.push(path)
                    },
                    None => before,
                }
            } else {
                before
            },
            _ => before,
        }
    }
}

/// The first paths of `named`, as many as are taken from a sitemap.
pub open spec fn first_paths(named: Seq<Seq<char>>) -> Seq<Seq<char>> {
    if named.len() <= MAX_SITEMAP_PATHS {
        named
    } else {
        named.take(MAX_SITEMAP_PATHS as int)
    }
}

/// The paths taken from a sitemap are the first ones that its `loc` elements name before an error,
/// as many as are taken: none is missed while there are no more, and neither a path that comes
/// again nor an entry that names none uses up a place. A sitemap without errors is read to its end.
pub proof fn the_first_named_paths_are_collected(events: Seq<EventView>, origin: Seq<char>)
    ensures
        collected(events, origin).paths == first_paths(
            named_paths(readable(events), origin),
        ).to_set(),
        named_paths(readable(events), origin).no_duplicates(),
        (forall|i: int| 0 <= i < events.len() ==> !stops(#[trigger] events[i])) ==> readable(events)
            == events,
{
    lemma_readable(events);
    let read = readable(events);
    let k = read.len() as int;
    lemma_collected_are_named(read, origin);
    if k < events.len() {
        assert(events.take(k + 1).drop_last() =~= read);
        assert(events.take(k + 1).last() == events[k]);
        assert(collected(events.take(k + 1), origin).done);
        lemma_done_stays(events, k + 1, origin);
    } else {
        assert(read =~= events);
    }
}

/// What can be read is a start of the events that holds no stop; it is all of them, or the next
/// one stops.
proof fn lemma_readable(events: Seq<EventView>)
    ensures
        readable(events).len() <= events.len(),
        readable(events) == events.take(readable(events).len() as int),
        forall|i: int| 0 <= i < readable(events).len() ==> !stops(#[trigger] readable(events)[i]),
        readable(events).len() < events.len() ==> stops(events[readable(events).len() as int]),
    decreases events.len(),
{
    if events.len() > 0 {
        lemma_readable(events.drop_last());
        let init = readable(events.drop_last());
        if init.len() == events.len() - 1 && !stops(events.last()) {
            assert forall|i: int| 0 <= i < events.len() implies !stops(#[trigger] events[i]) by {
                if i < init.len() {
                    assert(events[i] == init[i]);
                }
            }
            assert(events.take(events.len() as int) =~= events);
        } else {
            assert(events.drop_last().take(init.len() as int) =~= events.take(init.len() as int));
        }
    }
}

/// On the way through events that hold no stop, the paths found are the first ones named.
proof fn lemma_collected_are_named(events: Seq<EventView>, origin: Seq<char>)
    requires
        forall|i: int| 0 <= i < events.len() ==> !stops(#[trigger] events[i]),
    ensures
        named_paths(events, origin).no_duplicates(),
        collected(events, origin).paths == first_paths(named_paths(events, origin)).to_set(),
        collected(events, origin).done ==> named_paths(events, origin).len() >= MAX_SITEMAP_PATHS,
        !collected(events, origin).done ==> named_paths(events, origin).len() <= MAX_SITEMAP_PATHS
            && collected(events, origin).inside_loc == loc_is_open(events),
    decreases events.len(),
{
    if events.len() == 0 {
        assert(first_paths(named_paths(events, origin)).to_set() =~= Set::<Seq<char>>::empty());
    } else {
        let init = events.drop_last();
        assert forall|i: int| 0 <= i < init.len() implies !stops(#[trigger] init[i]) by {
            assert(init[i] == events[i]);
        }
        assert(!stops(events[events.len() - 1]));
        lemma_collected_are_named(init, origin);
        let before = named_paths(init, origin);
        let after = named_paths(events, origin);
        before.unique_seq_to_set();
        if after.len() > before.len() {
            let path = after.last();
            assert(after =~= before.push(path));
            if before.len() >= MAX_SITEMAP_PATHS {
                assert(first_paths(after) =~= first_paths(before));
            } else {
                assert(before.push(path).to_set() =~= before.to_set().insert(path)) by {
                    assert(before.push(path)[before.len() as int] == path);
                    assert forall|p: Seq<char>| before.to_set().contains(p) implies before.push(
                        path,
                    ).to_set().contains(p) by {
                        let i = choose|i: int| 0 <= i < before.len() && before[i] == p;
                        assert(before.push(path)[i] == p);
                    }
                }
            }
        } else if let EventView::Text(raw) = events.last() {
            if loc_is_open(init) && listed_path(raw, origin) is Some {
                let path = listed_path(raw, origin)->0;
                assert(before.to_set().contains(path));
                assert(before.to_set().insert(path) =~= before.to_set());
            }
        }
    }
}

/// A sitemap on its way in.
pub struct SitemapDownload {
    body: Vec<u8>,
}

impl View for SitemapDownload {
    type V = Seq<u8>;

    closed spec fn view(&self) -> Seq<u8> {
        self.body@
    }
}

impl SitemapDownload {
    /// Decides on a response from its head: `Ok(None)` if it is no success, so that there is no
    /// sitemap; an error if its announced length is more than is accepted; otherwise an empty
    /// download.
    pub fn begin(success: bool, content_length: Option<u64>) -> (r: Result<
        Option<SitemapDownload>,
        Error,
    >)
        ensures
            match r {
                Ok(None) => !success,
                Ok(Some(download)) => success && (content_length is Some ==> content_length->0
                    <= MAX_SITEMAP_BYTES) && download@ == Seq::<u8>::empty(),
                Err(e) => success && content_length is Some && content_length->0
                    > MAX_SITEMAP_BYTES && e == Error::SitemapTooLarge(content_length->0),
            },
    {
        if !success {
            return Ok(None);
        }
        let capacity: usize = match content_length {
            Some(len) => {
                if len > MAX_SITEMAP_BYTES {
                    return Err(Error::SitemapTooLarge(len));
                }
                len as usize
            }
            None => 8192,
        };
        Ok(Some(SitemapDownload { body: Vec::with_capacity(capacity) }))
    }

    /// Takes in a piece of the body. Fails as soon as more has come in than is accepted.
    pub fn push(&mut self, chunk: &[u8]) -> (r: Result<(), Error>)
        ensures
            final(self)@ == old(self)@ + chunk@,
            match r {
                Ok(_) => final(self)@.len() <= MAX_SITEMAP_BYTES,
                Err(e) => final(self)@.len() > MAX_SITEMAP_BYTES && e == Error::SitemapTooLarge(
                    final(self)@.len() as u64,
                ),
            },
    {
        self.body.extend_from_slice(chunk);
        assert(self.body@ =~= old(self).body@ + chunk@);
        let len: u64 = self.body.len() as u64;
        if len > MAX_SITEMAP_BYTES {
            Err(Error::SitemapTooLarge(len))
        } else {
            Ok(())
        }
    }

    /// The paths that the sitemap lists, once it has come in.
    pub fn finish(self, site_origin: &str) -> (paths: PathSet)
        requires
            self@.len() <= MAX_SITEMAP_BYTES,
        ensures
            paths@ == collected(xml_events(self@), site_origin@).paths,
            acceptable_paths(paths@),
    {
        parse_sitemap(self.body.as_slice(), site_origin)
    }
}

/// The paths that a sitemap lists once it has come in; none if there is no sitemap.
pub fn listed_paths(download: Option<SitemapDownload>, site_origin: &str) -> (paths: PathSet)
    requires
        download matches Some(d) ==> d@.len() <= MAX_SITEMAP_BYTES,
    ensures
        paths@ == match download {
            Some(d) => collected(xml_events(d@), site_origin@).paths,
            None => Set::empty(),
        },
        acceptable_paths(paths@),
{
    match download {
        Some(d) => d.finish(site_origin),
        None => PathSet::new(),
    }
}

/// The number of bytes in all of `chunks`.
pub open spec fn total_len(chunks: Seq<Seq<u8>>) -> nat
    decreases chunks.len(),
{
    if chunks.len() == 0 {
        0
    } else {
        total_len(chunks.drop_last()) + chunks.last().len()
    }
}

/// The bytes of all of `chunks`, one after the other.
pub open spec fn joined(chunks: Seq<Seq<u8>>) -> Seq<u8>
    decreases chunks.len(),
{
    if chunks.len() == 0 {
        Seq::empty()
    } else {
        joined(chunks.drop_last()) + chunks.last()
    }
}

/// A sitemap that comes in pieces is taken in to its end, all of it, exactly if it is not longer
/// than accepted: then no piece fails, and otherwise some piece does.
pub proof fn a_download_succeeds_exactly_if_short(chunks: Seq<Seq<u8>>)
    ensures
        joined(chunks).len() == total_len(chunks),
        total_len(chunks) <= MAX_SITEMAP_BYTES <==> forall|k: int|
            0 <= k <= chunks.len() ==> joined(#[trigger] chunks.take(k)).len()
                <= MAX_SITEMAP_BYTES,
{
    lemma_joined_len(chunks);
    assert forall|k: int| 0 <= k <= chunks.len() implies joined(
        #[trigger] chunks.take(k),
    ).len() <= total_len(chunks) by {
        lemma_joined_len(chunks.take(k));
        lemma_total_len_grows(chunks, k);
    }
    assert(chunks.take(chunks.len() as int) =~= chunks);
}

/// What comes of a sitemap that comes in as `chunks`: the paths that it lists, or none if a piece
/// fails.
pub open spec fn downloaded(chunks: Seq<Seq<u8>>, origin: Seq<char>) -> Option<Set<Seq<char>>> {
    if forall|k: int|
        0 <= k <= chunks.len() ==> joined(#[trigger] chunks.take(k)).len() <= MAX_SITEMAP_BYTES {
        Some(collected(xml_events(joined(chunks)), origin).paths)
    } else {
        None
    }
}

/// How a sitemap is cut into pieces on its way in makes no difference: what comes of it is what its
/// bytes as a whole list, or a failure if there are too many of them.
pub proof fn pieces_do_not_matter(chunks: Seq<Seq<u8>>, origin: Seq<char>)
    ensures
        downloaded(chunks, origin) == if joined(chunks).len() <= MAX_SITEMAP_BYTES {
            Some(collected(xml_events(joined(chunks)), origin).paths)
        } else {
            None
        },
{
    a_download_succeeds_exactly_if_short(chunks);
}

/// Joining keeps every byte.
proof fn lemma_joined_len(chunks: Seq<Seq<u8>>)
    ensures
        joined(chunks).len() == total_len(chunks),
    decreases chunks.len(),
{
    if chunks.len() > 0 {
        lemma_joined_len(chunks.drop_last());
    }
}

/// The first chunks hold no more than all of them.
proof fn lemma_total_len_grows(chunks: Seq<Seq<u8>>, k: int)
    requires
        0 <= k <= chunks.len(),
    ensures
        total_len(chunks.take(k)) <= total_len(chunks),
    decreases chunks.len(),
{
    if k == chunks.len() {
        assert(chunks.take(k) =~= chunks);
    } else {
        assert(chunks.drop_last().take(k) =~= chunks.take(k));
        lemma_total_len_grows(chunks.drop_last(), k);
    }
}

/// Whether `c` is an ASCII letter, an ASCII digit or a hyphen.
pub open spec fn plain_char(c: char) -> bool {
    'a' <= c <= 'z' || 'A' <= c <= 'Z' || '0' <= c <= '9' || c == '-'
}

/// The path with these segments, a slash in front of each.
pub open spec fn path_of_segments(segments: Seq<Seq<char>>) -> Seq<char>
    decreases segments.len(),
{
    if segments.len() == 0 {
        Seq::empty()
    } else {
        path_of_segments(segments.drop_last()) + seq!['/'] + segments.last()
    }
}

/// The limits on a sitemap and on a path.
pub proof fn the_limits_of_a_sitemap()
    ensures
        MAX_SITEMAP_BYTES == 1_048_576,
        MAX_SITEMAP_PATHS == 500,
        MAX_PATH_BYTES == 128,
{
}

/// A path is refused for four reasons only: it does not start with a slash, it is longer than 128
/// bytes, two slashes follow each other in it, or a character in it is neither a slash nor a hyphen
/// nor a letter or number.
pub proof fn a_path_is_refused_for_four_reasons_only(path: &str, r: bool)
    requires
        call_ensures(is_valid_path, (path,), r),
    ensures
        r <==> {
            &&& path@.len() > 0 && path@[0] == '/'
            &&& vstd::utf8::encode_utf8(path@).len() <= 128
            &&& forall|i: int|
                0 <= i < path@.len() - 1 && #[trigger] path@[i] == '/' ==> path@[i + 1] != '/'
            &&& forall|i: int|
                #![trigger path@[i]]
                0 <= i < path@.len() ==> path@[i] == '/' || plain_char(path@[i]) || (path@[i]
                    > '\u{7f}' && unicode_alphanumeric(path@[i]))
        },
{
    assert(r <==> valid_path(path@));
    if r {
        assert forall|i: int| 0 <= i < path@.len() - 1 && #[trigger] path@[i] == '/' implies path@[i
            + 1] != '/' by {}
    } else {
        if has_double_slash(path@) {
            let i = choose|i: int|
                0 <= i < path@.len() - 1 && #[trigger] path@[i] == '/' && path@[i + 1] == '/';
            assert(path@[i] == '/');
        }
    }
}

/// A path of segments that hold letters, digits and hyphens is accepted, whatever they are and
/// begin with, up to 128 characters in all.
pub proof fn paths_of_plain_segments_are_accepted(
    segments: Seq<Seq<char>>,
    path: &str,
    r: bool,
)
    requires
        call_ensures(is_valid_path, (path,), r),
        path@ == path_of_segments(segments),
        0 < segments.len(),
        path@.len() <= 128,
        forall|i: int| 0 <= i < segments.len() ==> (#[trigger] segments[i]).len() > 0,
        forall|i: int, j: int|
            0 <= i < segments.len() && 0 <= j < segments[i].len() ==> plain_char(
                #[trigger] segments[i][j],
            ),
    ensures
        r,
{
    lemma_plain_segments(segments);
    assert(vstd::utf8::is_ascii_chars(path@));
    vstd::utf8::is_ascii_chars_encode_utf8(path@);
    a_path_is_refused_for_four_reasons_only(path, r);
}

/// Such a path starts with a slash, does not end in one, and holds no two in a row.
proof fn lemma_plain_segments(segments: Seq<Seq<char>>)
    requires
        forall|i: int| 0 <= i < segments.len() ==> (#[trigger] segments[i]).len() > 0,
        forall|i: int, j: int|
            0 <= i < segments.len() && 0 <= j < segments[i].len() ==> plain_char(
                #[trigger] segments[i][j],
            ),
    ensures
        ({
            let p = path_of_segments(segments);
            &&& segments.len() > 0 ==> p.len() > 0 && p[0] == '/' && p.last() != '/'
            &&& forall|i: int|
                0 <= i < p.len() - 1 && #[trigger] p[i] == '/' ==> p[i + 1] != '/'
            &&& forall|i: int|
                0 <= i < p.len() ==> #[trigger] p[i] == '/' || plain_char(p[i])
        }),
    decreases segments.len(),
{
    if segments.len() > 0 {
        let init = segments.drop_last();
        assert forall|i: int| 0 <= i < init.len() implies (#[trigger] init[i]).len() > 0 by {
            assert(init[i] == segments[i]);
        }
        assert forall|i: int, j: int|
            0 <= i < init.len() && 0 <= j < init[i].len() implies plain_char(
            #[trigger] init[i][j],
        ) by {
            assert(init[i] == segments[i]);
            assert(plain_char(segments[i][j]));
        }
        lemma_plain_segments(init);
        let q = path_of_segments(init);
        let last = segments.last();
        let p = path_of_segments(segments);
        let k = segments.len() - 1;
        assert(last == segments[k]);
        assert forall|j: int| 0 <= j < last.len() implies plain_char(#[trigger] last[j]) by {
            assert(plain_char(segments[k][j]));
        }
        assert forall|i: int| 0 <= i < p.len() implies #[trigger] p[i] == '/' || plain_char(
            p[i],
        ) by {
            if i < q.len() {
                assert(p[i] == q[i]);
            } else if i > q.len() {
                assert(p[i] == last[i - q.len() - 1]);
            }
        }
        assert forall|i: int| 0 <= i < p.len() - 1 && #[trigger] p[i] == '/' implies p[i + 1]
            != '/' by {
            if i < q.len() {
                assert(p[i] == q[i]);
                if i + 1 < q.len() {
                    assert(p[i + 1] == q[i + 1]);
                } else {
                    assert(q.last() == q[i]);
                }
            } else if i == q.len() {
                assert(p[i + 1] == last[0]);
            } else {
                assert(p[i] == last[i - q.len() - 1]);
            }
        }
        assert(p.last() == last[last.len() - 1]);
    }
}

/// Whether a path is accepted does not depend on which letters, digits and hyphens stand in it.
pub proof fn plain_characters_are_all_alike(a: &str, b: &str, ra: bool, rb: bool)
    requires
        call_ensures(is_valid_path, (a,), ra),
        call_ensures(is_valid_path, (b,), rb),
        a@.len() == b@.len(),
        forall|i: int|
            0 <= i < a@.len() ==> (#[trigger] a@[i] == '/' && b@[i] == '/') || (plain_char(a@[i])
                && plain_char(b@[i])),
    ensures
        ra == rb,
{
    a_path_is_refused_for_four_reasons_only(a, ra);
    a_path_is_refused_for_four_reasons_only(b, rb);
    assert(vstd::utf8::is_ascii_chars(a@));
    assert(vstd::utf8::is_ascii_chars(b@)) by {
        assert forall|i: int| 0 <= i < b@.len() implies '\0' <= #[trigger] b@[i] <= '\u{7f}' by {
            assert(a@[i] == '/' || plain_char(a@[i]));
        }
    }
    vstd::utf8::is_ascii_chars_encode_utf8(a@);
    vstd::utf8::is_ascii_chars_encode_utf8(b@);
    if ra {
        assert forall|i: int| 0 <= i < b@.len() - 1 && #[trigger] b@[i] == '/' implies b@[i + 1]
            != '/' by {
            assert(a@[i] == '/');
            assert(a@[i + 1] != '/');
        }
        assert forall|i: int|
            #![trigger b@[i]]
            0 <= i < b@.len() implies b@[i] == '/' || plain_char(b@[i]) by {
            assert(a@[i] == '/' || plain_char(a@[i]));
        }
        assert(a@[0] == '/');
    }
    if rb {
        assert forall|i: int| 0 <= i < a@.len() - 1 && #[trigger] a@[i] == '/' implies a@[i + 1]
            != '/' by {
            assert(b@[i] == '/');
            assert(b@[i + 1] != '/');
        }
    }
}

/// Normalizing a text of slashes alone, or an empty one, gives a single slash; normalizing any other
/// cuts off the slashes at its end and nothing else.
pub proof fn normalizing_cuts_exactly_the_slashes(s: &str, r: String)
    requires
        call_ensures(normalize, (s,), r),
    ensures
        r@.len() > 0,
        (forall|i: int| 0 <= i < s@.len() ==> #[trigger] s@[i] == '/') ==> r@ == seq!['/'],
        (exists|i: int| 0 <= i < s@.len() && #[trigger] s@[i] != '/') ==> {
            &&& r@.len() <= s@.len()
            &&& r@.last() != '/'
            &&& forall|i: int| 0 <= i < r@.len() ==> #[trigger] r@[i] == s@[i]
            &&& forall|i: int| r@.len() <= i < s@.len() ==> #[trigger] s@[i] == '/'
        },
{
    text::trimming_cuts_exactly_the_slashes(s@);
    let t = text::trimmed(s@);
    if forall|i: int| 0 <= i < s@.len() ==> #[trigger] s@[i] == '/' {
        if t.len() > 0 {
            assert(t[t.len() - 1] == s@[t.len() - 1]);
        }
    }
    if exists|i: int| 0 <= i < s@.len() && #[trigger] s@[i] != '/' {
        let i = choose|i: int| 0 <= i < s@.len() && #[trigger] s@[i] != '/';
        assert(i < t.len());
    }
}

/// A URL names the normalized rest behind the origin if that is accepted as a path, and a URL that
/// does not start with the origin names none.
pub proof fn urls_name_paths_behind_the_origin(
    url: &str,
    origin: &str,
    rest: &str,
    normal: String,
    path: &str,
    accepted: bool,
    r: Option<String>,
)
    requires
        call_ensures(path_of_url, (url, origin), r),
        call_ensures(normalize, (rest,), normal),
        path@ == normal@,
        call_ensures(is_valid_path, (path,), accepted),
    ensures
        url@ == origin@ + rest@ && accepted ==> (r matches Some(p) && p@ == path@),
        url@ == origin@ + rest@ && !accepted ==> r is None,
        !origin@.is_prefix_of(url@) ==> r is None,
{
    text::a_prefix_stands_in_front(url@, origin@, rest@);
    if url@ == origin@ + rest@ {
        assert(url@.skip(origin@.len() as int) =~= rest@);
    }
    if text::has_prefix(url@, origin@) {
        assert(origin@.is_prefix_of(url@));
    }
}

/// Character data without escapes names the path of the URL that it is; what is not UTF-8 names
/// none.
pub proof fn plain_data_names_the_path_of_its_url(
    raw: &[u8],
    url: &str,
    origin: &str,
    of_data: Option<String>,
    of_url: Option<String>,
)
    requires
        call_ensures(path_of_loc, (raw, origin), of_data),
        call_ensures(path_of_url, (url, origin), of_url),
    ensures
        raw@ == vstd::utf8::encode_utf8(url@) && !url@.contains('&') ==> match (of_data, of_url) {
            (Some(p), Some(q)) => p@ == q@,
            (None, None) => true,
            _ => false,
        },
        !vstd::utf8::valid_utf8(raw@) ==> of_data is None,
{
    vstd::utf8::encode_utf8_decode_utf8(url@);
    vstd::utf8::encode_utf8_valid_utf8(url@);
}

/// Character data with escapes names the path of the URL that it writes.
pub proof fn escaped_data_names_the_path_of_its_url(
    raw: &[u8],
    data: Seq<char>,
    url: &str,
    origin: &str,
    of_data: Option<String>,
    of_url: Option<String>,
)
    requires
        call_ensures(path_of_loc, (raw, origin), of_data),
        call_ensures(path_of_url, (url, origin), of_url),
        raw@ == vstd::utf8::encode_utf8(data),
    ensures
        unescaped(data) == Some(url@) ==> match (of_data, of_url) {
            (Some(p), Some(q)) => p@ == q@,
            (None, None) => true,
            _ => false,
        },
        unescaped(data) is None ==> of_data is None,
{
    vstd::utf8::encode_utf8_decode_utf8(data);
    vstd::utf8::encode_utf8_valid_utf8(data);
}

/// What an event does to a collector: a start of `loc` opens it, an end of `loc` closes it, an
/// error or the end stops it for good. Character data in an open `loc` adds the path that it names
/// and closes it, unless there are 500 paths, which stops the collector. All else does nothing.
pub proof fn events_open_close_add_and_stop(
    c: &mut PathCollector,
    event: &XmlEvent,
    origin: &str,
    raw: &[u8],
    path: Option<String>,
)
    requires
        call_ensures(PathCollector::on_event, (c, event, origin), ()),
        call_ensures(path_of_loc, (raw, origin), path),
        event is Text ==> event->Text_0@ == raw@,
    ensures
        old(c)@.done ==> final(c)@ == old(c)@,
        !old(c)@.done ==> match *event {
            XmlEvent::Start(name) => final(c)@.paths == old(c)@.paths && !final(c)@.done && (
            final(c)@.inside_loc <==> old(c)@.inside_loc || name@ =~= seq![108u8, 111u8, 99u8]),
            XmlEvent::End(name) => final(c)@.paths == old(c)@.paths && !final(c)@.done && (
            final(c)@.inside_loc <==> old(c)@.inside_loc && !(name@ =~= seq![108u8, 111u8, 99u8])),
            XmlEvent::Text(_) => if !old(c)@.inside_loc {
                final(c)@ == old(c)@
            } else if old(c)@.paths.len() >= 500 {
                final(c)@.done && final(c)@.paths == old(c)@.paths
            } else {
                !final(c)@.done && !final(c)@.inside_loc && final(c)@.paths == match path {
                    Some(p) => old(c)@.paths.insert(p@),
                    None => old(c)@.paths,
                }
            },
            XmlEvent::Other => final(c)@ == old(c)@,
            XmlEvent::Malformed => final(c)@.done && final(c)@.paths == old(c)@.paths,
            XmlEvent::Eof => final(c)@.done && final(c)@.paths == old(c)@.paths,
        },
{
}

/// The events of `loc` elements with these character data, one after the other.
pub open spec fn loc_elements(raws: Seq<Seq<u8>>) -> Seq<EventView>
    decreases raws.len(),
{
    if raws.len() == 0 {
        Seq::empty()
    } else {
        loc_elements(raws.drop_last()) + seq![
            EventView::Start(seq![108u8, 111u8, 99u8]),
            EventView::Text(raws.last()),
            EventView::End(seq![108u8, 111u8, 99u8]),
        ]
    }
}

/// From a sitemap of `loc` elements only paths are taken that one of them names, no more than 500,
/// and if they are fewer, all that one of them names.
pub proof fn every_loc_element_is_taken(
    xml: &[u8],
    origin: &str,
    paths: PathSet,
    raws: Seq<Seq<u8>>,
    path: Seq<char>,
)
    requires
        xml@.len() <= i32::MAX,
        call_ensures(parse_sitemap, (xml, origin), paths),
        xml_events(xml@) == loc_elements(raws),
    ensures
        paths@.len() <= 500,
        paths@.contains(path) ==> exists|i: int|
            0 <= i < raws.len() && listed_path(#[trigger] raws[i], origin@) == Some(path),
        paths@.len() < 500 || raws.len() <= 500 ==> (paths@.contains(path) <==> exists|i: int|
            0 <= i < raws.len() && listed_path(#[trigger] raws[i], origin@) == Some(path)),
{
    lemma_loc_elements(raws, origin@);
}

/// What has been collected after so many `loc` elements.
proof fn lemma_loc_elements(raws: Seq<Seq<u8>>, origin: Seq<char>)
    ensures
        ({
            let c = collected(loc_elements(raws), origin);
            &&& c.paths.finite() && c.paths.len() <= raws.len()
            &&& forall|p: Seq<char>| #[trigger]
                c.paths.contains(p) ==> exists|i: int|
                    0 <= i < raws.len() && listed_path(#[trigger] raws[i], origin) == Some(p)
            &&& c.paths.len() < 500 || raws.len() <= 500 ==> !c.done && !c.inside_loc && forall|
                p: Seq<char>,
            | #[trigger]
                c.paths.contains(p) <==> exists|i: int|
                    0 <= i < raws.len() && listed_path(#[trigger] raws[i], origin) == Some(p)
        }),
    decreases raws.len(),
{
    if raws.len() > 0 {
        let init = raws.drop_last();
        lemma_loc_elements(init, origin);
        let before = loc_elements(init);
        let e1 = EventView::Start(seq![108u8, 111u8, 99u8]);
        let e2 = EventView::Text(raws.last());
        let e3 = EventView::End(seq![108u8, 111u8, 99u8]);
        let all = loc_elements(raws);
        assert(loc_name() =~= seq![108u8, 111u8, 99u8]);
        assert(all.drop_last().drop_last().drop_last() =~= before);
        assert(all.last() == e3 && all.drop_last().last() == e2
            && all.drop_last().drop_last().last() == e1);
        let c0 = collected(before, origin);
        let c1 = c0.after(e1, origin);
        let c2 = c1.after(e2, origin);
        let c3 = c2.after(e3, origin);
        assert(collected(all.drop_last().drop_last(), origin) == c1);
        assert(collected(all.drop_last(), origin) == c2);
        assert(collected(all, origin) == c3);
        let last = raws.len() - 1;
        assert forall|p: Seq<char>| #[trigger] c3.paths.contains(p) implies exists|i: int|
            0 <= i < raws.len() && listed_path(#[trigger] raws[i], origin) == Some(p) by {
            if c0.paths.contains(p) {
                let i = choose|i: int|
                    0 <= i < init.len() && listed_path(#[trigger] init[i], origin) == Some(p);
                assert(listed_path(raws[i], origin) == Some(p));
            } else {
                assert(listed_path(raws[last], origin) == Some(p));
            }
        }
        if c3.paths.len() < 500 || raws.len() <= 500 {
            assert forall|p: Seq<char>| #[trigger]
                c3.paths.contains(p) <==> exists|i: int|
                    0 <= i < raws.len() && listed_path(#[trigger] raws[i], origin) == Some(p) by {
                if exists|i: int|
                    0 <= i < raws.len() && listed_path(#[trigger] raws[i], origin) == Some(p) {
                    let i = choose|i: int|
                        0 <= i < raws.len() && listed_path(#[trigger] raws[i], origin) == Some(p);
                    if i < last {
                        assert(listed_path(init[i], origin) == Some(p));
                    }
                }
            }
        }
    } else {
        assert(collected(loc_elements(raws), origin).paths =~= Set::<Seq<char>>::empty());
    }
}

/// Comments, CDATA sections, empty elements and other tags than `loc` make no difference, wherever
/// and however often they stand in a sitemap.
pub proof fn what_is_neither_loc_nor_text_makes_no_difference(
    front: Seq<EventView>,
    event: EventView,
    back: Seq<EventView>,
    origin: Seq<char>,
)
    requires
        match event {
            EventView::Start(name) => !(name =~= seq![108u8, 111u8, 99u8]),
            EventView::End(name) => !(name =~= seq![108u8, 111u8, 99u8]),
            EventView::Other => true,
            _ => false,
        },
    ensures
        collected(front.push(event) + back, origin) == collected(front + back, origin),
    decreases back.len(),
{
    let with = front.push(event) + back;
    let without = front + back;
    if back.len() == 0 {
        assert(with.drop_last() =~= front);
        assert(with.last() == event);
        assert(without =~= front);
    } else {
        what_is_neither_loc_nor_text_makes_no_difference(front, event, back.drop_last(), origin);
        assert(with.drop_last() =~= front.push(event) + back.drop_last());
        assert(without.drop_last() =~= front + back.drop_last());
    }
}

/// Up to 1 MiB of a sitemap is taken in, in pieces and as announced; a response without success has
/// none.
pub proof fn a_sitemap_of_a_mebibyte_is_taken_in(
    success: bool,
    announced: Option<u64>,
    begun: Result<Option<SitemapDownload>, Error>,
    d: &mut SitemapDownload,
    chunk: &[u8],
    pushed: Result<(), Error>,
)
    requires
        call_ensures(SitemapDownload::begin, (success, announced), begun),
        call_ensures(SitemapDownload::push, (d, chunk), pushed),
    ensures
        !success ==> begun matches Ok(None),
        success && (announced is None || announced->0 <= 1_048_576) ==> (begun matches Ok(Some(b))
            && b@.len() == 0),
        success && announced is Some && announced->0 > 1_048_576 ==> (begun matches Err(
            Error::SitemapTooLarge(n),
        ) && n == announced->0),
        final(d)@ == old(d)@ + chunk@,
        old(d)@.len() + chunk@.len() <= 1_048_576 ==> pushed is Ok,
        old(d)@.len() + chunk@.len() > 1_048_576 ==> (pushed matches Err(
            Error::SitemapTooLarge(n),
        ) && n == (old(d)@.len() + chunk@.len()) as u64),
{
}

} // verus!
