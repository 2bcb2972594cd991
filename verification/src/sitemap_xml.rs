//! The XML sitemap: the markup of a sitemap-protocol document and its bytes.
//!
//! The document is first laid out as a list of markup events, which is
//! verified, and then handed event by event to the `xml` crate's writer,
//! which turns it into bytes.

use crate::record::{views, RouteInfo, RouteView, Timestamp};
use crate::text::{append_chars, chars_of, string_of, trim_end, trim_trailing};
use vstd::prelude::*;
use xml::common::XmlVersion;
use xml::writer::{EventWriter, XmlEvent};

verus! {

/// The namespace of the sitemap protocol.
pub const SITEMAP_NAMESPACE: &'static str = "http://www.sitemaps.org/schemas/sitemap/0.9";

/// The namespace of XML Schema instances.
pub const SCHEMA_INSTANCE_NAMESPACE: &'static str = "http://www.w3.org/2001/XMLSchema-instance";

/// The schema location of the sitemap protocol.
pub const SCHEMA_LOCATION: &'static str =
    "http://www.sitemaps.org/schemas/sitemap/0.9 http://www.sitemaps.org/schemas/sitemap/0.9/sitemap.xsd";

/// The pattern of a `lastmod`: date and time in UTC, seconds precision.
pub const LASTMOD_PATTERN: &'static str = "%Y-%m-%dT%H:%M:%SZ";

/// The event writer of the `xml` crate.
#[verifier::external_type_specification]
#[verifier::external_body]
#[verifier::reject_recursive_types(W)]
pub struct ExEventWriter<W>(xml::writer::EventWriter<W>);

/// The error of the `xml` crate's writer.
#[verifier::external_type_specification]
#[verifier::external_body]
pub struct ExEmitterError(xml::writer::Error);

/// The version of XML that a declaration names.
#[derive(Clone, Copy, Debug, PartialEq, Eq, Structural)]
pub enum Version {
    /// XML 1.0.
    V10,
    /// XML 1.1.
    V11,
}

/// One piece of markup handed to the writer.
#[derive(Clone, Debug, PartialEq, Eq)]
pub enum Markup {
    /// The XML declaration: version, encoding, and the `standalone` flag
    /// if it is to be written.
    Declaration { version: Version, encoding: String, standalone: Option<bool> },
    /// A start tag with its namespace declarations (prefix and URI; the
    /// empty prefix declares the default namespace) and its attributes.
    Open { name: String, namespaces: Vec<(String, String)>, attributes: Vec<(String, String)> },
    /// Character data.
    Text(String),
    /// The end tag of the innermost open element.
    Close,
}

/// The mathematical content of a `Markup`.
pub ghost enum MarkupView {
    Declaration { version: Version, encoding: Seq<char>, standalone: Option<bool> },
    Open {
        name: Seq<char>,
        namespaces: Seq<(Seq<char>, Seq<char>)>,
        attributes: Seq<(Seq<char>, Seq<char>)>,
    },
    Text(Seq<char>),
    Close,
}

/// The views of a sequence of string pairs.
pub open spec fn pairs(v: Seq<(String, String)>) -> Seq<(Seq<char>, Seq<char>)> {
    v.map_values(|p: (String, String)| (p.0@, p.1@))
}

impl View for Markup {
    type V = MarkupView;

    open spec fn view(&self) -> MarkupView {
        match *self {
            Markup::Declaration { version, encoding, standalone } => MarkupView::Declaration {
                version,
                encoding: encoding@,
                standalone,
            },
            Markup::Open { name, namespaces, attributes } => MarkupView::Open {
                name: name@,
                namespaces: pairs(namespaces@),
                attributes: pairs(attributes@),
            },
            Markup::Text(text) => MarkupView::Text(text@),
            Markup::Close => MarkupView::Close,
        }
    }
}

/// The views of a sequence of markup events.
pub open spec fn markup_views(events: Seq<Markup>) -> Seq<MarkupView> {
    events.map_values(|m: Markup| m@)
}

/// The view of an optional text.
pub open spec fn text_of(t: Option<String>) -> Option<Seq<char>> {
    match t {
        Some(s) => Some(s@),
        None => None,
    }
}

/// The views of a sequence of optional texts.
pub open spec fn texts(v: Seq<Option<String>>) -> Seq<Option<Seq<char>>> {
    v.map_values(|t: Option<String>| text_of(t))
}

/// What an event does to the number of open elements.
pub open spec fn depth_change(event: MarkupView) -> int {
    match event {
        MarkupView::Open { .. } => 1,
        MarkupView::Close => -1,
        _ => 0,
    }
}

/// The number of elements that are open after the events.
pub open spec fn open_depth(events: Seq<MarkupView>) -> int
    decreases events.len(),
{
    if events.len() == 0 {
        0
    } else {
        open_depth(events.drop_last()) + depth_change(events.last())
    }
}

/// Whether a writer that has accepted `history` accepts `event`: a
/// declaration only as the first event, an end tag only while an element
/// is open, start tags and text always.
pub open spec fn accepts(history: Seq<MarkupView>, event: MarkupView) -> bool {
    match event {
        MarkupView::Declaration { .. } => history.len() == 0,
        MarkupView::Close => open_depth(history) > 0,
        _ => true,
    }
}

/// Every event is accepted after the ones before it.
pub open spec fn accepted(events: Seq<MarkupView>) -> bool {
    forall|i: int| 0 <= i < events.len() ==> accepts(events.take(i), #[trigger] events[i])
}

/// The events that a writer has accepted since it was made.
pub uninterp spec fn written(writer: EventWriter<Vec<u8>>) -> Seq<MarkupView>;

/// The bytes that the writer of the `xml` crate, in its default
/// configuration, has produced once it has accepted the given events.
pub uninterp spec fn document_bytes(events: Seq<MarkupView>) -> Seq<u8>;

/// The text that `chrono` gives for a UTC time under a format pattern, or
/// `None` when the time is out of its range or the pattern is not valid.
pub uninterp spec fn utc_text(seconds: i64, nanos: u32, pattern: Seq<char>) -> Option<Seq<char>>;

/// A writer that collects its bytes in memory.
///
/// Trusted: the body calls `xml::writer::EventWriter::new` on an empty
/// vector; the contract says that the new writer has accepted no event.
#[verifier::external_body]
fn new_writer() -> (writer: EventWriter<Vec<u8>>)
    ensures
        written(writer) == Seq::<MarkupView>::empty(),
{
    EventWriter::new(Vec::new())
}

/// Hands one event to the writer.
///
/// Trusted: the body builds the event of the `xml` crate that the markup
/// stands for and calls `xml::writer::EventWriter::write`. The contract
/// says when the writer, which writes into memory, takes the event: it
/// refuses a declaration once anything was written and an end tag while no
/// element is open, and nothing else. An accepted event joins the history.
#[verifier::external_body]
fn write_event(writer: &mut EventWriter<Vec<u8>>, event: &Markup) -> (r: Result<
    (),
    xml::writer::Error,
>)
    ensures
        r is Ok <==> accepts(written(*old(writer)), event@),
        r is Ok ==> written(*final(writer)) == written(*old(writer)).push(event@),
{
    match event {
        Markup::Declaration { version, encoding, standalone } => {
            let version = match version { Version::V10 => XmlVersion::Version10, Version::V11 => XmlVersion::Version11 };
            writer.write(XmlEvent::StartDocument { version, encoding: Some(encoding.as_str()), standalone: *standalone })
        },
        Markup::Open { name, namespaces, attributes } => {
            let mut start = XmlEvent::start_element(name.as_str());
            for ns in namespaces { start = start.ns(&ns.0, &ns.1); }
            for at in attributes { start = start.attr(at.0.as_str(), &at.1); }
            writer.write(start)
        },
        Markup::Text(text) => writer.write(XmlEvent::characters(text)),
        Markup::Close => writer.write(XmlEvent::end_element()),
    }
}

/// Takes the bytes out of the writer.
///
/// Trusted: the body calls `xml::writer::EventWriter::into_inner`; the
/// contract only gives the bytes the name `document_bytes` of the accepted
/// events.
#[verifier::external_body]
fn finish(writer: EventWriter<Vec<u8>>) -> (bytes: Vec<u8>)
    ensures
        bytes@ == document_bytes(written(writer)),
{
    writer.into_inner()
}

/// Formats a UTC time.
///
/// Trusted: the body calls `chrono::DateTime::from_timestamp` and writes
/// the result of `chrono::DateTime::format` into a string. Both depend on
/// their arguments alone; the contract only gives the outcome the name
/// `utc_text`.
#[verifier::external_body]
fn format_utc(seconds: i64, nanos: u32, pattern: &str) -> (r: Option<String>)
    ensures
        match r {
            Some(text) => utc_text(seconds, nanos, pattern@) == Some(text@),
            None => utc_text(seconds, nanos, pattern@) is None,
        },
{
    let moment = chrono::DateTime::from_timestamp(seconds, nanos)?;
    let mut text = String::new();
    moment.format(pattern).write_to(&mut text).ok()?;
    Some(text)
}

/// Why no sitemap document was produced.
#[derive(Clone, Copy, Debug, PartialEq, Eq, Structural)]
pub enum XmlError {
    /// A modification time could not be written as a date and time.
    Timestamp,
    /// The writer refused an event.
    Writer,
}

impl XmlError {
    /// A sentence describing the failure.
    pub fn message(&self) -> (s: String)
        ensures
            s@ == match *self {
                XmlError::Timestamp => "A modification time is out of range"@,
                XmlError::Writer => "The XML writer refused an event"@,
            },
    {
        match self {
            XmlError::Timestamp => "A modification time is out of range".to_owned(),
            XmlError::Writer => "The XML writer refused an event".to_owned(),
        }
    }
}

/// A start tag without namespace declarations and attributes.
pub open spec fn element(name: Seq<char>) -> MarkupView {
    MarkupView::Open {
        name,
        namespaces: Seq::<(Seq<char>, Seq<char>)>::empty(),
        attributes: Seq::<(Seq<char>, Seq<char>)>::empty(),
    }
}

/// An element that holds nothing but text.
pub open spec fn text_element(name: Seq<char>, text: Seq<char>) -> Seq<MarkupView> {
    seq![element(name), MarkupView::Text(text), MarkupView::Close]
}

/// The address of a route: the base URL without trailing slashes, followed
/// by the route.
pub open spec fn location(base_url: Seq<char>, route: Seq<char>) -> Seq<char> {
    trim_trailing(base_url, '/') + route
}

/// The `url` element of one record: its `loc`, and a `lastmod` only when a
/// text for it is given.
pub open spec fn url_entry(base_url: Seq<char>, record: RouteView, lastmod: Option<Seq<char>>) -> Seq<
    MarkupView,
> {
    seq![element("url"@)] + text_element("loc"@, location(base_url, record.route)) + (match lastmod {
        Some(text) => text_element("lastmod"@, text),
        None => Seq::<MarkupView>::empty(),
    }) + seq![MarkupView::Close]
}

/// The text at position `i`, if there is one.
pub open spec fn text_at(lastmods: Seq<Option<Seq<char>>>, i: int) -> Option<Seq<char>> {
    if 0 <= i < lastmods.len() {
        lastmods[i]
    } else {
        None
    }
}

/// The `url` elements of the records, in order; record `i` gets the
/// `lastmod` text at position `i`.
pub open spec fn url_entries(
    base_url: Seq<char>,
    records: Seq<RouteView>,
    lastmods: Seq<Option<Seq<char>>>,
) -> Seq<MarkupView>
    decreases records.len(),
{
    if records.len() == 0 {
        Seq::<MarkupView>::empty()
    } else {
        url_entries(base_url, records.drop_last(), lastmods) + url_entry(
            base_url,
            records.last(),
            text_at(lastmods, records.len() - 1),
        )
    }
}

/// The start tag of the root element, with the sitemap namespace as the
/// default, the schema-instance namespace and the schema location.
pub open spec fn urlset() -> MarkupView {
    MarkupView::Open {
        name: "urlset"@,
        namespaces: seq![
            (""@, SITEMAP_NAMESPACE@),
            ("xsi"@, SCHEMA_INSTANCE_NAMESPACE@),
        ],
        attributes: seq![
            (
                "xsi:schemaLocation"@,
                SCHEMA_LOCATION@,
            ),
        ],
    }
}

/// The declaration of the document: XML 1.0 in UTF-8, without a
/// `standalone` flag.
pub open spec fn declaration() -> MarkupView {
    MarkupView::Declaration { version: Version::V10, encoding: "UTF-8"@, standalone: None }
}

/// The whole document: declaration, root element, one `url` per record.
pub open spec fn document(
    base_url: Seq<char>,
    records: Seq<RouteView>,
    lastmods: Seq<Option<Seq<char>>>,
) -> Seq<MarkupView> {
    seq![declaration(), urlset()] + url_entries(
        base_url,
        records,
        lastmods,
    ) + seq![MarkupView::Close]
}

/// The `lastmod` text of a time: UTC, seconds precision, `Z` suffix.
pub open spec fn lastmod_of(stamp: Timestamp) -> Option<Seq<char>> {
    utc_text(stamp.seconds, stamp.nanos, LASTMOD_PATTERN@)
}

/// The `lastmod` text of a record, if it has a modification time.
pub open spec fn record_lastmod(record: RouteView) -> Option<Seq<char>> {
    match record.last_modified {
        Some(stamp) => lastmod_of(stamp),
        None => None,
    }
}

/// The record has a modification time that cannot be written.
pub open spec fn unformattable(record: RouteView) -> bool {
    record.last_modified matches Some(stamp) && lastmod_of(stamp) is None
}

/// The `lastmod` texts of the records.
pub open spec fn lastmods_of(records: Seq<RouteView>) -> Seq<Option<Seq<char>>> {
    records.map_values(|r: RouteView| record_lastmod(r))
}

/// Every modification time of the records can be written.
pub open spec fn formattable(records: Seq<RouteView>) -> bool {
    forall|i: int| 0 <= i < records.len() ==> !unformattable(#[trigger] records[i])
}

/// The bytes of the sitemap for the records, which exist exactly when
/// every modification time can be written.
pub open spec fn sitemap_bytes(base_url: Seq<char>, records: Seq<RouteView>) -> Option<Seq<u8>> {
    if formattable(records) {
        Some(document_bytes(document(base_url, records, lastmods_of(records))))
    } else {
        None
    }
}

/// No declaration, every end tag closes an element opened before it, and
/// no element stays open.
pub open spec fn nested(events: Seq<MarkupView>) -> bool {
    &&& open_depth(events) == 0
    &&& forall|i: int|
        0 <= i < events.len() ==> !((#[trigger] events[i]) is Declaration) && (events[i] is Close
            ==> open_depth(events.take(i)) >= 1)
}

/// The open elements of two runs of events add up.
pub proof fn lemma_depth_concat(a: Seq<MarkupView>, b: Seq<MarkupView>)
    ensures
        open_depth(a + b) == open_depth(a) + open_depth(b),
    decreases b.len(),
{
    if b.len() == 0 {
        assert(a + b =~= a);
    } else {
        lemma_depth_concat(a, b.drop_last());
        assert((a + b).drop_last() =~= a + b.drop_last());
        assert((a + b).last() == b.last());
    }
}

/// One event changes the depth by its own change.
pub proof fn lemma_depth_of_one(event: MarkupView)
    ensures
        open_depth(seq![event]) == depth_change(event),
{
    assert(seq![event].drop_last() =~= Seq::<MarkupView>::empty());
    assert(open_depth(Seq::<MarkupView>::empty()) == 0);
}

/// Nested runs one after the other are nested.
pub proof fn lemma_nested_concat(a: Seq<MarkupView>, b: Seq<MarkupView>)
    requires
        nested(a),
        nested(b),
    ensures
        nested(a + b),
{
    let whole = a + b;
    lemma_depth_concat(a, b);
    assert forall|i: int| 0 <= i < whole.len() implies !((#[trigger] whole[i]) is Declaration) && (
    whole[i] is Close ==> open_depth(whole.take(i)) >= 1) by {
        if i < a.len() {
            assert(whole[i] == a[i]);
            assert(whole.take(i) =~= a.take(i));
        } else {
            assert(whole[i] == b[i - a.len()]);
            assert(whole.take(i) =~= a + b.take(i - a.len()));
            lemma_depth_concat(a, b.take(i - a.len()));
        }
    }
}

/// A nested run inside a start tag and an end tag is nested.
pub proof fn lemma_nested_wrap(open: MarkupView, inner: Seq<MarkupView>)
    requires
        open is Open,
        nested(inner),
    ensures
        nested(seq![open] + inner + seq![MarkupView::Close]),
{
    let whole = seq![open] + inner + seq![MarkupView::Close];
    lemma_depth_of_one(open);
    lemma_depth_of_one(MarkupView::Close);
    lemma_depth_concat(seq![open], inner);
    lemma_depth_concat(seq![open] + inner, seq![MarkupView::Close]);
    assert forall|i: int| 0 <= i < whole.len() implies !((#[trigger] whole[i]) is Declaration) && (
    whole[i] is Close ==> open_depth(whole.take(i)) >= 1) by {
        if i == 0 {
            assert(whole[i] == open);
        } else if i <= inner.len() {
            assert(whole[i] == inner[i - 1]);
            assert(whole.take(i) =~= seq![open] + inner.take(i - 1));
            lemma_depth_concat(seq![open], inner.take(i - 1));
        } else {
            assert(whole.take(i) =~= seq![open] + inner);
        }
    }
}

/// An element that holds nothing but text is nested.
pub proof fn lemma_text_element_nested(name: Seq<char>, text: Seq<char>)
    ensures
        nested(text_element(name, text)),
{
    let inner = seq![MarkupView::Text(text)];
    lemma_depth_of_one(MarkupView::Text(text));
    assert(nested(inner));
    lemma_nested_wrap(element(name), inner);
    assert(text_element(name, text) =~= seq![element(name)] + inner + seq![MarkupView::Close]);
}

/// The `url` element of a record is nested.
pub proof fn lemma_url_entry_nested(
    base_url: Seq<char>,
    record: RouteView,
    lastmod: Option<Seq<char>>,
)
    ensures
        nested(url_entry(base_url, record, lastmod)),
{
    let loc = text_element("loc"@, location(base_url, record.route));
    let stamp = match lastmod {
        Some(text) => text_element("lastmod"@, text),
        None => Seq::<MarkupView>::empty(),
    };
    lemma_text_element_nested("loc"@, location(base_url, record.route));
    match lastmod {
        Some(text) => {
            lemma_text_element_nested("lastmod"@, text);
        },
        None => {},
    }
    lemma_nested_concat(loc, stamp);
    lemma_nested_wrap(element("url"@), loc + stamp);
    assert(url_entry(base_url, record, lastmod) =~= seq![element("url"@)] + (loc + stamp)
        + seq![MarkupView::Close]);
}

/// The `url` elements of any records are nested.
pub proof fn lemma_url_entries_nested(
    base_url: Seq<char>,
    records: Seq<RouteView>,
    lastmods: Seq<Option<Seq<char>>>,
)
    ensures
        nested(url_entries(base_url, records, lastmods)),
    decreases records.len(),
{
    if records.len() > 0 {
        lemma_url_entries_nested(base_url, records.drop_last(), lastmods);
        lemma_url_entry_nested(base_url, records.last(), text_at(lastmods, records.len() - 1));
        lemma_nested_concat(
            url_entries(base_url, records.drop_last(), lastmods),
            url_entry(base_url, records.last(), text_at(lastmods, records.len() - 1)),
        );
    }
}

/// A declaration followed by a nested run is accepted event by event.
pub proof fn lemma_declared_is_accepted(first: MarkupView, rest: Seq<MarkupView>)
    requires
        first is Declaration,
        nested(rest),
    ensures
        accepted(seq![first] + rest),
{
    let whole = seq![first] + rest;
    lemma_depth_of_one(first);
    assert forall|i: int| 0 <= i < whole.len() implies accepts(
        whole.take(i),
        #[trigger] whole[i],
    ) by {
        if i > 0 {
            assert(whole[i] == rest[i - 1]);
            assert(whole.take(i) =~= seq![first] + rest.take(i - 1));
            lemma_depth_concat(seq![first], rest.take(i - 1));
        }
    }
}

/// The writer accepts the sitemap document of any records.
pub proof fn lemma_document_accepted(
    base_url: Seq<char>,
    records: Seq<RouteView>,
    lastmods: Seq<Option<Seq<char>>>,
)
    ensures
        accepted(document(base_url, records, lastmods)),
{
    let entries = url_entries(base_url, records, lastmods);
    lemma_url_entries_nested(base_url, records, lastmods);
    lemma_nested_wrap(urlset(), entries);
    let root = seq![urlset()] + entries + seq![MarkupView::Close];
    lemma_declared_is_accepted(declaration(), root);
    assert(document(base_url, records, lastmods) =~= seq![declaration()] + root);
}

/// The document depends on the routes and modification times of the
/// records alone: paths, labels and descriptions do not show in it.
pub proof fn lemma_document_ignores_metadata(
    base_url: Seq<char>,
    a: Seq<RouteView>,
    b: Seq<RouteView>,
)
    requires
        a.len() == b.len(),
        forall|i: int|
            0 <= i < a.len() ==> (#[trigger] a[i]).route == b[i].route && a[i].last_modified
                == b[i].last_modified,
    ensures
        document(base_url, a, lastmods_of(a)) == document(base_url, b, lastmods_of(b)),
{
    lemma_entries_ignore_metadata(base_url, a, b, a.len() as int);
    assert(a.take(a.len() as int) =~= a);
    assert(b.take(b.len() as int) =~= b);
}

proof fn lemma_entries_ignore_metadata(
    base_url: Seq<char>,
    a: Seq<RouteView>,
    b: Seq<RouteView>,
    n: int,
)
    requires
        a.len() == b.len(),
        0 <= n <= a.len(),
        forall|i: int|
            0 <= i < a.len() ==> (#[trigger] a[i]).route == b[i].route && a[i].last_modified
                == b[i].last_modified,
    ensures
        url_entries(base_url, a.take(n), lastmods_of(a)) == url_entries(
            base_url,
            b.take(n),
            lastmods_of(b),
        ),
    decreases n,
{
    if n > 0 {
        lemma_entries_ignore_metadata(base_url, a, b, n - 1);
        assert(a.take(n).drop_last() =~= a.take(n - 1));
        assert(b.take(n).drop_last() =~= b.take(n - 1));
        assert(a.take(n).last() == a[n - 1]);
        assert(b.take(n).last() == b[n - 1]);
        assert(text_at(lastmods_of(a), n - 1) == record_lastmod(a[n - 1]));
        assert(text_at(lastmods_of(b), n - 1) == record_lastmod(b[n - 1]));
    }
}

/// A record without a modification time gets a `url` element that holds
/// its `loc` and nothing else.
pub proof fn lemma_entry_without_time(base_url: Seq<char>, record: RouteView)
    requires
        record.last_modified is None,
    ensures
        url_entry(base_url, record, record_lastmod(record)) == seq![
            element("url"@),
            element("loc"@),
            MarkupView::Text(location(base_url, record.route)),
            MarkupView::Close,
            MarkupView::Close,
        ],
{
    assert(url_entry(base_url, record, record_lastmod(record)) =~= seq![
        element("url"@),
        element("loc"@),
        MarkupView::Text(location(base_url, record.route)),
        MarkupView::Close,
        MarkupView::Close,
    ]);
}

/// The `lastmod` text of a time, or `None` when it is out of range.
pub fn lastmod_text(stamp: &Timestamp) -> (r: Option<String>)
    ensures
        match r {
            Some(text) => lastmod_of(*stamp) == Some(text@),
            None => lastmod_of(*stamp) is None,
        },
{
    format_utc(stamp.seconds, stamp.nanos, LASTMOD_PATTERN)
}

/// A start tag without namespace declarations and attributes.
fn open_element(name: &str) -> (m: Markup)
    ensures
        m@ == element(name@),
{
    let namespaces: Vec<(String, String)> = Vec::new();
    let attributes: Vec<(String, String)> = Vec::new();
    assert(pairs(namespaces@) =~= Seq::<(Seq<char>, Seq<char>)>::empty());
    assert(pairs(attributes@) =~= Seq::<(Seq<char>, Seq<char>)>::empty());
    Markup::Open { name: name.to_owned(), namespaces, attributes }
}

/// Appends an element that holds nothing but text.
fn push_text_element(events: &mut Vec<Markup>, name: &str, text: String)
    ensures
        markup_views(final(events)@) == markup_views(old(events)@) + text_element(name@, text@),
{
    let ghost before = markup_views(events@);
    events.push(open_element(name));
    events.push(Markup::Text(text));
    events.push(Markup::Close);
    assert(markup_views(events@) =~= before + text_element(name@, text@));
}

/// Appends the `url` element of one record.
pub fn push_url_entry(
    events: &mut Vec<Markup>,
    base_url: &str,
    record: &RouteInfo,
    lastmod: Option<String>,
)
    ensures
        markup_views(final(events)@) == markup_views(old(events)@) + url_entry(
            base_url@,
            record@,
            text_of(lastmod),
        ),
{
    let ghost before = markup_views(events@);
    let ghost stamp = text_of(lastmod);
    let mut address = trim_end(&chars_of(base_url), '/');
    append_chars(&mut address, &chars_of(record.route.as_str()));
    events.push(open_element("url"));
    let ghost opened = markup_views(events@);
    assert(opened =~= before + seq![element("url"@)]);
    push_text_element(events, "loc", string_of(&address));
    let ghost located = markup_views(events@);
    match lastmod {
        Some(text) => {
            push_text_element(events, "lastmod", text);
        },
        None => {
            assert(located + Seq::<MarkupView>::empty() =~= located);
        },
    }
    let ghost stamped = markup_views(events@);
    events.push(Markup::Close);
    assert(markup_views(events@) =~= stamped + seq![MarkupView::Close]);
    assert(markup_views(events@) =~= before + url_entry(base_url@, record@, stamp));
}

/// The start tag of the root element.
fn urlset_element() -> (m: Markup)
    ensures
        m@ == urlset(),
{
    let mut namespaces: Vec<(String, String)> = Vec::new();
    namespaces.push(("".to_owned(), SITEMAP_NAMESPACE.to_owned()));
    namespaces.push(("xsi".to_owned(), SCHEMA_INSTANCE_NAMESPACE.to_owned()));
    let mut attributes: Vec<(String, String)> = Vec::new();
    attributes.push(
        (
            "xsi:schemaLocation".to_owned(),
            SCHEMA_LOCATION.to_owned(),
        ),
    );
    assert(pairs(namespaces@) =~= seq![
        (""@, SITEMAP_NAMESPACE@),
        ("xsi"@, SCHEMA_INSTANCE_NAMESPACE@),
    ]);
    assert(pairs(attributes@) =~= seq![
        (
            "xsi:schemaLocation"@,
            SCHEMA_LOCATION@,
        ),
    ]);
    Markup::Open { name: "urlset".to_owned(), namespaces, attributes }
}

/// Lays out the sitemap document for the records, given the `lastmod` text
/// of each; a record without a text at its position gets no `lastmod`.
pub fn sitemap_markup(routes: &Vec<RouteInfo>, base_url: &str, lastmods: &Vec<Option<String>>) -> (events:
    Vec<Markup>)
    ensures
        markup_views(events@) == document(base_url@, views(routes@), texts(lastmods@)),
{
    let mut events: Vec<Markup> = Vec::new();
    events.push(
        Markup::Declaration { version: Version::V10, encoding: "UTF-8".to_owned(), standalone: None },
    );
    events.push(urlset_element());
    let ghost head = markup_views(events@);
    let ghost records = views(routes@);
    assert(head =~= seq![declaration(), urlset()]);
    assert(records.take(0) =~= Seq::<RouteView>::empty());
    assert(markup_views(events@) =~= head + url_entries(base_url@, records.take(0), texts(lastmods@)));
    let mut i: usize = 0;
    while i < routes.len()
        invariant
            i <= routes.len(),
            records == views(routes@),
            markup_views(events@) == head + url_entries(
                base_url@,
                records.take(i as int),
                texts(lastmods@),
            ),
        decreases routes.len() - i,
    {
        let lastmod = if i < lastmods.len() {
            match &lastmods[i] {
                Some(text) => Some(text.clone()),
                None => None,
            }
        } else {
            None
        };
        assert(text_of(lastmod) == text_at(texts(lastmods@), i as int));
        proof {
            assert(records.take(i + 1).drop_last() =~= records.take(i as int));
            assert(records.take(i + 1).last() == routes@[i as int]@);
        }
        let ghost before = markup_views(events@);
        push_url_entry(&mut events, base_url, &routes[i], lastmod);
        assert(markup_views(events@) =~= head + url_entries(
            base_url@,
            records.take(i + 1),
            texts(lastmods@),
        ));
        i += 1;
    }
    assert(records.take(routes.len() as int) =~= records);
    let ghost before = markup_views(events@);
    events.push(Markup::Close);
    assert(markup_views(events@) =~= before + seq![MarkupView::Close]);
    events
}

/// Hands the events to a fresh writer and returns the bytes it produced.
///
/// Succeeds exactly when the writer accepts every event after the ones
/// before it; otherwise the result is `XmlError::Writer`.
pub fn emit(events: &Vec<Markup>) -> (r: Result<Vec<u8>, XmlError>)
    ensures
        match r {
            Ok(bytes) => accepted(markup_views(events@)) && bytes@ == document_bytes(
                markup_views(events@),
            ),
            Err(e) => e == XmlError::Writer && !accepted(markup_views(events@)),
        },
{
    let mut writer = new_writer();
    let mut i: usize = 0;
    let ghost all = markup_views(events@);
    assert(all.take(0) =~= Seq::<MarkupView>::empty());
    while i < events.len()
        invariant
            i <= events.len(),
            all == markup_views(events@),
            written(writer) == all.take(i as int),
            forall|j: int| 0 <= j < i ==> accepts(all.take(j), #[trigger] all[j]),
        decreases events.len() - i,
    {
        match write_event(&mut writer, &events[i]) {
            Ok(_) => {},
            Err(_) => {
                assert(!accepts(all.take(i as int), all[i as int]));
                return Err(XmlError::Writer);
            },
        }
        assert(markup_views(events@).take(i + 1) =~= markup_views(events@).take(i as int).push(
            events@[i as int]@,
        ));
        i += 1;
    }
    assert(markup_views(events@).take(events.len() as int) =~= markup_views(events@));
    Ok(finish(writer))
}

/// Renders the sitemap-protocol document for the records.
///
/// Each record gives one `url` element with its `loc`, and with a `lastmod`
/// exactly when the record has a modification time. Succeeds exactly when
/// every modification time can be written; otherwise the result is
/// `XmlError::Timestamp`.
pub fn generate(routes: &Vec<RouteInfo>, base_url: &str) -> (r: Result<Vec<u8>, XmlError>)
    ensures
        match r {
            Ok(bytes) => sitemap_bytes(base_url@, views(routes@)) == Some(bytes@),
            Err(e) => e == XmlError::Timestamp && sitemap_bytes(base_url@, views(routes@)) is None,
        },
        r is Ok <==> formattable(views(routes@)),
{
    let mut lastmods: Vec<Option<String>> = Vec::new();
    let ghost records = views(routes@);
    let mut i: usize = 0;
    while i < routes.len()
        invariant
            i <= routes.len(),
            records == views(routes@),
            lastmods.len() == i,
            forall|j: int| 0 <= j < i ==> !unformattable(#[trigger] records[j]),
            forall|j: int| 0 <= j < i ==> (#[trigger] texts(lastmods@)[j]) == record_lastmod(records[j]),
        decreases routes.len() - i,
    {
        let ghost before = texts(lastmods@);
        match &routes[i].last_modified {
            Some(stamp) => match lastmod_text(stamp) {
                Some(text) => {
                    lastmods.push(Some(text));
                },
                None => {
                    assert(unformattable(records[i as int]));
                    return Err(XmlError::Timestamp);
                },
            },
            None => {
                lastmods.push(None);
            },
        }
        assert forall|j: int| 0 <= j < i + 1 implies (#[trigger] texts(lastmods@)[j])
            == record_lastmod(records[j]) by {
            if j < i {
                assert(texts(lastmods@)[j] == before[j]);
            }
        }
        i += 1;
    }
    assert(texts(lastmods@) =~= lastmods_of(records));
    let events = sitemap_markup(routes, base_url, &lastmods);
    proof {
        lemma_document_accepted(base_url@, records, lastmods_of(records));
    }
    emit(&events)
}

} // verus!
