//! Reading the FMI Open Data WFS "simple" feature collection into rows.
//!
//! Each `BsWfs:BsWfsElement` of the feed carries one `(time, parameter,
//! value)` cell. The XML tokenising is quick-xml's; what this module decides
//! is which tokens make a row: only local element names are looked at
//! (`Time`, `ParameterName`, `ParameterValue`, `BsWfsElement`), text is
//! unescaped and trimmed, the literal `NaN` marks a missing value, and a
//! row is kept only when an element supplied all three parts.
use vstd::prelude::*;
use vstd::utf8::{decode_utf8, valid_utf8};
use quick_xml::events::Event;
use quick_xml::reader::Reader;
use crate::text::{eq_ignore_ascii_case, is_float_literal, trimmed, decimal};
use crate::text::{chars_of, equal_ignoring_ascii_case, float_text_ok, trim, push_decimal};
use crate::time::{UtcInstant, chrono_instant, rfc3339_utc, parse_rfc3339_utc};

verus! {

/// The Display text of the `Utf8Error` that `std::str::from_utf8` reports
/// for `bytes`.
pub uninterp spec fn utf8_error_text(bytes: Seq<u8>) -> Seq<char>;

/// `std::str::from_utf8`, with an owned result and the error as its text.
#[verifier::external_body]
pub(crate) fn decode_utf8_bytes(bytes: &[u8]) -> (r: Result<String, String>)
    ensures
        r is Ok <==> valid_utf8(bytes@),
        r matches Ok(s) ==> s@ == decode_utf8(bytes@),
        r matches Err(e) ==> e@ == utf8_error_text(bytes@),
{
    match std::str::from_utf8(bytes) {
        Ok(s) => Ok(s.to_owned()),
        Err(e) => Err(e.to_string()),
    }
}

/// What `quick_xml::escape::unescape` gives for `s`: the text with the
/// predefined XML entities and character references replaced, or the text
/// of its `EscapeError`.
pub uninterp spec fn xml_unescape(s: Seq<char>) -> Result<Seq<char>, Seq<char>>;

/// `quick_xml::escape::unescape`, with an owned result and the error as its
/// text.
#[verifier::external_body]
pub(crate) fn unescape_text(s: &str) -> (r: Result<String, String>)
    ensures
        match r {
            Ok(u) => xml_unescape(s@) == Ok::<Seq<char>, Seq<char>>(u@),
            Err(e) => xml_unescape(s@) == Err::<Seq<char>, Seq<char>>(e@),
        },
{
    match quick_xml::escape::unescape(s) {
        Ok(u) => Ok(u.into_owned()),
        Err(e) => Err(e.to_string()),
    }
}

/// The part of a qualified name after the first `:`, if it holds one.
pub open spec fn after_colon(q: Seq<u8>) -> Option<Seq<u8>>
    decreases q.len(),
{
    if q.len() == 0 {
        None
    } else if q[0] == 58u8 {
        Some(q.drop_first())
    } else {
        after_colon(q.drop_first())
    }
}

/// The local part of `prefix:local`, or the whole name without a prefix.
pub open spec fn local_part(q: Seq<u8>) -> Seq<u8> {
    match after_colon(q) {
        Some(rest) => rest,
        None => q,
    }
}

/// What `local_name` returns for the qualified name `q`.
pub open spec fn local_name_of(q: Seq<u8>) -> Result<Seq<char>, Seq<char>> {
    let b = local_part(q);
    if valid_utf8(b) {
        Ok(decode_utf8(b))
    } else {
        Err("non-UTF8 element name: "@ + utf8_error_text(b))
    }
}

proof fn lemma_after_colon_at(q: Seq<u8>, i: int)
    requires
        0 <= i <= q.len(),
        forall|j: int| 0 <= j < i ==> q[j] != 58u8,
    ensures
        i < q.len() && q[i] == 58u8 ==> after_colon(q) == Some(q.subrange(i + 1, q.len() as int)),
        i == q.len() ==> after_colon(q) is None,
    decreases i,
{
    if i > 0 {
        let t = q.drop_first();
        assert forall|j: int| 0 <= j < i - 1 implies t[j] != 58u8 by {
            assert(t[j] == q[j + 1]);
        }
        lemma_after_colon_at(t, i - 1);
        if i < q.len() {
            assert(t.subrange(i, t.len() as int) =~= q.subrange(i + 1, q.len() as int));
        }
    } else if i < q.len() && q[i] == 58u8 {
        assert(q.drop_first() =~= q.subrange(1, q.len() as int));
    }
}

/// The local part of an element's qualified name (`prefix:local` or
/// `local`), as text. The feed gives each element a unique local name, so
/// namespaces are never needed to tell elements apart.
pub fn local_name(qname: &[u8]) -> (r: Result<String, String>)
    ensures
        match r {
            Ok(s) => local_name_of(qname@) == Ok::<Seq<char>, Seq<char>>(s@),
            Err(e) => local_name_of(qname@) == Err::<Seq<char>, Seq<char>>(e@),
        },
{
    let n = qname.len();
    let mut i: usize = 0;
    while i < n && qname[i] != 58u8
        invariant
            i <= n,
            n == qname@.len(),
            forall|j: int| 0 <= j < i ==> qname@[j] != 58u8,
        decreases n - i,
    {
        i = i + 1;
    }
    proof {
        lemma_after_colon_at(qname@, i as int);
    }
    let bytes: &[u8] = if i < n {
        &qname[i + 1..n]
    } else {
        qname
    };
    assert(bytes@ == local_part(qname@));
    match decode_utf8_bytes(bytes) {
        Ok(s) => Ok(s),
        Err(e) => {
            let mut msg = String::from_str("non-UTF8 element name: ");
            msg.append(e.as_str());
            Err(msg)
        },
    }
}

/// One token of the feed, as the reader hands it over: element names and
/// text are raw bytes; `Failed` is a reading error with the byte position
/// the reader had reached and the error's text.
pub enum XmlEvent {
    Start(Vec<u8>),
    End(Vec<u8>),
    Text(Vec<u8>),
    Eof,
    Other,
    Failed(u64, String),
}

/// A token as plain values.
pub enum XmlEventView {
    Start(Seq<u8>),
    End(Seq<u8>),
    Text(Seq<u8>),
    Eof,
    Other,
    Failed(u64, Seq<char>),
}

impl View for XmlEvent {
    type V = XmlEventView;

    open spec fn view(&self) -> XmlEventView {
        match self {
            XmlEvent::Start(q) => XmlEventView::Start(q@),
            XmlEvent::End(q) => XmlEventView::End(q@),
            XmlEvent::Text(raw) => XmlEventView::Text(raw@),
            XmlEvent::Eof => XmlEventView::Eof,
            XmlEvent::Other => XmlEventView::Other,
            XmlEvent::Failed(pos, msg) => XmlEventView::Failed(*pos, msg@),
        }
    }
}

/// The tokens of a vector, as plain values.
pub open spec fn events_view(evs: Seq<XmlEvent>) -> Seq<XmlEventView> {
    evs.map_values(|e: XmlEvent| e@)
}

/// A token after which the reader gives nothing more: the end of the
/// input, or a reading error.
pub open spec fn ends_reading(ev: XmlEventView) -> bool {
    ev is Eof || ev is Failed
}

/// The tokens quick-xml's `Reader::from_str(xml)` hands out, one per
/// `read_event_into`, up to and including the first `Eof` or error, each
/// taken apart as `TokenReader::next` describes.
pub uninterp spec fn xml_tokens(xml: Seq<char>) -> Seq<XmlEventView>;

/// One `(time, parameter, value)` cell of the feed. `value` is the decimal
/// text of the parameter value, which `<f32 as FromStr>::from_str` accepts.
pub struct Row {
    pub time: UtcInstant,
    pub name: String,
    pub value: String,
}

/// A row as plain values.
pub struct RowView {
    pub time: UtcInstant,
    pub name: Seq<char>,
    pub value: Seq<char>,
}

impl View for Row {
    type V = RowView;

    open spec fn view(&self) -> RowView {
        RowView { time: self.time, name: self.name@, value: self.value@ }
    }
}

/// The rows of a vector, as plain values.
pub open spec fn rows_view(rows: Seq<Row>) -> Seq<RowView> {
    rows.map_values(|r: Row| r@)
}

/// Which child element of a `BsWfsElement` the text that follows belongs to.
#[derive(Clone, Copy, PartialEq, Eq, Structural)]
pub enum Field {
    Nothing,
    Time,
    Name,
    Value,
}

/// The state of the reading: the field being read, the parts of the
/// current element seen so far, and the rows made.
pub struct ScanView {
    pub field: Field,
    pub time: Option<UtcInstant>,
    pub name: Option<Seq<char>>,
    pub value: Option<Seq<char>>,
    pub rows: Seq<RowView>,
}

/// What one token does to the reading: go on from a new state, end it, or
/// fail with an error text.
pub enum Step {
    Continue(ScanView),
    Done,
    Fail(Seq<char>),
}

/// The state before the first token.
pub open spec fn scan_start() -> ScanView {
    ScanView { field: Field::Nothing, time: None, name: None, value: None, rows: Seq::empty() }
}

/// The literal `NaN`, which the feed writes for a missing value.
pub open spec fn nan_word() -> Seq<char> {
    seq!['N', 'a', 'N']
}

/// Trimmed, non-empty text `s` stored into the field being read. A value
/// text equal to `NaN` up to ASCII case is skipped; other value text is kept
/// when it reads as a float and cleared otherwise.
pub open spec fn text_into(st: ScanView, s: Seq<char>) -> ScanView {
    match st.field {
        Field::Time => ScanView { time: rfc3339_utc(s), ..st },
        Field::Name => ScanView { name: Some(s), ..st },
        Field::Value => if eq_ignore_ascii_case(s, nan_word()) {
            st
        } else {
            ScanView { value: if is_float_literal(s) { Some(s) } else { None }, ..st }
        },
        Field::Nothing => st,
    }
}

/// A text token: decoded as UTF-8, unescaped, then trimmed; blank text
/// changes nothing.
pub open spec fn text_step(st: ScanView, raw: Seq<u8>) -> Step {
    if !valid_utf8(raw) {
        Step::Fail("Malformed UTF-8 input: "@ + utf8_error_text(raw))
    } else {
        match xml_unescape(decode_utf8(raw)) {
            Err(m) => Step::Fail(m),
            Ok(u) => {
                let s = trimmed(u);
                if s.len() == 0 {
                    Step::Continue(st)
                } else {
                    Step::Continue(text_into(st, s))
                }
            },
        }
    }
}

/// An opening tag with local name `local`.
pub open spec fn start_into(st: ScanView, local: Seq<char>) -> ScanView {
    if local == "BsWfsElement"@ {
        ScanView { time: None, name: None, value: None, ..st }
    } else if local == "Time"@ {
        ScanView { field: Field::Time, ..st }
    } else if local == "ParameterName"@ {
        ScanView { field: Field::Name, ..st }
    } else if local == "ParameterValue"@ {
        ScanView { field: Field::Value, ..st }
    } else {
        st
    }
}

/// A closing tag with local name `local`. Closing a `BsWfsElement` makes a
/// row when time, name and value were all seen, and forgets all three.
pub open spec fn end_into(st: ScanView, local: Seq<char>) -> ScanView {
    if local == "Time"@ || local == "ParameterName"@ || local == "ParameterValue"@ {
        ScanView { field: Field::Nothing, ..st }
    } else if local == "BsWfsElement"@ {
        let rows = match (st.time, st.name, st.value) {
            (Some(t), Some(n), Some(v)) => st.rows.push(RowView { time: t, name: n, value: v }),
            _ => st.rows,
        };
        ScanView { time: None, name: None, value: None, rows: rows, ..st }
    } else {
        st
    }
}

/// What one token does to the reading.
pub open spec fn scan_step(st: ScanView, ev: XmlEventView) -> Step {
    match ev {
        XmlEventView::Start(q) => match local_name_of(q) {
            Ok(local) => Step::Continue(start_into(st, local)),
            Err(m) => Step::Fail(m),
        },
        XmlEventView::End(q) => match local_name_of(q) {
            Ok(local) => Step::Continue(end_into(st, local)),
            Err(m) => Step::Fail(m),
        },
        XmlEventView::Text(raw) => text_step(st, raw),
        XmlEventView::Eof => Step::Done,
        XmlEventView::Other => Step::Continue(st),
        XmlEventView::Failed(pos, msg) => Step::Fail(
            "XML parse error at byte "@ + decimal(pos as nat) + ": "@ + msg,
        ),
    }
}

/// The rows that the tokens `evs` give from state `st`, or the first error.
/// The rows so far stand when the tokens end before `Eof`.
pub open spec fn scan_from(st: ScanView, evs: Seq<XmlEventView>) -> Result<Seq<RowView>, Seq<char>>
    decreases evs.len(),
{
    if evs.len() == 0 {
        Ok(st.rows)
    } else {
        match scan_step(st, evs[0]) {
            Step::Continue(next) => scan_from(next, evs.drop_first()),
            Step::Done => Ok(st.rows),
            Step::Fail(m) => Err(m),
        }
    }
}

/// The rows of a whole token stream, or its first error.
pub open spec fn rows_of_events(evs: Seq<XmlEventView>) -> Result<Seq<RowView>, Seq<char>> {
    scan_from(scan_start(), evs)
}

/// A row as the reading makes it: a time chrono can work with, and a value
/// that reads as a float and is not the literal `NaN`.
pub open spec fn row_ok(r: RowView) -> bool {
    &&& chrono_instant(r.time)
    &&& is_float_literal(r.value)
    &&& !eq_ignore_ascii_case(r.value, nan_word())
}

/// An executable result against a specified one.
pub open spec fn same_rows(r: Result<Vec<Row>, String>, s: Result<Seq<RowView>, Seq<char>>) -> bool {
    match (r, s) {
        (Ok(v), Ok(w)) => rows_view(v@) == w,
        (Err(e), Err(m)) => e@ == m,
        _ => false,
    }
}

/// The reading state over executable values.
pub struct FeatureScan {
    field: Field,
    time: Option<UtcInstant>,
    name: Option<String>,
    value: Option<String>,
    rows: Vec<Row>,
}

impl View for FeatureScan {
    type V = ScanView;

    closed spec fn view(&self) -> ScanView {
        ScanView {
            field: self.field,
            time: self.time,
            name: match self.name {
                Some(s) => Some(s@),
                None => None,
            },
            value: match self.value {
                Some(s) => Some(s@),
                None => None,
            },
            rows: rows_view(self.rows@),
        }
    }
}

fn is_word(s: &String, word: &str) -> (r: bool)
    ensures
        r == (s@ == word@),
{
    let w = String::from_str(word);
    *s == w
}

impl FeatureScan {
    /// Everything made or half-made so far is well formed.
    pub closed spec fn valid(&self) -> bool {
        &&& self.time matches Some(t) ==> chrono_instant(t)
        &&& self.value matches Some(v) ==> is_float_literal(v@) && !eq_ignore_ascii_case(v@, nan_word())
        &&& forall|i: int| 0 <= i < self.rows@.len() ==> row_ok(#[trigger] self.rows@[i]@)
    }

    /// The state before the first token.
    pub fn new() -> (s: Self)
        ensures
            s@ == scan_start(),
            s.valid(),
    {
        let s = FeatureScan { field: Field::Nothing, time: None, name: None, value: None, rows: Vec::new() };
        assert(rows_view(s.rows@) =~= Seq::empty());
        s
    }

    fn store_text(&mut self, s: String)
        requires
            old(self).valid(),
        ensures
            final(self).valid(),
            final(self)@ == text_into(old(self)@, s@),
    {
        match self.field {
            Field::Time => {
                self.time = parse_rfc3339_utc(s.as_str());
            },
            Field::Name => {
                self.name = Some(s);
            },
            Field::Value => {
                let cs = chars_of(s.as_str());
                let nan: [char; 3] = ['N', 'a', 'N'];
                assert(nan@ =~= nan_word());
                if !equal_ignoring_ascii_case(cs.as_slice(), &nan) {
                    if float_text_ok(s.as_str()) {
                        self.value = Some(s);
                    } else {
                        self.value = None;
                    }
                }
            },
            Field::Nothing => {},
        }
    }

    fn take_text(&mut self, raw: &Vec<u8>) -> (r: Result<bool, String>)
        requires
            old(self).valid(),
        ensures
            final(self).valid(),
            match text_step(old(self)@, raw@) {
                Step::Continue(next) => r == Ok::<bool, String>(true) && final(self)@ == next,
                Step::Done => false,
                Step::Fail(m) => r matches Err(e) && e@ == m,
            },
    {
        let decoded = match decode_utf8_bytes(raw.as_slice()) {
            Ok(d) => d,
            Err(e) => {
                let mut msg = String::from_str("Malformed UTF-8 input: ");
                msg.append(e.as_str());
                return Err(msg);
            },
        };
        let unescaped = match unescape_text(decoded.as_str()) {
            Ok(u) => u,
            Err(e) => {
                return Err(e);
            },
        };
        let s = trim(unescaped.as_str());
        if s.as_str().is_empty() {
            return Ok(true);
        }
        self.store_text(s);
        Ok(true)
    }

    fn take_start(&mut self, local: &String)
        ensures
            final(self)@ == start_into(old(self)@, local@),
            final(self).rows@ == old(self).rows@,
            final(self).time == old(self).time || final(self).time is None,
            final(self).value == old(self).value || final(self).value is None,
    {
        if is_word(local, "BsWfsElement") {
            self.time = None;
            self.name = None;
            self.value = None;
        } else if is_word(local, "Time") {
            self.field = Field::Time;
        } else if is_word(local, "ParameterName") {
            self.field = Field::Name;
        } else if is_word(local, "ParameterValue") {
            self.field = Field::Value;
        }
    }

    fn take_end(&mut self, local: &String)
        requires
            old(self).valid(),
        ensures
            final(self).valid(),
            final(self)@ == end_into(old(self)@, local@),
    {
        if is_word(local, "Time") || is_word(local, "ParameterName") || is_word(
            local,
            "ParameterValue",
        ) {
            self.field = Field::Nothing;
        } else if is_word(local, "BsWfsElement") {
            let t = self.time.take();
            let n = self.name.take();
            let v = self.value.take();
            match (t, n, v) {
                (Some(t), Some(n), Some(v)) => {
                    let ghost before = self.rows@;
                    self.rows.push(Row { time: t, name: n, value: v });
                    assert(rows_view(self.rows@) =~= rows_view(before).push(
                        RowView { time: t, name: n@, value: v@ },
                    ));
                },
                _ => {},
            }
        }
    }

    /// Feeds one token. `Ok(true)`: go on; `Ok(false)`: the feed has ended;
    /// `Err`: the reading failed with that text.
    pub fn step(&mut self, ev: &XmlEvent) -> (r: Result<bool, String>)
        requires
            old(self).valid(),
        ensures
            final(self).valid(),
            match scan_step(old(self)@, ev@) {
                Step::Continue(next) => r == Ok::<bool, String>(true) && final(self)@ == next,
                Step::Done => r == Ok::<bool, String>(false) && final(self)@ == old(self)@,
                Step::Fail(m) => r matches Err(e) && e@ == m,
            },
    {
        match ev {
            XmlEvent::Start(q) => {
                let local = local_name(q.as_slice())?;
                self.take_start(&local);
                Ok(true)
            },
            XmlEvent::End(q) => {
                let local = local_name(q.as_slice())?;
                self.take_end(&local);
                Ok(true)
            },
            XmlEvent::Text(raw) => self.take_text(raw),
            XmlEvent::Eof => Ok(false),
            XmlEvent::Other => Ok(true),
            XmlEvent::Failed(pos, msg) => {
                let mut m = String::from_str("XML parse error at byte ");
                push_decimal(&mut m, *pos);
                m.append(": ");
                m.append(msg.as_str());
                Err(m)
            },
        }
    }

    /// The rows made so far.
    pub fn into_rows(self) -> (r: Vec<Row>)
        requires
            self.valid(),
        ensures
            rows_view(r@) == self@.rows,
            forall|i: int| 0 <= i < r@.len() ==> row_ok(#[trigger] r@[i]@),
    {
        self.rows
    }
}

/// The rows of a whole token stream, read in order; a `Failed` token or a
/// token that cannot be read ends the reading with its error.
pub fn rows_from_events(events: &Vec<XmlEvent>) -> (r: Result<Vec<Row>, String>)
    ensures
        same_rows(r, rows_of_events(events_view(events@))),
        r matches Ok(rows) ==> forall|i: int| 0 <= i < rows@.len() ==> row_ok(#[trigger] rows@[i]@),
{
    let mut scan = FeatureScan::new();
    let n = events.len();
    let mut i: usize = 0;
    let ghost evs = events_view(events@);
    assert(evs.skip(0) =~= evs);
    while i < n
        invariant
            i <= n,
            n == events@.len(),
            evs == events_view(events@),
            scan.valid(),
            rows_of_events(evs) == scan_from(scan@, evs.skip(i as int)),
        decreases n - i,
    {
        let ghost rest = evs.skip(i as int);
        assert(rest[0] == events@[i as int]@);
        let go = scan.step(&events[i]);
        match go {
            Err(e) => {
                return Err(e);
            },
            Ok(false) => {
                return Ok(scan.into_rows());
            },
            Ok(true) => {},
        }
        assert(rest.drop_first() =~= evs.skip(i + 1));
        i = i + 1;
    }
    assert(evs.skip(n as int) =~= Seq::<XmlEventView>::empty());
    Ok(scan.into_rows())
}

#[verifier::external_type_specification]
#[verifier::external_body]
#[verifier::reject_recursive_types(R)]
pub struct ExXmlReader<R>(Reader<R>);

/// A quick-xml reader over one text, with the number of tokens it has
/// handed out.
pub(crate) struct TokenReader<'a> {
    reader: Reader<&'a [u8]>,
    buf: Vec<u8>,
    text: Ghost<Seq<char>>,
    read: Ghost<nat>,
}

impl<'a> TokenReader<'a> {
    /// The text being read.
    pub(crate) closed spec fn text(&self) -> Seq<char> {
        self.text@
    }

    /// How many tokens have been handed out.
    pub(crate) closed spec fn read(&self) -> nat {
        self.read@
    }

    /// quick-xml's `Reader::from_str`: a reader at the start of `xml`, with
    /// the default configuration. The token stream of a text holds at
    /// least its final `Eof` or error.
    #[verifier::external_body]
    pub(crate) fn open(xml: &'a str) -> (r: Self)
        ensures
            r.text() == xml@,
            r.read() == 0,
            xml_tokens(r.text()).len() > 0,
    {
        TokenReader { reader: Reader::from_str(xml), buf: Vec::new(), text: Ghost(xml@), read: Ghost(0) }
    }

    /// quick-xml's `Reader::read_event_into`, into a cleared buffer, with the
    /// event taken apart into owned bytes: the qualified name of a start or
    /// end tag, the raw (still escaped) content of a text node; every other
    /// kind of event becomes `Other`. An error becomes `Failed` with
    /// `Reader::buffer_position` and the error's text. The token is the
    /// next one of `xml_tokens` of the text, and it ends the stream exactly
    /// when it is `Eof` or an error.
    #[verifier::external_body]
    pub(crate) fn next(&mut self) -> (ev: XmlEvent)
        requires
            old(self).read() < xml_tokens(old(self).text()).len(),
        ensures
            final(self).text() == old(self).text(),
            final(self).read() == old(self).read() + 1,
            ev@ == xml_tokens(old(self).text())[old(self).read() as int],
            ends_reading(ev@) <==> final(self).read() == xml_tokens(final(self).text()).len(),
    {
        self.buf.clear();
        match self.reader.read_event_into(&mut self.buf) {
            Err(e) => XmlEvent::Failed(self.reader.buffer_position(), e.to_string()),
            Ok(Event::Eof) => XmlEvent::Eof,
            Ok(Event::Start(e)) => XmlEvent::Start(e.name().as_ref().to_vec()),
            Ok(Event::End(e)) => XmlEvent::End(e.name().as_ref().to_vec()),
            Ok(Event::Text(t)) => XmlEvent::Text(t.into_inner().into_owned()),
            Ok(_) => XmlEvent::Other,
        }
    }
}

/// Stream-reads the feed `xml` into rows: the rows that `rows_of_events`
/// gives for quick-xml's tokens of `xml`, or the first error. Every row has
/// a usable time and a float value other than `NaN`.
pub fn parse_simple_features(xml: &str) -> (r: Result<Vec<Row>, String>)
    ensures
        same_rows(r, rows_of_events(xml_tokens(xml@))),
        r matches Ok(rows) ==> forall|i: int| 0 <= i < rows@.len() ==> row_ok(#[trigger] rows@[i]@),
{
    let mut tokens = TokenReader::open(xml);
    let mut scan = FeatureScan::new();
    let ghost all = xml_tokens(xml@);
    assert(all.skip(0) =~= all);
    loop
        invariant
            tokens.text() == xml@,
            all == xml_tokens(xml@),
            tokens.read() < all.len(),
            scan.valid(),
            rows_of_events(all) == scan_from(scan@, all.skip(tokens.read() as int)),
        decreases all.len() - tokens.read(),
    {
        let ghost at = tokens.read() as int;
        let ev = tokens.next();
        let ghost rest = all.skip(at);
        assert(rest[0] == ev@);
        let go = scan.step(&ev);
        match go {
            Err(e) => {
                return Err(e);
            },
            Ok(false) => {
                return Ok(scan.into_rows());
            },
            Ok(true) => {},
        }
        assert(rest.drop_first() =~= all.skip(at + 1));
    }
}

/// A value text the reading keeps: it reads as a float and is not `NaN`.
pub open spec fn value_ok(v: Seq<char>) -> bool {
    is_float_literal(v) && !eq_ignore_ascii_case(v, nan_word())
}

/// The kept values so far, half-made or in rows, are all usable.
pub open spec fn values_ok(st: ScanView) -> bool {
    &&& st.value matches Some(v) ==> value_ok(v)
    &&& forall|i: int| 0 <= i < st.rows.len() ==> value_ok(#[trigger] st.rows[i].value)
}

proof fn lemma_step_keeps_values(st: ScanView, ev: XmlEventView)
    requires
        values_ok(st),
    ensures
        scan_step(st, ev) matches Step::Continue(next) ==> values_ok(next),
{
    match ev {
        XmlEventView::End(q) => {
            if let Ok(local) = local_name_of(q) {
                let next = end_into(st, local);
                assert forall|i: int| 0 <= i < next.rows.len() implies value_ok(#[trigger] next.rows[i].value) by {
                    if i < st.rows.len() {
                        assert(next.rows[i] == st.rows[i]);
                    }
                }
            }
        },
        _ => {},
    }
}

proof fn lemma_scan_keeps_values(st: ScanView, evs: Seq<XmlEventView>)
    requires
        values_ok(st),
    ensures
        scan_from(st, evs) matches Ok(rows) ==> forall|i: int| 0 <= i < rows.len() ==> value_ok(#[trigger] rows[i].value),
    decreases evs.len(),
{
    if evs.len() > 0 {
        lemma_step_keeps_values(st, evs[0]);
        if let Step::Continue(next) = scan_step(st, evs[0]) {
            lemma_scan_keeps_values(next, evs.drop_first());
        }
    }
}

/// Whatever the token stream, every row read from it has a value that
/// reads as a float, and none is the literal `NaN` the feed writes for a
/// missing value.
pub proof fn law_no_nan_rows(evs: Seq<XmlEventView>)
    ensures
        rows_of_events(evs) matches Ok(rows) ==> forall|i: int| 0 <= i < rows.len() ==> value_ok(#[trigger] rows[i].value),
{
    lemma_scan_keeps_values(scan_start(), evs);
}

/// Tags whose local name is none of `BsWfsElement`, `Time`,
/// `ParameterName` and `ParameterValue` change nothing: the reading reacts
/// only to the local names it knows, whatever wraps them.
pub proof fn law_unknown_elements_ignored(st: ScanView, ev: XmlEventView, local: Seq<char>)
    requires
        (ev matches XmlEventView::Start(q) && local_name_of(q) == Ok::<Seq<char>, Seq<char>>(local))
            || (ev matches XmlEventView::End(q) && local_name_of(q) == Ok::<Seq<char>, Seq<char>>(local)),
        local != "BsWfsElement"@,
        local != "Time"@,
        local != "ParameterName"@,
        local != "ParameterValue"@,
    ensures
        scan_step(st, ev) == Step::Continue(st),
{
}

/// The local name of `prefix:local` is `local`, and a name without a colon
/// is its own local name.
pub proof fn law_local_name_strips_prefix(prefix: Seq<u8>, local: Seq<u8>)
    requires
        forall|i: int| 0 <= i < prefix.len() ==> prefix[i] != 58u8,
    ensures
        local_part(prefix + seq![58u8] + local) == local,
        local_part(prefix) == prefix,
{
    let q = prefix + seq![58u8] + local;
    assert forall|j: int| 0 <= j < prefix.len() implies q[j] != 58u8 by {
        assert(q[j] == prefix[j]);
    }
    lemma_after_colon_at(q, prefix.len() as int);
    assert(q.subrange(prefix.len() as int + 1, q.len() as int) =~= local);
    lemma_after_colon_at(prefix, prefix.len() as int);
}

/// The row that token `ev` completes in state `st`: the closing tag of a
/// `BsWfsElement` for which time, name and value were all seen.
pub open spec fn completed_row(st: ScanView, ev: XmlEventView) -> Option<RowView> {
    match ev {
        XmlEventView::End(q) => match (local_name_of(q), st.time, st.name, st.value) {
            (Ok(local), Some(t), Some(n), Some(v)) => if local == "BsWfsElement"@ {
                Some(RowView { time: t, name: n, value: v })
            } else {
                None
            },
            _ => None,
        },
        _ => None,
    }
}

/// Each token adds at most one row, at the end: the row of a
/// `BsWfsElement` it closes with all three parts seen, and no other.
pub proof fn law_one_row_per_complete_element(st: ScanView, ev: XmlEventView)
    ensures
        scan_step(st, ev) matches Step::Continue(next) ==> next.rows == match completed_row(st, ev) {
            Some(r) => st.rows.push(r),
            None => st.rows,
        },
        completed_row(st, ev) matches Some(r) ==> scan_step(st, ev) matches Step::Continue(next) && next.rows == st.rows.push(r),
{
    reveal_strlit("BsWfsElement");
    reveal_strlit("Time");
    reveal_strlit("ParameterName");
    reveal_strlit("ParameterValue");
    assert("BsWfsElement"@ != "Time"@) by {
        assert("BsWfsElement"@.len() != "Time"@.len());
    }
    assert("BsWfsElement"@ != "ParameterName"@) by {
        assert("BsWfsElement"@.len() != "ParameterName"@.len());
    }
    assert("BsWfsElement"@ != "ParameterValue"@) by {
        assert("BsWfsElement"@.len() != "ParameterValue"@.len());
    }
    match ev {
        XmlEventView::Text(raw) => {
            if let Step::Continue(next) = text_step(st, raw) {
                if valid_utf8(raw) {
                    if let Ok(u) = xml_unescape(decode_utf8(raw)) {
                        let s = trimmed(u);
                        if s.len() > 0 {
                            assert(next == text_into(st, s));
                        }
                    }
                }
            }
        },
        _ => {},
    }
}

/// The rows made so far stay, first and in order, whatever tokens follow:
/// rows come out in document order.
pub proof fn law_rows_kept_in_order(st: ScanView, evs: Seq<XmlEventView>)
    ensures
        scan_from(st, evs) matches Ok(rows) ==> st.rows.is_prefix_of(rows),
    decreases evs.len(),
{
    if evs.len() > 0 {
        law_one_row_per_complete_element(st, evs[0]);
        if let Step::Continue(next) = scan_step(st, evs[0]) {
            law_rows_kept_in_order(next, evs.drop_first());
            if let Ok(rows) = scan_from(next, evs.drop_first()) {
                assert forall|i: int| 0 <= i < st.rows.len() implies st.rows[i] == rows[i] by {
                    assert(next.rows[i] == st.rows[i]);
                }
            }
        }
    }
}

/// The state after the tokens `evs` from `st`, when none of them ends the
/// reading.
pub open spec fn scan_through(st: ScanView, evs: Seq<XmlEventView>) -> Option<ScanView>
    decreases evs.len(),
{
    if evs.len() == 0 {
        Some(st)
    } else {
        match scan_step(st, evs[0]) {
            Step::Continue(next) => scan_through(next, evs.drop_first()),
            _ => None,
        }
    }
}

proof fn lemma_scan_through_then(st: ScanView, pre: Seq<XmlEventView>, rest: Seq<XmlEventView>)
    requires
        scan_through(st, pre) is Some,
    ensures
        scan_from(st, pre + rest) == scan_from(scan_through(st, pre)->0, rest),
    decreases pre.len(),
{
    if pre.len() == 0 {
        assert(pre + rest =~= rest);
    } else {
        let whole = pre + rest;
        assert(whole[0] == pre[0]);
        assert(whole.drop_first() =~= pre.drop_first() + rest);
        if let Step::Continue(next) = scan_step(st, pre[0]) {
            lemma_scan_through_then(next, pre.drop_first(), rest);
        }
    }
}

/// The text of a reading error: the byte position the reader had reached,
/// then the reader's own message.
pub open spec fn reader_error_text(pos: u64, msg: Seq<char>) -> Seq<char> {
    "XML parse error at byte "@ + decimal(pos as nat) + ": "@ + msg
}

/// Once the reader reports an error, the reading fails with its position
/// and message, and no rows are given, not even those made before it.
pub proof fn law_reader_error_ends_reading(
    pre: Seq<XmlEventView>,
    pos: u64,
    msg: Seq<char>,
    rest: Seq<XmlEventView>,
)
    requires
        scan_through(scan_start(), pre) is Some,
    ensures
        rows_of_events(pre + seq![XmlEventView::Failed(pos, msg)] + rest) == Err::<Seq<RowView>, Seq<char>>(
            reader_error_text(pos, msg),
        ),
        "XML parse error at byte "@.is_prefix_of(reader_error_text(pos, msg)),
{
    let tail = seq![XmlEventView::Failed(pos, msg)] + rest;
    assert(pre + seq![XmlEventView::Failed(pos, msg)] + rest =~= pre + tail);
    lemma_scan_through_then(scan_start(), pre, tail);
    assert(tail[0] == XmlEventView::Failed(pos, msg));
    let m = reader_error_text(pos, msg);
    assert forall|i: int| 0 <= i < "XML parse error at byte "@.len() implies "XML parse error at byte "@[i] == m[i] by {}
}

} // verus!
