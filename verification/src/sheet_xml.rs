//! The XML of a workbook: reading it as a list of events, finding the part
//! that holds a sheet, and rewriting the cells of a rectangle of a sheet
//! while every other event is written back as it was read.
//!
//! quick-xml reads the document; each event is kept as the text quick-xml's
//! `Writer` gives for it, so that writing the events one after another is
//! what the `Writer` writes for the whole list.
use vstd::prelude::*;
use crate::generate::texts_of;
use crate::excel_helper::col_name;
use crate::refer::{
    cell_range_fits, cell_range_in_range, cell_ref_fits, cell_ref_in_range, col_letter, parse_cell_ref,
    parse_single_cell_ref, spec_cell_ref, spec_single_cell_ref,
};
use crate::text::{concat_str, i64_to_decimal, int_decimal, parse_usize, spec_parse_usize, str_eq, u64_to_decimal};

verus! {

// ---------------------------------------------------------------------------
// quick-xml
// ---------------------------------------------------------------------------

/// The events quick-xml's `Reader` reads from `xml`, each written back by its
/// `Writer`, up to the end of the document or the first error; and that
/// error's message, if reading stopped at one.
pub uninterp spec fn spec_xml_events(xml: Seq<u8>) -> (Seq<Seq<char>>, Option<Seq<char>>);

/// The name and the attributes of the start or empty-element tag written as
/// `tag`, as quick-xml's `BytesStart::name` and `BytesStart::attributes` give
/// them (each attribute as its key and raw value, `None` where quick-xml
/// reports an error for it); `None` if `tag` is not such a tag.
pub uninterp spec fn spec_xml_tag_parts(tag: Seq<char>) -> Option<
    (Seq<char>, Seq<Option<(Seq<char>, Seq<char>)>>),
>;

/// What quick-xml's escaping writes for `c`: `<`, `>`, `&`, `'`, `"` and
/// carriage return as references; in an attribute value also line feed and
/// tab; any other character as it is.
pub open spec fn xml_escape_char(c: char, in_attribute: bool) -> Seq<char> {
    if c == '<' {
        "&lt;"@
    } else if c == '>' {
        "&gt;"@
    } else if c == '&' {
        "&amp;"@
    } else if c == '\'' {
        "&apos;"@
    } else if c == '"' {
        "&quot;"@
    } else if c == '\r' {
        "&#13;"@
    } else if in_attribute && c == '\n' {
        "&#10;"@
    } else if in_attribute && c == '\t' {
        "&#9;"@
    } else {
        seq![c]
    }
}

/// `text` escaped character by character (see [`xml_escape_char`]).
pub open spec fn xml_escaped(text: Seq<char>, in_attribute: bool) -> Seq<char>
    decreases text.len(),
{
    if text.len() == 0 {
        Seq::empty()
    } else {
        xml_escaped(text.drop_last(), in_attribute) + xml_escape_char(text.last(), in_attribute)
    }
}

/// The attributes of a tag as quick-xml's `push_attribute` writes them:
/// ` key="value"` each, the value escaped.
pub open spec fn xml_attrs_text(attrs: Seq<(Seq<char>, Seq<char>)>) -> Seq<char>
    decreases attrs.len(),
{
    if attrs.len() == 0 {
        Seq::empty()
    } else {
        xml_attrs_text(attrs.drop_last()) + " "@ + attrs.last().0 + "=\""@ + xml_escaped(attrs.last().1, true)
            + "\""@
    }
}

/// The content of the quick-xml `BytesStart` made by `BytesStart::new(name)`
/// and one `push_attribute((key, value))` per pair of `attrs`, in order.
pub open spec fn spec_xml_tag_content(name: Seq<char>, attrs: Seq<(Seq<char>, Seq<char>)>) -> Seq<char> {
    name + xml_attrs_text(attrs)
}

/// `text` as quick-xml's `BytesText::new` escapes it.
pub open spec fn spec_xml_escape(text: Seq<char>) -> Seq<char> {
    xml_escaped(text, false)
}

/// `raw` with its character and entity references replaced, as quick-xml's
/// `escape::unescape` gives it, or that function's error message.
pub uninterp spec fn spec_xml_unescape(raw: Seq<char>) -> Result<Seq<char>, Seq<char>>;

/// The text of an optional string.
pub open spec fn opt_text(o: Option<String>) -> Option<Seq<char>> {
    match o {
        Some(s) => Some(s@),
        None => None,
    }
}

/// The texts of a pair of strings.
pub open spec fn pair_text(p: (String, String)) -> (Seq<char>, Seq<char>) {
    (p.0@, p.1@)
}

/// The texts of a list of pairs.
pub open spec fn pairs_text(v: Seq<(String, String)>) -> Seq<(Seq<char>, Seq<char>)> {
    v.map_values(|p: (String, String)| pair_text(p))
}

/// The texts of a list of attributes read from a tag.
pub open spec fn attrs_text(v: Seq<Option<(String, String)>>) -> Seq<Option<(Seq<char>, Seq<char>)>> {
    v.map_values(
        |a: Option<(String, String)>|
            match a {
                Some(p) => Some(pair_text(p)),
                None => None,
            },
    )
}

/// Reads `xml` with quick-xml's `Reader` (as `Reader::from_reader` on the
/// bytes) and writes each event back with a `Writer` of its own; stops at
/// the end of the document or at the first error, whose message it gives.
#[verifier::external_body]
pub(crate) fn xml_events(xml: &[u8]) -> (r: (Vec<String>, Option<String>))
    ensures
        texts_of(r.0@) == spec_xml_events(xml@).0,
        opt_text(r.1) == spec_xml_events(xml@).1,
{
    let mut reader = quick_xml::reader::Reader::from_reader(xml);
    let mut out = Vec::new();
    loop {
        let ev = match reader.read_event() {
            Ok(quick_xml::events::Event::Eof) => return (out, None),
            Ok(ev) => ev,
            Err(e) => return (out, Some(e.to_string())),
        };
        let mut w = quick_xml::Writer::new(Vec::new());
        w.write_event(ev).unwrap();
        out.push(String::from_utf8_lossy(&w.into_inner()).into_owned());
    }
}

/// Reads `tag` with quick-xml and gives the name and the attributes of the
/// start or empty-element tag it holds.
#[verifier::external_body]
pub(crate) fn xml_tag_parts(tag: &str) -> (r: Option<(String, Vec<Option<(String, String)>>)>)
    ensures
        match spec_xml_tag_parts(tag@) {
            Some((n, a)) => r matches Some((rn, ra)) && rn@ == n && attrs_text(ra@) == a,
            None => r is None,
        },
{
    match quick_xml::reader::Reader::from_str(tag).read_event() {
        Ok(quick_xml::events::Event::Start(e)) | Ok(quick_xml::events::Event::Empty(e)) => Some((
            e.name().0.to_string(),
            e.attributes().map(|a| a.ok().map(|a| (a.key.0.to_string(), a.value.into_owned()))).collect(),
        )),
        _ => None,
    }
}

/// Builds a quick-xml `BytesStart` named `name` with the attributes `attrs`
/// (`push_attribute`, which escapes each value) and gives its content.
#[verifier::external_body]
pub(crate) fn xml_tag_content(name: &str, attrs: &Vec<(String, String)>) -> (r: String)
    ensures
        r@ == spec_xml_tag_content(name@, pairs_text(attrs@)),
{
    let mut st = quick_xml::events::BytesStart::new(name);
    for (k, v) in attrs.iter() {
        st.push_attribute((k.as_str(), v.as_str()));
    }
    String::from(&*st)
}

/// The escaped text of quick-xml's `BytesText::new(text)`.
#[verifier::external_body]
pub(crate) fn xml_escape(text: &str) -> (r: String)
    ensures
        r@ == spec_xml_escape(text@),
{
    String::from(&*quick_xml::events::BytesText::new(text))
}

/// Calls quick-xml's `escape::unescape`.
#[verifier::external_body]
pub(crate) fn xml_unescape(raw: &str) -> (r: Result<String, String>)
    ensures
        match spec_xml_unescape(raw@) {
            Ok(s) => r matches Ok(x) && x@ == s,
            Err(e) => r matches Err(m) && m@ == e,
        },
{
    quick_xml::escape::unescape(raw).map(|s| s.into_owned()).map_err(|e| e.to_string())
}

// ---------------------------------------------------------------------------
// Events
// ---------------------------------------------------------------------------

/// What an event is, as far as the rewriting needs to know.
#[derive(PartialEq, Eq, Structural, Clone, Copy)]
pub enum EventKind {
    Start,
    End,
    Empty,
    Text,
    Other,
}

/// The kind of the event written as `t`: `</..>` ends an element, `<!..>`
/// and `<?..?>` are comments, declarations and the like, `<../>` is an empty
/// element, any other `<..>` starts one, `&..;` is a reference and the rest
/// is text.
pub open spec fn kind_of(t: Seq<char>) -> EventKind {
    if t.len() >= 3 && t[0] == '<' && t[1] == '/' {
        EventKind::End
    } else if t.len() >= 2 && t[0] == '<' && (t[1] == '!' || t[1] == '?') {
        EventKind::Other
    } else if t.len() >= 3 && t[0] == '<' && t[t.len() - 2] == '/' && t[t.len() - 1] == '>' {
        EventKind::Empty
    } else if t.len() >= 1 && t[0] == '<' {
        EventKind::Start
    } else if t.len() >= 1 && t[0] == '&' {
        EventKind::Other
    } else {
        EventKind::Text
    }
}

/// An event as it was read: its text, its kind, and for tags the element's
/// name and, for start and empty-element tags, its attributes.
pub struct XmlEvent {
    pub text: String,
    pub kind: EventKind,
    pub name: String,
    pub attrs: Vec<Option<(String, String)>>,
}

/// The mathematical form of an [`XmlEvent`].
pub struct XmlEventV {
    pub text: Seq<char>,
    pub kind: EventKind,
    pub name: Seq<char>,
    pub attrs: Seq<Option<(Seq<char>, Seq<char>)>>,
}

impl View for XmlEvent {
    type V = XmlEventV;

    open spec fn view(&self) -> XmlEventV {
        XmlEventV { text: self.text@, kind: self.kind, name: self.name@, attrs: attrs_text(self.attrs@) }
    }
}

/// The event written as `t`.
pub open spec fn event_of(t: Seq<char>) -> XmlEventV {
    let kind = kind_of(t);
    let tag = kind == EventKind::Start || kind == EventKind::Empty;
    let (name, attrs) = match spec_xml_tag_parts(t) {
        Some((n, a)) => if tag {
            (n, a)
        } else {
            (seq![], seq![])
        },
        None => (seq![], seq![]),
    };
    XmlEventV {
        text: t,
        kind,
        name: if kind == EventKind::End {
            t.subrange(2, t.len() - 1)
        } else {
            name
        },
        attrs,
    }
}

/// The events of a list of texts.
pub open spec fn events_of(ts: Seq<Seq<char>>) -> Seq<XmlEventV> {
    ts.map_values(|t: Seq<char>| event_of(t))
}

/// The mathematical form of a list of events.
pub open spec fn events_view(v: Seq<XmlEvent>) -> Seq<XmlEventV> {
    v.map_values(|e: XmlEvent| e@)
}

/// The kind of the event written as `t`.
pub fn classify(t: &str) -> (r: EventKind)
    ensures
        r == kind_of(t@),
{
    let c = crate::text::to_chars(t);
    let n = c.len();
    if n >= 3 && c[0] == '<' && c[1] == '/' {
        EventKind::End
    } else if n >= 2 && c[0] == '<' && (c[1] == '!' || c[1] == '?') {
        EventKind::Other
    } else if n >= 3 && c[0] == '<' && c[n - 2] == '/' && c[n - 1] == '>' {
        EventKind::Empty
    } else if n >= 1 && c[0] == '<' {
        EventKind::Start
    } else if n >= 1 && c[0] == '&' {
        EventKind::Other
    } else {
        EventKind::Text
    }
}

/// The event written as `t`, with its name and attributes read.
pub fn read_event(t: String) -> (r: XmlEvent)
    ensures
        r@ == event_of(t@),
{
    let kind = classify(t.as_str());
    if kind == EventKind::End {
        let c = crate::text::to_chars(t.as_str());
        let name = crate::text::from_chars(&crate::text::sub_chars(&c, 2, c.len() - 1));
        let r = XmlEvent { text: t, kind, name, attrs: Vec::new() };
        assert(attrs_text(r.attrs@) =~= Seq::<Option<(Seq<char>, Seq<char>)>>::empty());
        return r;
    }
    if kind == EventKind::Start || kind == EventKind::Empty {
        match xml_tag_parts(t.as_str()) {
            Some((name, attrs)) => {
                return XmlEvent { text: t, kind, name, attrs };
            },
            None => {},
        }
    }
    let r = XmlEvent { text: t, kind, name: String::new(), attrs: Vec::new() };
    assert(attrs_text(r.attrs@) =~= Seq::<Option<(Seq<char>, Seq<char>)>>::empty());
    r
}

/// The events quick-xml reads from `xml`, up to the end or the first error,
/// and that error's message.
pub fn read_events(xml: &[u8]) -> (r: (Vec<XmlEvent>, Option<String>))
    ensures
        events_view(r.0@) == events_of(spec_xml_events(xml@).0),
        opt_text(r.1) == spec_xml_events(xml@).1,
{
    let (texts, err) = xml_events(xml);
    let ghost ts = texts_of(texts@);
    let mut out: Vec<XmlEvent> = Vec::new();
    let mut rest = texts;
    let ghost mut i: int = 0;
    assert(texts@.skip(0) =~= texts@);
    let ghost all = texts@;
    while rest.len() > 0
        invariant
            0 <= i <= all.len(),
            rest@ == all.skip(i),
            ts == texts_of(all),
            events_view(out@) == events_of(ts.take(i)),
        decreases rest@.len(),
    {
        assert(all.skip(i)[0] == all[i]);
        let t = rest.remove(0);
        assert(rest@ =~= all.skip(i + 1));
        let ev = read_event(t);
        let ghost before = out@;
        out.push(ev);
        proof {
            assert(ts[i] == all[i]@);
            assert(ts.take(i + 1) =~= ts.take(i).push(ts[i]));
            assert(events_view(out@) =~= events_view(before).push(out@[i]@));
            assert(events_view(out@) =~= events_of(ts.take(i + 1)));
            i = i + 1;
        }
    }
    assert(ts.take(i) =~= ts);
    (out, err)
}

// ---------------------------------------------------------------------------
// Attributes
// ---------------------------------------------------------------------------

/// The value of an attribute read from its raw text, or the error that
/// stops the reading.
pub open spec fn spec_attr_str(raw: Seq<char>) -> Result<Seq<char>, Seq<char>> {
    match spec_xml_unescape(raw) {
        Ok(s) => Ok(s),
        Err(e) => Err("属性转义解析失败: "@ + e),
    }
}

/// Reads the value of an attribute from its raw text.
pub fn attr_str(raw: &str) -> (r: Result<String, String>)
    ensures
        match spec_attr_str(raw@) {
            Ok(s) => r matches Ok(x) && x@ == s,
            Err(e) => r matches Err(m) && m@ == e,
        },
{
    match xml_unescape(raw) {
        Ok(s) => Ok(s),
        Err(e) => Err(crate::text::concat_str("属性转义解析失败: ", e.as_str())),
    }
}

/// Two attributes of a tag, read in order over its attributes (those that
/// quick-xml could not read are passed over): the one keyed `a`, and the
/// one keyed `b1` or `b2`; a later one of a key replaces an earlier one, and
/// the first value that cannot be read stops the reading with its error.
pub open spec fn two_attrs(
    attrs: Seq<Option<(Seq<char>, Seq<char>)>>,
    a: Seq<char>,
    b1: Seq<char>,
    b2: Seq<char>,
) -> Result<(Option<Seq<char>>, Option<Seq<char>>), Seq<char>>
    decreases attrs.len(),
{
    if attrs.len() == 0 {
        Ok((None, None))
    } else {
        match two_attrs(attrs.drop_last(), a, b1, b2) {
            Err(e) => Err(e),
            Ok((x, y)) => match attrs.last() {
                None => Ok((x, y)),
                Some((k, v)) => if k == a {
                    match spec_attr_str(v) {
                        Ok(s) => Ok((Some(s), y)),
                        Err(e) => Err(e),
                    }
                } else if k == b1 || k == b2 {
                    match spec_attr_str(v) {
                        Ok(s) => Ok((x, Some(s))),
                        Err(e) => Err(e),
                    }
                } else {
                    Ok((x, y))
                },
            },
        }
    }
}

/// Reads the two attributes of [`two_attrs`] from `attrs`.
fn read_two_attrs(attrs: &Vec<Option<(String, String)>>, a: &str, b1: &str, b2: &str) -> (r: Result<
    (Option<String>, Option<String>),
    String,
>)
    ensures
        match two_attrs(attrs_text(attrs@), a@, b1@, b2@) {
            Ok((x, y)) => r matches Ok((rx, ry)) && opt_text(rx) == x && opt_text(ry) == y,
            Err(e) => r matches Err(m) && m@ == e,
        },
{
    let mut x: Option<String> = None;
    let mut y: Option<String> = None;
    let mut i: usize = 0;
    while i < attrs.len()
        invariant
            0 <= i <= attrs@.len(),
            two_attrs(attrs_text(attrs@).take(i as int), a@, b1@, b2@) == Ok::<
                (Option<Seq<char>>, Option<Seq<char>>),
                Seq<char>,
            >((opt_text(x), opt_text(y))),
        decreases attrs.len() - i,
    {
        let ghost pre = attrs_text(attrs@).take(i as int);
        assert(attrs_text(attrs@).take(i + 1).drop_last() =~= pre);
        assert(attrs_text(attrs@).take(i + 1).last() == attrs_text(attrs@)[i as int]);
        match &attrs[i] {
            None => {},
            Some((k, v)) => {
                if crate::text::str_eq(k.as_str(), a) {
                    match attr_str(v.as_str()) {
                        Ok(s) => {
                            x = Some(s);
                        },
                        Err(e) => {
                            proof {
                                lemma_two_attrs_err(attrs_text(attrs@), a@, b1@, b2@, i + 1);
                            }
                            return Err(e);
                        },
                    }
                } else if crate::text::str_eq(k.as_str(), b1) || crate::text::str_eq(k.as_str(), b2) {
                    match attr_str(v.as_str()) {
                        Ok(s) => {
                            y = Some(s);
                        },
                        Err(e) => {
                            proof {
                                lemma_two_attrs_err(attrs_text(attrs@), a@, b1@, b2@, i + 1);
                            }
                            return Err(e);
                        },
                    }
                }
            },
        }
        i = i + 1;
    }
    assert(attrs_text(attrs@).take(i as int) =~= attrs_text(attrs@));
    Ok((x, y))
}

/// Once the reading of the attributes has stopped at an error, reading more
/// of them gives the same error.
proof fn lemma_two_attrs_err(
    attrs: Seq<Option<(Seq<char>, Seq<char>)>>,
    a: Seq<char>,
    b1: Seq<char>,
    b2: Seq<char>,
    i: int,
)
    requires
        0 <= i <= attrs.len(),
        two_attrs(attrs.take(i), a, b1, b2) is Err,
    ensures
        two_attrs(attrs, a, b1, b2) == two_attrs(attrs.take(i), a, b1, b2),
    decreases attrs.len() - i,
{
    if i < attrs.len() {
        assert(attrs.take(i + 1).drop_last() =~= attrs.take(i));
        lemma_two_attrs_err(attrs, a, b1, b2, i + 1);
    } else {
        assert(attrs.take(i) =~= attrs);
    }
}

// ---------------------------------------------------------------------------
// Finding the part of a sheet
// ---------------------------------------------------------------------------

/// How a search over the events of a document ended.
pub enum Found {
    /// The element was found; the second attribute it had, if any.
    Hit(Option<Seq<char>>),
    /// An attribute could not be read.
    Failed(Seq<char>),
    /// No element matched.
    Missing,
}

/// The first start or empty-element tag named `elem` whose `a` attribute is
/// `wanted`, searched from the first event: its `b1`/`b2` attribute.
pub open spec fn search(
    evs: Seq<XmlEventV>,
    elem: Seq<char>,
    a: Seq<char>,
    b1: Seq<char>,
    b2: Seq<char>,
    wanted: Seq<char>,
) -> Found
    decreases evs.len(),
{
    if evs.len() == 0 {
        Found::Missing
    } else {
        let e = evs[0];
        if (e.kind == EventKind::Start || e.kind == EventKind::Empty) && e.name == elem {
            match two_attrs(e.attrs, a, b1, b2) {
                Err(m) => Found::Failed(m),
                Ok((x, y)) => if x == Some(wanted) {
                    Found::Hit(y)
                } else {
                    search(evs.drop_first(), elem, a, b1, b2, wanted)
                },
            }
        } else {
            search(evs.drop_first(), elem, a, b1, b2, wanted)
        }
    }
}

/// Searches `evs` from index `from` as [`search`] does.
fn search_events(
    evs: &Vec<XmlEvent>,
    elem: &str,
    a: &str,
    b1: &str,
    b2: &str,
    wanted: &str,
) -> (r: Result<Option<Option<String>>, String>)
    ensures
        match search(events_view(evs@), elem@, a@, b1@, b2@, wanted@) {
            Found::Hit(y) => r matches Ok(Some(ry)) && opt_text(ry) == y,
            Found::Failed(m) => r matches Err(rm) && rm@ == m,
            Found::Missing => r matches Ok(None),
        },
{
    let ghost all = events_view(evs@);
    let mut i: usize = 0;
    assert(all.skip(0) =~= all);
    while i < evs.len()
        invariant
            0 <= i <= evs@.len(),
            all == events_view(evs@),
            search(all, elem@, a@, b1@, b2@, wanted@) == search(all.skip(i as int), elem@, a@, b1@, b2@, wanted@),
        decreases evs.len() - i,
    {
        let e = &evs[i];
        assert(all.skip(i as int)[0] == e@);
        assert(all.skip(i as int).drop_first() =~= all.skip(i + 1));
        if (e.kind == EventKind::Start || e.kind == EventKind::Empty) && crate::text::str_eq(e.name.as_str(), elem) {
            match read_two_attrs(&e.attrs, a, b1, b2) {
                Err(m) => {
                    return Err(m);
                },
                Ok((x, y)) => {
                    let hit = match &x {
                        Some(xs) => crate::text::str_eq(xs.as_str(), wanted),
                        None => false,
                    };
                    if hit {
                        return Ok(Some(y));
                    }
                },
            }
        }
        i = i + 1;
    }
    assert(all.skip(i as int) =~= Seq::<XmlEventV>::empty());
    Ok(None)
}

/// The constant key of the relationship id written with its namespace.
pub open spec fn rid_ns_key() -> Seq<char> {
    "{http://schemas.openxmlformats.org/officeDocument/2006/relationships}id"@
}

/// The part named by a relationship target: leading `/` dropped, under `xl/`.
pub open spec fn part_of_target(t: Seq<char>) -> Seq<char> {
    let u = trim_leading_slashes(t);
    if crate::text::has_prefix(u, "xl/"@) {
        u
    } else {
        "xl/"@ + u
    }
}

/// `t` without the `/` characters it starts with.
pub open spec fn trim_leading_slashes(t: Seq<char>) -> Seq<char>
    decreases t.len(),
{
    if t.len() > 0 && t[0] == '/' {
        trim_leading_slashes(t.drop_first())
    } else {
        t
    }
}

/// The part of the workbook that holds the sheet `sheet_name`: the sheet's
/// relationship id from `workbook.xml`, that relationship's target from the
/// relationships, under `xl/`; or the error that stops the search.
pub open spec fn spec_find_sheet_part(wb: Seq<u8>, rels: Seq<u8>, sheet_name: Seq<char>) -> Result<
    Seq<char>,
    Seq<char>,
> {
    let (wts, werr) = spec_xml_events(wb);
    let not_found = "在 workbook.xml 中找不到 sheet: "@ + sheet_name;
    match search(events_of(wts), "sheet"@, "name"@, "r:id"@, rid_ns_key(), sheet_name) {
        Found::Failed(m) => Err(m),
        Found::Hit(None) => Err(not_found),
        Found::Missing => match werr {
            Some(e) => Err("解析 workbook.xml 失败: "@ + e),
            None => Err(not_found),
        },
        Found::Hit(Some(rid)) => {
            let (rts, rerr) = spec_xml_events(rels);
            let no_id = "rels 中找不到 Id: "@ + rid;
            match search(events_of(rts), "Relationship"@, "Id"@, "Target"@, "Target"@, rid) {
                Found::Failed(m) => Err(m),
                Found::Hit(None) => Err(no_id),
                Found::Missing => match rerr {
                    Some(e) => Err("解析 workbook.xml.rels 失败: "@ + e),
                    None => Err(no_id),
                },
                Found::Hit(Some(t)) => Ok(part_of_target(t)),
            }
        },
    }
}

/// Finds the part of the workbook that holds the sheet `sheet_name`, from
/// `xl/workbook.xml` and `xl/_rels/workbook.xml.rels`.
pub fn find_sheet_part(workbook_xml: &[u8], rels_xml: &[u8], sheet_name: &str) -> (r: Result<String, String>)
    ensures
        match spec_find_sheet_part(workbook_xml@, rels_xml@, sheet_name@) {
            Ok(p) => r matches Ok(x) && x@ == p,
            Err(e) => r matches Err(m) && m@ == e,
        },
{
    let (wevs, werr) = read_events(workbook_xml);
    proof {
        reveal_strlit("sheet");
        reveal_strlit("name");
        reveal_strlit("r:id");
        reveal_strlit("{http://schemas.openxmlformats.org/officeDocument/2006/relationships}id");
    }
    let rid = match search_events(
        &wevs,
        "sheet",
        "name",
        "r:id",
        "{http://schemas.openxmlformats.org/officeDocument/2006/relationships}id",
        sheet_name,
    )? {
        Some(Some(rid)) => rid,
        Some(None) => {
            return Err(crate::text::concat_str("在 workbook.xml 中找不到 sheet: ", sheet_name));
        },
        None => {
            return match werr {
                Some(e) => Err(crate::text::concat_str("解析 workbook.xml 失败: ", e.as_str())),
                None => Err(crate::text::concat_str("在 workbook.xml 中找不到 sheet: ", sheet_name)),
            };
        },
    };
    let (revs, rerr) = read_events(rels_xml);
    let target = match search_events(&revs, "Relationship", "Id", "Target", "Target", rid.as_str())? {
        Some(Some(t)) => t,
        Some(None) => {
            return Err(crate::text::concat_str("rels 中找不到 Id: ", rid.as_str()));
        },
        None => {
            return match rerr {
                Some(e) => Err(crate::text::concat_str("解析 workbook.xml.rels 失败: ", e.as_str())),
                None => Err(crate::text::concat_str("rels 中找不到 Id: ", rid.as_str())),
            };
        },
    };
    Ok(part_for_target(target.as_str()))
}

/// The part named by a relationship target (see [`part_of_target`]).
pub fn part_for_target(target: &str) -> (r: String)
    ensures
        r@ == part_of_target(target@),
{
    let c = crate::text::to_chars(target);
    let mut i: usize = 0;
    assert(c@.skip(0) =~= c@);
    while i < c.len() && c[i] == '/'
        invariant
            0 <= i <= c@.len(),
            trim_leading_slashes(c@) == trim_leading_slashes(c@.skip(i as int)),
        decreases c.len() - i,
    {
        assert(c@.skip(i as int).drop_first() =~= c@.skip(i + 1));
        i = i + 1;
    }
    let u = crate::text::sub_chars(&c, i, c.len());
    assert(u@ =~= c@.skip(i as int));
    assert(trim_leading_slashes(u@) == u@);
    let xl = crate::text::to_chars("xl/");
    proof {
        reveal_strlit("xl/");
    }
    assert(u@.skip(0) =~= u@);
    if crate::text::matches_at(&u, 0, &xl) {
        crate::text::from_chars(&u)
    } else {
        let mut out = xl;
        crate::text::push_all(&mut out, &u);
        crate::text::from_chars(&out)
    }
}

// ---------------------------------------------------------------------------
// Cell values and the cells to write
// ---------------------------------------------------------------------------

/// The value of a cell. A number is held as the text it is written as.
pub enum CellValue {
    Str(String),
    Num(String),
    Int(i64),
    Bool(bool),
    Error(String),
    Empty,
}

/// The mathematical form of a [`CellValue`].
pub enum CellValueV {
    Str(Seq<char>),
    Num(Seq<char>),
    Int(i64),
    Bool(bool),
    Error(Seq<char>),
    Empty,
}

impl View for CellValue {
    type V = CellValueV;

    open spec fn view(&self) -> CellValueV {
        match self {
            CellValue::Str(s) => CellValueV::Str(s@),
            CellValue::Num(s) => CellValueV::Num(s@),
            CellValue::Int(i) => CellValueV::Int(*i),
            CellValue::Bool(b) => CellValueV::Bool(*b),
            CellValue::Error(s) => CellValueV::Error(s@),
            CellValue::Empty => CellValueV::Empty,
        }
    }
}

impl CellValue {
    /// A copy of this value.
    pub fn copy(&self) -> (r: CellValue)
        ensures
            r@ == self@,
    {
        match self {
            CellValue::Str(s) => CellValue::Str(s.clone()),
            CellValue::Num(s) => CellValue::Num(s.clone()),
            CellValue::Int(i) => CellValue::Int(*i),
            CellValue::Bool(b) => CellValue::Bool(*b),
            CellValue::Error(s) => CellValue::Error(s.clone()),
            CellValue::Empty => CellValue::Empty,
        }
    }

    /// Whether this is the empty value.
    pub fn is_empty(&self) -> (r: bool)
        ensures
            r == (self@ == CellValueV::Empty),
    {
        match self {
            CellValue::Empty => true,
            _ => false,
        }
    }
}

/// The values to write, by row and column: `values[i][j]` goes to row
/// `top + i`, column `left + j` (1-based).
pub struct WriteGrid {
    pub top: usize,
    pub left: usize,
    pub values: Vec<Vec<CellValue>>,
}

impl WriteGrid {
    /// The value to write at row `r`, column `c`, if there is one.
    pub open spec fn at(&self, r: int, c: int) -> Option<CellValueV> {
        if self.top <= r && self.left <= c && r - self.top < self.values@.len() && c - self.left
            < self.values@[r - self.top]@.len() {
            Some(self.values@[r - self.top]@[c - self.left]@)
        } else {
            None
        }
    }

    /// The value to write at row `r`, column `c`, if there is one.
    pub fn get(&self, r: usize, c: usize) -> (res: Option<&CellValue>)
        ensures
            match self.at(r as int, c as int) {
                Some(v) => res matches Some(x) && x@ == v,
                None => res is None,
            },
    {
        if r < self.top || c < self.left {
            return None;
        }
        let i = r - self.top;
        let j = c - self.left;
        if i >= self.values.len() {
            return None;
        }
        let row = &self.values[i];
        if j >= row.len() {
            return None;
        }
        Some(&row[j])
    }
}

// ---------------------------------------------------------------------------
// Writing tags and cells
// ---------------------------------------------------------------------------

/// A start tag as quick-xml's `Writer` writes it.
pub open spec fn open_tag(name: Seq<char>, attrs: Seq<(Seq<char>, Seq<char>)>) -> Seq<char> {
    "<"@ + spec_xml_tag_content(name, attrs) + ">"@
}

/// An empty-element tag as quick-xml's `Writer` writes it.
pub open spec fn empty_tag(name: Seq<char>, attrs: Seq<(Seq<char>, Seq<char>)>) -> Seq<char> {
    "<"@ + spec_xml_tag_content(name, attrs) + "/>"@
}

/// An end tag as quick-xml's `Writer` writes it.
pub open spec fn close_tag(name: Seq<char>) -> Seq<char> {
    "</"@ + name + ">"@
}

fn open_tag_text(name: &str, attrs: &Vec<(String, String)>) -> (r: String)
    ensures
        r@ == open_tag(name@, pairs_text(attrs@)),
{
    let c = xml_tag_content(name, attrs);
    let a = concat_str("<", c.as_str());
    concat_str(a.as_str(), ">")
}

fn empty_tag_text(name: &str, attrs: &Vec<(String, String)>) -> (r: String)
    ensures
        r@ == empty_tag(name@, pairs_text(attrs@)),
{
    let c = xml_tag_content(name, attrs);
    let a = concat_str("<", c.as_str());
    concat_str(a.as_str(), "/>")
}

fn close_tag_text(name: &str) -> (r: String)
    ensures
        r@ == close_tag(name@),
{
    let a = concat_str("</", name);
    concat_str(a.as_str(), ">")
}

/// The attributes of a written cell: its reference, its style if any, and
/// its type if any.
pub open spec fn cell_attrs(cell_ref: Seq<char>, s: Option<Seq<char>>, t: Option<Seq<char>>) -> Seq<
    (Seq<char>, Seq<char>),
> {
    seq![("r"@, cell_ref)] + (match s {
        Some(x) => seq![("s"@, x)],
        None => seq![],
    }) + (match t {
        Some(x) => seq![("t"@, x)],
        None => seq![],
    })
}

/// The type attribute written for a value held in `<v>`.
pub open spec fn value_type(v: CellValueV) -> Option<Seq<char>> {
    match v {
        CellValueV::Bool(_) => Some("b"@),
        CellValueV::Error(_) => Some("e"@),
        _ => None,
    }
}

/// The text written for a value held in `<v>`.
pub open spec fn value_text(v: CellValueV) -> Seq<char> {
    match v {
        CellValueV::Num(t) => t,
        CellValueV::Int(n) => int_decimal(n as int),
        CellValueV::Bool(b) => if b {
            "1"@
        } else {
            "0"@
        },
        CellValueV::Error(e) => e,
        _ => seq![],
    }
}

/// The events written for a cell `cell_ref` with the style `s` holding `v`:
/// an empty value is an empty `<c>`, a string an inline string, anything
/// else a `<v>` value.
pub open spec fn cell_events(cell_ref: Seq<char>, s: Option<Seq<char>>, v: CellValueV) -> Seq<Seq<char>> {
    match v {
        CellValueV::Empty => seq![empty_tag("c"@, cell_attrs(cell_ref, s, None))],
        CellValueV::Str(t) => seq![
            open_tag("c"@, cell_attrs(cell_ref, s, Some("inlineStr"@))),
            open_tag("is"@, seq![]),
            open_tag("t"@, seq![]),
            spec_xml_escape(t),
            close_tag("t"@),
            close_tag("is"@),
            close_tag("c"@),
        ],
        _ => seq![
            open_tag("c"@, cell_attrs(cell_ref, s, value_type(v))),
            open_tag("v"@, seq![]),
            spec_xml_escape(value_text(v)),
            close_tag("v"@),
            close_tag("c"@),
        ],
    }
}

/// The events of one cell `cell_ref` with the style `s_attr`, holding `value`.
pub fn build_cell_events(cell_ref: &str, s_attr: Option<&str>, value: &CellValue) -> (r: Vec<String>)
    ensures
        texts_of(r@) == cell_events(
            cell_ref@,
            match s_attr {
                Some(x) => Some(x@),
                None => None,
            },
            value@,
        ),
{
    let ghost s = match s_attr {
        Some(x) => Some(x@),
        None => None,
    };
    let mut attrs: Vec<(String, String)> = Vec::new();
    attrs.push((String::from_str("r"), cell_ref.to_string()));
    match s_attr {
        Some(x) => attrs.push((String::from_str("s"), x.to_string())),
        None => {},
    }
    let no_attrs: Vec<(String, String)> = Vec::new();
    proof {
        reveal_strlit("r");
        reveal_strlit("s");
        reveal_strlit("t");
        assert(pairs_text(no_attrs@) =~= Seq::<(Seq<char>, Seq<char>)>::empty());
    }
    let mut out: Vec<String> = Vec::new();
    match value {
        CellValue::Empty => {
            assert(pairs_text(attrs@) =~= cell_attrs(cell_ref@, s, None));
            out.push(empty_tag_text("c", &attrs));
        },
        CellValue::Str(text) => {
            attrs.push((String::from_str("t"), String::from_str("inlineStr")));
            assert(pairs_text(attrs@) =~= cell_attrs(cell_ref@, s, Some("inlineStr"@)));
            out.push(open_tag_text("c", &attrs));
            out.push(open_tag_text("is", &no_attrs));
            out.push(open_tag_text("t", &no_attrs));
            out.push(xml_escape(text.as_str()));
            out.push(close_tag_text("t"));
            out.push(close_tag_text("is"));
            out.push(close_tag_text("c"));
        },
        _ => {
            let text = match value {
                CellValue::Num(t) => t.clone(),
                CellValue::Int(n) => i64_to_decimal(*n),
                CellValue::Bool(b) => if *b {
                    String::from_str("1")
                } else {
                    String::from_str("0")
                },
                CellValue::Error(e) => e.clone(),
                _ => String::new(),
            };
            match value {
                CellValue::Bool(_) => attrs.push((String::from_str("t"), String::from_str("b"))),
                CellValue::Error(_) => attrs.push((String::from_str("t"), String::from_str("e"))),
                _ => {},
            }
            assert(pairs_text(attrs@) =~= cell_attrs(cell_ref@, s, value_type(value@)));
            assert(text@ == value_text(value@));
            out.push(open_tag_text("c", &attrs));
            out.push(open_tag_text("v", &no_attrs));
            out.push(xml_escape(text.as_str()));
            out.push(close_tag_text("v"));
            out.push(close_tag_text("c"));
        },
    }
    assert(texts_of(out@) =~= cell_events(cell_ref@, s, value@));
    out
}

/// The attributes of a `<row>` tag written for row `n`.
pub open spec fn row_attrs(n: nat) -> Seq<(Seq<char>, Seq<char>)> {
    seq![("r"@, int_decimal(n as int))]
}

fn row_attrs_vec(row_num: usize) -> (r: Vec<(String, String)>)
    ensures
        pairs_text(r@) == row_attrs(row_num as nat),
{
    let mut attrs: Vec<(String, String)> = Vec::new();
    attrs.push((String::from_str("r"), u64_to_decimal(row_num as u64)));
    proof {
        reveal_strlit("r");
    }
    assert(pairs_text(attrs@) =~= row_attrs(row_num as nat));
    attrs
}

/// The start tag of row `row_num`.
pub fn row_start(row_num: usize) -> (r: String)
    ensures
        r@ == open_tag("row"@, row_attrs(row_num as nat)),
{
    proof {
        reveal_strlit("row");
    }
    open_tag_text("row", &row_attrs_vec(row_num))
}

/// The events of a row element holding `children`: an empty-element tag
/// when it had one and has no children, else start tag, children, end tag.
pub open spec fn row_element(row_num: nat, children: Seq<Seq<char>>, was_empty: bool) -> Seq<Seq<char>> {
    if children.len() == 0 && was_empty {
        seq![empty_tag("row"@, row_attrs(row_num))]
    } else {
        seq![open_tag("row"@, row_attrs(row_num))] + children + seq![close_tag("row"@)]
    }
}

/// The events of row `row_num` holding `children`.
pub fn make_row_element(row_num: usize, children: Vec<String>, was_empty: bool) -> (r: Vec<String>)
    ensures
        texts_of(r@) == row_element(row_num as nat, texts_of(children@), was_empty),
{
    proof {
        reveal_strlit("row");
    }
    let mut evs: Vec<String> = Vec::new();
    if children.len() == 0 && was_empty {
        evs.push(empty_tag_text("row", &row_attrs_vec(row_num)));
        assert(texts_of(evs@) =~= row_element(row_num as nat, texts_of(children@), was_empty));
    } else {
        let ghost ch = texts_of(children@);
        evs.push(row_start(row_num));
        assert(texts_of(evs@) =~= seq![open_tag("row"@, row_attrs(row_num as nat))]);
        let mut rest = children;
        append_texts(&mut evs, &mut rest);
        let ghost mid = texts_of(evs@);
        evs.push(close_tag_text("row"));
        assert(texts_of(evs@) =~= mid.push(close_tag("row"@)));
        assert(texts_of(evs@) =~= row_element(row_num as nat, ch, was_empty));
    }
    evs
}

/// Moves all of `more` to the end of `out`.
fn append_texts(out: &mut Vec<String>, more: &mut Vec<String>)
    ensures
        texts_of(final(out)@) == texts_of(old(out)@) + texts_of(old(more)@),
{
    let ghost a = out@;
    let ghost b = more@;
    out.append(more);
    assert(out@ =~= a + b);
    assert(texts_of(out@) =~= texts_of(a) + texts_of(b));
}

/// The reference of the cell at row `row`, column `col`.
pub open spec fn cell_ref_of(row: nat, col: nat) -> Seq<char> {
    col_name(col) + int_decimal(row as int)
}

fn cell_ref_text(row: usize, col: usize) -> (r: String)
    ensures
        r@ == cell_ref_of(row as nat, col as nat),
{
    let a = col_letter(col);
    let b = u64_to_decimal(row as u64);
    concat_str(a.as_str(), b.as_str())
}

/// The cells of a new row `row`: for each column from `c` to `c1`, the
/// value to write there, if any and not empty.
pub open spec fn new_row_cells(g: WriteGrid, row: nat, c: int, c1: int) -> Seq<Seq<char>>
    decreases c1 + 1 - c,
{
    if c > c1 || c < 0 {
        seq![]
    } else {
        (match g.at(row as int, c) {
            Some(v) => if v == CellValueV::Empty {
                seq![]
            } else {
                cell_events(cell_ref_of(row, c as nat), None, v)
            },
            None => seq![],
        }) + new_row_cells(g, row, c + 1, c1)
    }
}

/// The cells written for row `row_num` that the sheet does not have yet.
pub fn build_row_cells(row_num: usize, c0: usize, c1: usize, grid: &WriteGrid) -> (r: Vec<String>)
    requires
        c1 < usize::MAX,
    ensures
        texts_of(r@) == new_row_cells(*grid, row_num as nat, c0 as int, c1 as int),
{
    let mut out: Vec<String> = Vec::new();
    if c0 > c1 {
        assert(texts_of(out@) =~= Seq::<Seq<char>>::empty());
        return out;
    }
    let mut c: usize = c0;
    proof {
        assert(texts_of(out@) + new_row_cells(*grid, row_num as nat, c0 as int, c1 as int) =~= new_row_cells(
            *grid,
            row_num as nat,
            c0 as int,
            c1 as int,
        ));
    }
    while c <= c1
        invariant
            c0 <= c,
            c1 < usize::MAX,
            c <= c1 + 1,
            texts_of(out@) + new_row_cells(*grid, row_num as nat, c as int, c1 as int) == new_row_cells(
                *grid,
                row_num as nat,
                c0 as int,
                c1 as int,
            ),
        decreases c1 + 1 - c,
    {
        let ghost before = texts_of(out@);
        match grid.get(row_num, c) {
            Some(v) => {
                if !v.is_empty() {
                    let cell_ref = cell_ref_text(row_num, c);
                    let mut evs = build_cell_events(cell_ref.as_str(), None, v);
                    append_texts(&mut out, &mut evs);
                }
            },
            None => {},
        }
        assert(texts_of(out@) + new_row_cells(*grid, row_num as nat, c + 1, c1 as int) =~= before
            + new_row_cells(*grid, row_num as nat, c as int, c1 as int));
        c = c + 1;
    }
    assert(new_row_cells(*grid, row_num as nat, c as int, c1 as int) =~= Seq::<Seq<char>>::empty());
    assert(texts_of(out@) =~= texts_of(out@) + Seq::<Seq<char>>::empty());
    out
}

// ---------------------------------------------------------------------------
// Row numbers, cell columns and the dimension
// ---------------------------------------------------------------------------

/// The raw value of the first readable attribute keyed `key`.
pub open spec fn first_attr(attrs: Seq<Option<(Seq<char>, Seq<char>)>>, key: Seq<char>) -> Option<Seq<char>>
    decreases attrs.len(),
{
    if attrs.len() == 0 {
        None
    } else {
        match attrs[0] {
            Some((k, v)) => if k == key {
                Some(v)
            } else {
                first_attr(attrs.drop_first(), key)
            },
            None => first_attr(attrs.drop_first(), key),
        }
    }
}

/// The number of the row whose tag is `ev`: its `r` attribute, or, when it
/// has none, one more than the count `seq` of the rows before it; with the
/// count after it.
pub open spec fn spec_row_num(ev: XmlEventV, seq: nat) -> Result<(nat, nat), Seq<char>> {
    match first_attr(ev.attrs, "r"@) {
        Some(raw) => match spec_attr_str(raw) {
            Err(e) => Err(e),
            Ok(v) => match spec_parse_usize(v) {
                Some(n) => Ok((n as nat, seq)),
                None => Err("非法行号: "@ + v),
            },
        },
        None => Ok((seq + 1, seq + 1)),
    }
}

/// The number of the row whose tag is `ev` (see [`spec_row_num`]).
pub fn row_num_of(ev: &XmlEvent, seq: usize) -> (r: Result<(usize, usize), String>)
    requires
        seq < usize::MAX,
    ensures
        match spec_row_num(ev@, seq as nat) {
            Ok((n, s)) => r matches Ok((rn, rs)) && rn as nat == n && rs as nat == s,
            Err(e) => r matches Err(m) && m@ == e,
        },
{
    proof {
        reveal_strlit("r");
    }
    let ghost all = ev@.attrs;
    let mut i: usize = 0;
    assert(all.skip(0) =~= all);
    while i < ev.attrs.len()
        invariant
            0 <= i <= ev.attrs@.len(),
            all == ev@.attrs,
            first_attr(all, "r"@) == first_attr(all.skip(i as int), "r"@),
        decreases ev.attrs.len() - i,
    {
        assert(all.skip(i as int)[0] == all[i as int]);
        assert(all.skip(i as int).drop_first() =~= all.skip(i + 1));
        match &ev.attrs[i] {
            Some((k, raw)) => {
                if str_eq(k.as_str(), "r") {
                    let v = attr_str(raw.as_str())?;
                    return match parse_usize(v.as_str()) {
                        Some(n) => Ok((n, seq)),
                        None => Err(concat_str("非法行号: ", v.as_str())),
                    };
                }
            },
            None => {},
        }
        i = i + 1;
    }
    assert(all.skip(i as int) =~= Seq::<Option<(Seq<char>, Seq<char>)>>::empty());
    Ok((seq + 1, seq + 1))
}

/// The column and the style read from the attributes of a cell tag, in
/// order: an `r` that reads as a cell reference gives the column, an `s`
/// gives the style (empty when its value cannot be read); later ones win.
pub open spec fn cell_attrs_read(attrs: Seq<Option<(Seq<char>, Seq<char>)>>) -> (Option<nat>, Option<Seq<char>>)
    decreases attrs.len(),
{
    if attrs.len() == 0 {
        (None, None)
    } else {
        let (col, s) = cell_attrs_read(attrs.drop_last());
        match attrs.last() {
            None => (col, s),
            Some((k, raw)) => if k == "r"@ {
                match spec_attr_str(raw) {
                    Ok(v) => if cell_ref_in_range(v) {
                        match spec_single_cell_ref(v) {
                            Ok((_, c)) => (Some(c), s),
                            Err(_) => (col, s),
                        }
                    } else {
                        (col, s)
                    },
                    Err(_) => (col, s),
                }
            } else if k == "s"@ {
                (
                    col,
                    Some(
                        match spec_attr_str(raw) {
                            Ok(v) => v,
                            Err(_) => seq![],
                        },
                    ),
                )
            } else {
                (col, s)
            },
        }
    }
}

/// The column of the cell whose tag is `ev`, its style, and the count of
/// cells after it: the column of its `r` reference, or, without one, one
/// more than the count `seq` of the cells before it.
pub open spec fn spec_cell_col(ev: XmlEventV, seq: nat) -> (nat, Option<Seq<char>>, nat) {
    if ev.kind == EventKind::Start || ev.kind == EventKind::Empty {
        let (col, s) = cell_attrs_read(ev.attrs);
        match col {
            Some(c) => (c, s, seq),
            None => (seq + 1, s, seq + 1),
        }
    } else {
        (seq + 1, None, seq + 1)
    }
}

/// The column, style and following count of the cell whose tag is `ev`
/// (see [`spec_cell_col`]).
pub fn cell_col_of(ev: &XmlEvent, seq: usize) -> (r: (usize, Option<String>, usize))
    requires
        seq < usize::MAX,
    ensures
        r.0 as nat == spec_cell_col(ev@, seq as nat).0,
        opt_text(r.1) == spec_cell_col(ev@, seq as nat).1,
        r.2 as nat == spec_cell_col(ev@, seq as nat).2,
{
    if !(ev.kind == EventKind::Start || ev.kind == EventKind::Empty) {
        return (seq + 1, None, seq + 1);
    }
    proof {
        reveal_strlit("r");
        reveal_strlit("s");
    }
    let ghost all = ev@.attrs;
    let mut col: Option<usize> = None;
    let mut style: Option<String> = None;
    let mut i: usize = 0;
    while i < ev.attrs.len()
        invariant
            0 <= i <= ev.attrs@.len(),
            all == ev@.attrs,
            cell_attrs_read(all.take(i as int)) == (
                match col {
                    Some(c) => Some(c as nat),
                    None => None,
                },
                opt_text(style),
            ),
        decreases ev.attrs.len() - i,
    {
        assert(all.take(i + 1).drop_last() =~= all.take(i as int));
        assert(all.take(i + 1).last() == all[i as int]);
        match &ev.attrs[i] {
            Some((k, raw)) => {
                if str_eq(k.as_str(), "r") {
                    match attr_str(raw.as_str()) {
                        Ok(v) => {
                            if cell_ref_fits(v.as_str()) {
                                match parse_single_cell_ref(v.as_str()) {
                                    Ok((_, c)) => {
                                        col = Some(c);
                                    },
                                    Err(_) => {},
                                }
                            }
                        },
                        Err(_) => {},
                    }
                } else if str_eq(k.as_str(), "s") {
                    style = Some(
                        match attr_str(raw.as_str()) {
                            Ok(v) => v,
                            Err(_) => String::new(),
                        },
                    );
                }
            },
            None => {},
        }
        i = i + 1;
    }
    assert(all.take(i as int) =~= all);
    match col {
        Some(c) => (c, style, seq),
        None => (seq + 1, style, seq + 1),
    }
}

/// The smaller of two numbers.
pub open spec fn min_nat(a: nat, b: nat) -> nat {
    if a <= b {
        a
    } else {
        b
    }
}

/// The larger of two numbers.
pub open spec fn max_nat(a: nat, b: nat) -> nat {
    if a >= b {
        a
    } else {
        b
    }
}

/// The `ref` of the dimension after writing the rectangle `rect`: the
/// smallest range holding both the old range `v` (the rectangle itself
/// when `v` is not a range) and `rect`.
pub open spec fn dim_ref(v: Seq<char>, rect: (nat, nat, nat, nat)) -> Seq<char> {
    let (r0, c0, r1, c1) = rect;
    let (dr0, dc0, dr1, dc1) = if cell_range_in_range(v) {
        match spec_cell_ref(v) {
            Ok(x) => x,
            Err(_) => rect,
        }
    } else {
        rect
    };
    col_name(min_nat(dc0, c0)) + int_decimal(min_nat(dr0, r0) as int) + ":"@ + col_name(max_nat(dc1, c1))
        + int_decimal(max_nat(dr1, r1) as int)
}

/// The attributes of a dimension tag read in order: every one but `ref`,
/// with its value, and the new `ref` made from the last `ref`; the first
/// value that cannot be read stops the reading with its error.
pub open spec fn dim_attrs(attrs: Seq<Option<(Seq<char>, Seq<char>)>>, rect: (nat, nat, nat, nat)) -> Result<
    (Seq<(Seq<char>, Seq<char>)>, Option<Seq<char>>),
    Seq<char>,
>
    decreases attrs.len(),
{
    if attrs.len() == 0 {
        Ok((seq![], None))
    } else {
        match dim_attrs(attrs.drop_last(), rect) {
            Err(e) => Err(e),
            Ok((kept, rf)) => match attrs.last() {
                None => Ok((kept, rf)),
                Some((k, raw)) => match spec_attr_str(raw) {
                    Err(e) => Err(e),
                    Ok(v) => if k == "ref"@ {
                        Ok((kept, Some(dim_ref(v, rect))))
                    } else {
                        Ok((kept.push((k, v)), rf))
                    },
                },
            },
        }
    }
}

/// The dimension tag `ev` after writing the rectangle `rect`: an
/// empty-element tag with its other attributes and the grown `ref`; the tag
/// as it was when it is no tag or has no `ref`.
pub open spec fn spec_update_dimension(ev: XmlEventV, rect: (nat, nat, nat, nat)) -> Result<
    Seq<Seq<char>>,
    Seq<char>,
> {
    if !(ev.kind == EventKind::Start || ev.kind == EventKind::Empty) {
        Ok(seq![ev.text])
    } else {
        match dim_attrs(ev.attrs, rect) {
            Err(e) => Err(e),
            Ok((kept, None)) => Ok(seq![ev.text]),
            Ok((kept, Some(rf))) => Ok(seq![empty_tag("dimension"@, kept.push(("ref"@, rf)))]),
        }
    }
}

fn dim_ref_text(v: &str, r0: usize, c0: usize, r1: usize, c1: usize) -> (r: String)
    ensures
        r@ == dim_ref(v@, (r0 as nat, c0 as nat, r1 as nat, c1 as nat)),
{
    let (dr0, dc0, dr1, dc1) = if cell_range_fits(v) {
        match parse_cell_ref(v) {
            Ok(x) => x,
            Err(_) => (r0, c0, r1, c1),
        }
    } else {
        (r0, c0, r1, c1)
    };
    let nr0 = if dr0 <= r0 {
        dr0
    } else {
        r0
    };
    let nc0 = if dc0 <= c0 {
        dc0
    } else {
        c0
    };
    let nr1 = if dr1 >= r1 {
        dr1
    } else {
        r1
    };
    let nc1 = if dc1 >= c1 {
        dc1
    } else {
        c1
    };
    let a = cell_ref_text(nr0, nc0);
    let b = cell_ref_text(nr1, nc1);
    let ab = concat_str(a.as_str(), ":");
    proof {
        reveal_strlit(":");
    }
    concat_str(ab.as_str(), b.as_str())
}

/// The dimension tag `ev` after writing the rectangle `(r0, c0, r1, c1)`
/// (see [`spec_update_dimension`]).
pub fn update_dimension(ev: &XmlEvent, r0: usize, c0: usize, r1: usize, c1: usize) -> (r: Result<
    Vec<String>,
    String,
>)
    ensures
        match spec_update_dimension(ev@, (r0 as nat, c0 as nat, r1 as nat, c1 as nat)) {
            Ok(evs) => r matches Ok(v) && texts_of(v@) == evs,
            Err(e) => r matches Err(m) && m@ == e,
        },
{
    let ghost rect = (r0 as nat, c0 as nat, r1 as nat, c1 as nat);
    let mut same: Vec<String> = Vec::new();
    same.push(ev.text.clone());
    assert(texts_of(same@) =~= seq![ev@.text]);
    if !(ev.kind == EventKind::Start || ev.kind == EventKind::Empty) {
        return Ok(same);
    }
    proof {
        reveal_strlit("ref");
        reveal_strlit("dimension");
    }
    let ghost all = ev@.attrs;
    let mut kept: Vec<(String, String)> = Vec::new();
    let mut new_ref: Option<String> = None;
    let mut i: usize = 0;
    assert(pairs_text(kept@) =~= Seq::<(Seq<char>, Seq<char>)>::empty());
    while i < ev.attrs.len()
        invariant
            0 <= i <= ev.attrs@.len(),
            all == ev@.attrs,
            ev@.kind == EventKind::Start || ev@.kind == EventKind::Empty,
            rect == (r0 as nat, c0 as nat, r1 as nat, c1 as nat),
            dim_attrs(all.take(i as int), rect) == Ok::<
                (Seq<(Seq<char>, Seq<char>)>, Option<Seq<char>>),
                Seq<char>,
            >((pairs_text(kept@), opt_text(new_ref))),
        decreases ev.attrs.len() - i,
    {
        assert(all.take(i + 1).drop_last() =~= all.take(i as int));
        assert(all.take(i + 1).last() == all[i as int]);
        match &ev.attrs[i] {
            Some((k, raw)) => {
                let v = match attr_str(raw.as_str()) {
                    Ok(v) => v,
                    Err(e) => {
                        proof {
                            assert(all[i as int] == Some((k@, raw@)));
                            lemma_dim_attrs_err(all, rect, i + 1);
                        }
                        return Err(e);
                    },
                };
                if str_eq(k.as_str(), "ref") {
                    new_ref = Some(dim_ref_text(v.as_str(), r0, c0, r1, c1));
                } else {
                    let ghost before = kept@;
                    kept.push((k.clone(), v));
                    assert(pairs_text(kept@) =~= pairs_text(before).push((k@, kept@.last().1@)));
                }
            },
            None => {},
        }
        i = i + 1;
    }
    assert(all.take(i as int) =~= all);
    match new_ref {
        Some(rf) => {
            let ghost before = kept@;
            kept.push((String::from_str("ref"), rf));
            assert(pairs_text(kept@) =~= pairs_text(before).push(("ref"@, kept@.last().1@)));
            let mut out: Vec<String> = Vec::new();
            out.push(empty_tag_text("dimension", &kept));
            assert(texts_of(out@) =~= seq![empty_tag("dimension"@, pairs_text(kept@))]);
            Ok(out)
        },
        None => Ok(same),
    }
}

proof fn lemma_dim_attrs_err(attrs: Seq<Option<(Seq<char>, Seq<char>)>>, rect: (nat, nat, nat, nat), i: int)
    requires
        0 <= i <= attrs.len(),
        dim_attrs(attrs.take(i), rect) is Err,
    ensures
        dim_attrs(attrs, rect) == dim_attrs(attrs.take(i), rect),
    decreases attrs.len() - i,
{
    if i < attrs.len() {
        assert(attrs.take(i + 1).drop_last() =~= attrs.take(i));
        lemma_dim_attrs_err(attrs, rect, i + 1);
    } else {
        assert(attrs.take(i) =~= attrs);
    }
}

// ---------------------------------------------------------------------------
// Rebuilding a row
// ---------------------------------------------------------------------------

/// Whether `e` opens a cell: a start or empty-element tag named `c`.
pub open spec fn is_cell_tag(e: XmlEventV) -> bool {
    (e.kind == EventKind::Start || e.kind == EventKind::Empty) && e.name == "c"@
}

/// Scanning `ch` from `j` with `depth` cells open: the index just after the
/// end tag that closes them all, if there is one.
pub open spec fn cell_close(ch: Seq<XmlEventV>, j: int, depth: nat) -> Option<int>
    decreases ch.len() - j, depth,
{
    if depth == 0 {
        Some(j)
    } else if j >= ch.len() || j < 0 {
        None
    } else {
        let e = ch[j];
        let d = if e.kind == EventKind::Start && e.name == "c"@ {
            depth + 1
        } else if e.kind == EventKind::End && e.name == "c"@ {
            (depth - 1) as nat
        } else {
            depth
        };
        cell_close(ch, j + 1, d)
    }
}

/// A cell found in a row: the indices of its first and last event, its
/// column and its style.
pub type SpanV = (nat, nat, nat, Option<Seq<char>>);

/// The cells of the row children `ch` from index `i`, where `seq` cells
/// came before; the scan stops at a cell that is never closed.
pub open spec fn cell_spans(ch: Seq<XmlEventV>, i: int, seq: nat) -> Seq<SpanV>
    decreases ch.len() - i,
{
    if i >= ch.len() || i < 0 {
        seq![]
    } else if is_cell_tag(ch[i]) {
        let (col, s, seq2) = spec_cell_col(ch[i], seq);
        if ch[i].kind == EventKind::Start {
            match cell_close(ch, i + 1, 1) {
                None => seq![],
                Some(j) => if i < j <= ch.len() {
                    seq![(i as nat, (j - 1) as nat, col, s)] + cell_spans(ch, j, seq2)
                } else {
                    seq![]
                },
            }
        } else {
            seq![(i as nat, i as nat, col, s)] + cell_spans(ch, i + 1, seq2)
        }
    } else {
        cell_spans(ch, i + 1, seq)
    }
}

/// The style of the last cell of `spans` in column `col`, if there is one.
pub open spec fn existing_style(spans: Seq<SpanV>, col: nat) -> Option<Option<Seq<char>>>
    decreases spans.len(),
{
    if spans.len() == 0 {
        None
    } else if spans.last().2 == col {
        Some(spans.last().3)
    } else {
        existing_style(spans.drop_last(), col)
    }
}

/// What a row is rebuilt from: the values to write, the row number, the
/// cells found in the row and the target columns `c0..=c1`.
pub struct RowCtx {
    pub grid: WriteGrid,
    pub row: nat,
    pub spans: Seq<SpanV>,
    pub c0: nat,
    pub c1: nat,
}

/// The events written for target column `col` of the row: the value to
/// write there (empty when there is none), in the style of the cell the
/// row already had there; a column the row had no cell in gets one only
/// for a value that is not empty.
pub open spec fn pending_cell(x: RowCtx, col: nat) -> Option<Seq<Seq<char>>> {
    let v = match x.grid.at(x.row as int, col as int) {
        Some(v) => v,
        None => CellValueV::Empty,
    };
    let r = cell_ref_of(x.row, col);
    match existing_style(x.spans, col) {
        Some(s) => Some(cell_events(r, s, v)),
        None => if v != CellValueV::Empty {
            Some(cell_events(r, None, v))
        } else {
            None
        },
    }
}

/// The events written for the target columns from `a` up to (not
/// including) `b`, in column order.
pub open spec fn pend_between(x: RowCtx, a: int, b: int) -> Seq<Seq<char>>
    decreases b - a,
{
    if a >= b || a > x.c1 || a < 0 {
        seq![]
    } else {
        (if x.c0 <= a && pending_cell(x, a as nat) is Some {
            pending_cell(x, a as nat)->0
        } else {
            seq![]
        }) + pend_between(x, a + 1, b)
    }
}

/// The texts of `ch[a..b]`.
pub open spec fn texts_between(ch: Seq<XmlEventV>, a: int, b: int) -> Seq<Seq<char>> {
    ch.subrange(a, b).map_values(|e: XmlEventV| e.text)
}

/// The rebuilt row from the `k`-th cell on, with `ch[..cursor]` done and
/// the target columns below `p` written: the events between cells are kept;
/// before each cell come the target columns below its column; a cell in a
/// target column is replaced by the events written for that column (or
/// dropped when they were written already or there are none); any other
/// cell is kept; after the last cell come the rest of the events and the
/// target columns not written yet.
pub open spec fn assemble(ch: Seq<XmlEventV>, x: RowCtx, k: int, cursor: int, p: int) -> Seq<Seq<char>>
    decreases x.spans.len() - k,
{
    if k >= x.spans.len() || k < 0 {
        texts_between(ch, cursor, ch.len() as int) + pend_between(x, p, (x.c1 + 1) as int)
    } else {
        let (cs, ce, col, _) = x.spans[k];
        let p1 = if p >= col {
            p
        } else {
            col as int
        };
        texts_between(ch, cursor, cs as int) + pend_between(x, p, col as int) + if x.c0 <= col <= x.c1 {
            if col >= p && pending_cell(x, col) is Some {
                pending_cell(x, col)->0 + assemble(ch, x, k + 1, (ce + 1) as int, (col + 1) as int)
            } else {
                assemble(ch, x, k + 1, (ce + 1) as int, p1)
            }
        } else {
            texts_between(ch, cs as int, (ce + 1) as int) + assemble(ch, x, k + 1, (ce + 1) as int, p1)
        }
    }
}

/// The row `row_num` with children `ch` rebuilt for the target columns
/// `c0..=c1`.
pub open spec fn spec_rebuild_row(ch: Seq<XmlEventV>, g: WriteGrid, row_num: nat, c0: nat, c1: nat) -> Seq<
    Seq<char>,
> {
    let x = RowCtx { grid: g, row: row_num, spans: cell_spans(ch, 0, 0), c0, c1 };
    assemble(ch, x, 0, 0, 0)
}

/// A cell found in a row, as the rebuilding holds it.
pub type Span = (usize, usize, usize, Option<String>);

/// The mathematical form of a list of spans.
pub open spec fn spans_view(v: Seq<Span>) -> Seq<SpanV> {
    v.map_values(|s: Span| (s.0 as nat, s.1 as nat, s.2 as nat, opt_text(s.3)))
}

/// Whether `e` opens a cell.
fn is_cell_start(e: &XmlEvent) -> (r: bool)
    ensures
        r == is_cell_tag(e@),
{
    proof {
        reveal_strlit("c");
    }
    (e.kind == EventKind::Start || e.kind == EventKind::Empty) && str_eq(e.name.as_str(), "c")
}

/// The index just after the end of the cell opened at `lo + i` within
/// `events[lo..hi]` (see [`cell_close`]), counted from `lo`.
fn find_cell_close(events: &Vec<XmlEvent>, lo: usize, hi: usize, i: usize) -> (r: Option<usize>)
    requires
        lo <= hi <= events@.len(),
        i < hi - lo,
    ensures
        match r {
            Some(j) => cell_close(events_view(events@).subrange(lo as int, hi as int), i + 1, 1) == Some(
                j as int,
            ),
            None => cell_close(events_view(events@).subrange(lo as int, hi as int), i + 1, 1) is None,
        },
        r matches Some(j) ==> i < j <= hi - lo,
{
    let ghost ch = events_view(events@).subrange(lo as int, hi as int);
    let n = hi - lo;
    let mut depth: usize = 1;
    let mut j: usize = i + 1;
    proof {
        reveal_strlit("c");
    }
    while j < n && depth > 0
        invariant
            lo <= hi <= events@.len(),
            n == hi - lo,
            ch == events_view(events@).subrange(lo as int, hi as int),
            i < j <= n,
            depth <= j,
            cell_close(ch, j as int, depth as nat) == cell_close(ch, i + 1, 1),
        decreases n - j,
    {
        let e = &events[lo + j];
        assert(ch[j as int] == e@);
        if e.kind == EventKind::Start && str_eq(e.name.as_str(), "c") {
            depth = depth + 1;
        } else if e.kind == EventKind::End && str_eq(e.name.as_str(), "c") {
            depth = depth - 1;
        }
        j = j + 1;
    }
    if depth != 0 {
        None
    } else {
        Some(j)
    }
}

/// The cells of `events[lo..hi]` (see [`cell_spans`]), in order, each
/// after the one before it.
fn find_cells(events: &Vec<XmlEvent>, lo: usize, hi: usize) -> (r: Vec<Span>)
    requires
        lo <= hi <= events@.len(),
    ensures
        spans_view(r@) == cell_spans(events_view(events@).subrange(lo as int, hi as int), 0, 0),
        forall|k: int| 0 <= k < r@.len() ==> (#[trigger] r@[k]).0 <= r@[k].1 < hi - lo,
        forall|k1: int, k2: int| 0 <= k1 < k2 < r@.len() ==> (#[trigger] r@[k1]).1 < (#[trigger] r@[k2]).0,
{
    let ghost ch = events_view(events@).subrange(lo as int, hi as int);
    let n = hi - lo;
    let mut spans: Vec<Span> = Vec::new();
    let mut seq_col: usize = 0;
    let mut i: usize = 0;
    let mut open_cell = false;
    assert(spans_view(spans@) + cell_spans(ch, 0, 0) =~= cell_spans(ch, 0, 0));
    while i < n && !open_cell
        invariant
            lo <= hi <= events@.len(),
            n == hi - lo,
            ch == events_view(events@).subrange(lo as int, hi as int),
            0 <= i <= n,
            seq_col <= i,
            open_cell ==> cell_spans(ch, i as int, seq_col as nat) == Seq::<SpanV>::empty(),
            spans_view(spans@) + cell_spans(ch, i as int, seq_col as nat) == cell_spans(ch, 0, 0),
            forall|k: int| 0 <= k < spans@.len() ==> (#[trigger] spans@[k]).0 <= spans@[k].1 < i,
            forall|k1: int, k2: int| 0 <= k1 < k2 < spans@.len() ==> (#[trigger] spans@[k1]).1 < (
            #[trigger] spans@[k2]).0,
        decreases n - i + (if open_cell { 0int } else { 1int }),
    {
        let e = &events[lo + i];
        assert(ch[i as int] == e@);
        let ghost before = spans@;
        if is_cell_start(e) {
            let (col, style, seq2) = cell_col_of(e, seq_col);
            let ghost st = opt_text(style);
            if e.kind == EventKind::Start {
                match find_cell_close(events, lo, hi, i) {
                    None => {
                        open_cell = true;
                    },
                    Some(j) => {
                        assert(cell_spans(ch, i as int, seq_col as nat) == seq![
                            (i as nat, (j - 1) as nat, col as nat, st),
                        ] + cell_spans(ch, j as int, seq2 as nat));
                        spans.push((i, j - 1, col, style));
                        assert(spans_view(spans@) =~= spans_view(before).push(
                            (i as nat, (j - 1) as nat, col as nat, st),
                        ));
                        seq_col = seq2;
                        i = j;
                    },
                }
            } else {
                assert(cell_spans(ch, i as int, seq_col as nat) == seq![(i as nat, i as nat, col as nat, st)]
                    + cell_spans(ch, i + 1, seq2 as nat));
                spans.push((i, i, col, style));
                assert(spans_view(spans@) =~= spans_view(before).push((i as nat, i as nat, col as nat, st)));
                seq_col = seq2;
                i = i + 1;
            }
        } else {
            i = i + 1;
        }
    }
    assert(spans_view(spans@) =~= spans_view(spans@) + cell_spans(ch, i as int, seq_col as nat));
    spans
}

/// The style of the last cell of `spans` in column `col` (see [`existing_style`]).
fn style_of(spans: &Vec<Span>, col: usize) -> (r: Option<Option<String>>)
    ensures
        match existing_style(spans_view(spans@), col as nat) {
            Some(st) => r matches Some(x) && opt_text(x) == st,
            None => r is None,
        },
{
    let ghost all = spans_view(spans@);
    let mut k: usize = spans.len();
    assert(all.take(k as int) =~= all);
    while k > 0
        invariant
            0 <= k <= spans@.len(),
            all == spans_view(spans@),
            existing_style(all, col as nat) == existing_style(all.take(k as int), col as nat),
        decreases k,
    {
        k = k - 1;
        assert(all.take(k + 1).drop_last() =~= all.take(k as int));
        assert(all.take(k + 1).last() == all[k as int]);
        if spans[k].2 == col {
            return Some(
                match &spans[k].3 {
                    Some(x) => Some(x.clone()),
                    None => None,
                },
            );
        }
    }
    None
}

/// The events written for target column `col` (see [`pending_cell`]).
fn pending_for(grid: &WriteGrid, row_num: usize, col: usize, spans: &Vec<Span>, c0: usize, c1: usize) -> (r: Option<
    Vec<String>,
>)
    ensures
        match pending_cell(
            RowCtx { grid: *grid, row: row_num as nat, spans: spans_view(spans@), c0: c0 as nat, c1: c1 as nat },
            col as nat,
        ) {
            Some(evs) => r matches Some(v) && texts_of(v@) == evs,
            None => r is None,
        },
{
    let empty = CellValue::Empty;
    let v: &CellValue = match grid.get(row_num, col) {
        Some(v) => v,
        None => &empty,
    };
    let rf = cell_ref_text(row_num, col);
    match style_of(spans, col) {
        Some(st) => {
            let s_attr = match &st {
                Some(x) => Some(x.as_str()),
                None => None,
            };
            Some(build_cell_events(rf.as_str(), s_attr, v))
        },
        None => if !v.is_empty() {
            Some(build_cell_events(rf.as_str(), None, v))
        } else {
            None
        },
    }
}

proof fn lemma_pend_below(x: RowCtx, a: int, b: int)
    requires
        0 <= a <= x.c0,
    ensures
        pend_between(x, a, b) == pend_between(x, x.c0 as int, b),
    decreases x.c0 - a,
{
    if a < x.c0 {
        lemma_pend_below(x, a + 1, b);
        if a < b && a <= x.c1 {
            assert(pend_between(x, a, b) =~= pend_between(x, a + 1, b));
        } else {
            lemma_pend_empty(x, a + 1, b);
            lemma_pend_empty(x, x.c0 as int, b);
        }
    }
}

proof fn lemma_pend_empty(x: RowCtx, a: int, b: int)
    requires
        a >= b || a > x.c1,
    ensures
        pend_between(x, a, b) == Seq::<Seq<char>>::empty(),
{
}

/// Appends the events written for the target columns from `a` up to (not
/// including) `b`.
fn emit_pending(
    out: &mut Vec<String>,
    grid: &WriteGrid,
    row_num: usize,
    spans: &Vec<Span>,
    c0: usize,
    c1: usize,
    a: usize,
    b: usize,
)
    requires
        c1 < usize::MAX,
    ensures
        texts_of(final(out)@) == texts_of(old(out)@) + pend_between(
            RowCtx { grid: *grid, row: row_num as nat, spans: spans_view(spans@), c0: c0 as nat, c1: c1 as nat },
            a as int,
            b as int,
        ),
{
    let ghost x = RowCtx {
        grid: *grid,
        row: row_num as nat,
        spans: spans_view(spans@),
        c0: c0 as nat,
        c1: c1 as nat,
    };
    let ghost start = texts_of(out@);
    let mut col = a;
    if col < c0 {
        proof {
            lemma_pend_below(x, a as int, b as int);
        }
        col = c0;
    }
    assert(texts_of(out@) + pend_between(x, col as int, b as int) =~= start + pend_between(x, a as int, b as int));
    while col < b && col <= c1
        invariant
            c1 < usize::MAX,
            c0 <= col,
            x == (RowCtx {
                grid: *grid,
                row: row_num as nat,
                spans: spans_view(spans@),
                c0: c0 as nat,
                c1: c1 as nat,
            }),
            texts_of(out@) + pend_between(x, col as int, b as int) == start + pend_between(x, a as int, b as int),
        decreases b - col,
    {
        let ghost before = texts_of(out@);
        match pending_for(grid, row_num, col, spans, c0, c1) {
            Some(evs) => {
                let mut evs = evs;
                append_texts(out, &mut evs);
            },
            None => {},
        }
        assert(texts_of(out@) + pend_between(x, col + 1, b as int) =~= before + pend_between(
            x,
            col as int,
            b as int,
        ));
        col = col + 1;
    }
    proof {
        lemma_pend_empty(x, col as int, b as int);
    }
    assert(texts_of(out@) =~= texts_of(out@) + pend_between(x, col as int, b as int));
}

/// Appends the texts of `events[a..b]`.
fn push_texts(out: &mut Vec<String>, events: &Vec<XmlEvent>, a: usize, b: usize)
    requires
        a <= b <= events@.len(),
    ensures
        texts_of(final(out)@) == texts_of(old(out)@) + texts_between(events_view(events@), a as int, b as int),
{
    let ghost start = texts_of(out@);
    let ghost all = events_view(events@);
    let mut k = a;
    while k < b
        invariant
            a <= k <= b <= events@.len(),
            all == events_view(events@),
            texts_of(out@) == start + texts_between(all, a as int, k as int),
        decreases b - k,
    {
        let ghost before = texts_of(out@);
        out.push(events[k].text.clone());
        assert(texts_between(all, a as int, k + 1) =~= texts_between(all, a as int, k as int).push(all[k as int].text));
        assert(texts_of(out@) =~= before.push(all[k as int].text));
        k = k + 1;
    }
}

proof fn lemma_texts_between_shift(all: Seq<XmlEventV>, lo: int, hi: int, a: int, b: int)
    requires
        0 <= lo <= hi <= all.len(),
        0 <= a <= b <= hi - lo,
    ensures
        texts_between(all.subrange(lo, hi), a, b) == texts_between(all, lo + a, lo + b),
{
    assert(all.subrange(lo, hi).subrange(a, b) =~= all.subrange(lo + a, lo + b));
}

/// Rebuilds the row whose children are `events[lo..hi]`: each target
/// column `c0..=c1` gets the value to write there (see [`assemble`]), every
/// other event stays as it was.
#[verifier::rlimit(60)]
#[verifier::spinoff_prover]
pub fn rebuild_row(
    events: &Vec<XmlEvent>,
    lo: usize,
    hi: usize,
    row_num: usize,
    grid: &WriteGrid,
    c0: usize,
    c1: usize,
) -> (r: Vec<String>)
    requires
        lo <= hi <= events@.len(),
        c1 < usize::MAX,
    ensures
        texts_of(r@) == spec_rebuild_row(
            events_view(events@).subrange(lo as int, hi as int),
            *grid,
            row_num as nat,
            c0 as nat,
            c1 as nat,
        ),
{
    let ghost all = events_view(events@);
    let ghost ch = all.subrange(lo as int, hi as int);
    let spans = find_cells(events, lo, hi);
    let ghost x = RowCtx {
        grid: *grid,
        row: row_num as nat,
        spans: spans_view(spans@),
        c0: c0 as nat,
        c1: c1 as nat,
    };
    let n = hi - lo;
    let mut out: Vec<String> = Vec::new();
    let mut cursor: usize = 0;
    let mut p: usize = 0;
    let mut k: usize = 0;
    assert(texts_of(out@) + assemble(ch, x, 0, 0, 0) =~= assemble(ch, x, 0, 0, 0));
    while k < spans.len()
        invariant
            lo <= hi <= events@.len(),
            n == hi - lo,
            c1 < usize::MAX,
            all == events_view(events@),
            ch == all.subrange(lo as int, hi as int),
            x == (RowCtx {
                grid: *grid,
                row: row_num as nat,
                spans: spans_view(spans@),
                c0: c0 as nat,
                c1: c1 as nat,
            }),
            0 <= k <= spans@.len(),
            cursor <= n,
            k < spans@.len() ==> cursor <= spans@[k as int].0,
            forall|j: int| 0 <= j < spans@.len() ==> (#[trigger] spans@[j]).0 <= spans@[j].1 < n,
            forall|j1: int, j2: int| 0 <= j1 < j2 < spans@.len() ==> (#[trigger] spans@[j1]).1 < (
            #[trigger] spans@[j2]).0,
            texts_of(out@) + assemble(ch, x, k as int, cursor as int, p as int) == assemble(ch, x, 0, 0, 0),
        decreases spans.len() - k,
    {
        let cs = spans[k].0;
        let ce = spans[k].1;
        let col = spans[k].2;
        let ghost before = texts_of(out@);
        proof {
            lemma_texts_between_shift(all, lo as int, hi as int, cursor as int, cs as int);
        }
        push_texts(&mut out, events, lo + cursor, lo + cs);
        emit_pending(&mut out, grid, row_num, &spans, c0, c1, p, col);
        let ghost mid = texts_of(out@);
        assert(mid == before + texts_between(ch, cursor as int, cs as int) + pend_between(x, p as int, col as int));
        let p1 = if p >= col {
            p
        } else {
            col
        };
        if c0 <= col && col <= c1 {
            if col >= p {
                match pending_for(grid, row_num, col, &spans, c0, c1) {
                    Some(evs) => {
                        let mut evs = evs;
                        append_texts(&mut out, &mut evs);
                        p = col + 1;
                    },
                    None => {
                        p = p1;
                    },
                }
            } else {
                p = p1;
            }
        } else {
            proof {
                lemma_texts_between_shift(all, lo as int, hi as int, cs as int, ce + 1);
            }
            push_texts(&mut out, events, lo + cs, lo + ce + 1);
            p = p1;
        }
        cursor = ce + 1;
        k = k + 1;
        if k < spans.len() {
            assert(spans@[k - 1].1 < spans@[k as int].0);
        }
    }
    proof {
        lemma_texts_between_shift(all, lo as int, hi as int, cursor as int, n as int);
    }
    push_texts(&mut out, events, lo + cursor, hi);
    emit_pending(&mut out, grid, row_num, &spans, c0, c1, p, c1 + 1);
    assert(texts_of(out@) =~= assemble(ch, x, 0, 0, 0));
    out
}

// ---------------------------------------------------------------------------
// Rewriting a sheet
// ---------------------------------------------------------------------------

/// Whether `ev` is a start or empty-element tag named `name`.
pub open spec fn is_tag(ev: XmlEventV, name: Seq<char>) -> bool {
    (ev.kind == EventKind::Start || ev.kind == EventKind::Empty) && ev.name == name
}

/// The index of the first dimension tag.
pub open spec fn dimension_index(evs: Seq<XmlEventV>) -> Option<nat>
    decreases evs.len(),
{
    if evs.len() == 0 {
        None
    } else {
        match dimension_index(evs.drop_last()) {
            Some(i) => Some(i),
            None => if is_tag(evs.last(), "dimension"@) {
                Some((evs.len() - 1) as nat)
            } else {
                None
            },
        }
    }
}

/// Where `sheetData` starts and ends, read in order: the first start tag
/// (or empty-element tag, which is both) and the first end tag.
pub open spec fn sheet_data_marks(evs: Seq<XmlEventV>) -> (Option<nat>, Option<nat>)
    decreases evs.len(),
{
    if evs.len() == 0 {
        (None, None)
    } else {
        let (s, e) = sheet_data_marks(evs.drop_last());
        let i = (evs.len() - 1) as nat;
        let ev = evs.last();
        if ev.name == "sheetData"@ && ev.kind == EventKind::Start {
            (
                if s is None {
                    Some(i)
                } else {
                    s
                },
                e,
            )
        } else if ev.name == "sheetData"@ && ev.kind == EventKind::Empty {
            if s is None {
                (Some(i), Some(i))
            } else {
                (s, e)
            }
        } else if ev.name == "sheetData"@ && ev.kind == EventKind::End {
            (
                s,
                if e is None {
                    Some(i)
                } else {
                    e
                },
            )
        } else {
            (s, e)
        }
    }
}

/// Scanning from `j` (before `e`) with `depth` rows open: the index just
/// after the end tag that closes them all, if there is one.
pub open spec fn row_close(evs: Seq<XmlEventV>, j: int, e: int, depth: nat) -> Option<int>
    decreases e - j, depth,
{
    if depth == 0 {
        Some(j)
    } else if j >= e || j < 0 || j >= evs.len() {
        None
    } else {
        let ev = evs[j];
        let d = if ev.kind == EventKind::Start && ev.name == "row"@ {
            depth + 1
        } else if ev.kind == EventKind::End && ev.name == "row"@ {
            (depth - 1) as nat
        } else {
            depth
        };
        row_close(evs, j + 1, e, d)
    }
}

/// Whether a text holds ASCII whitespace only.
pub open spec fn all_ascii_space(t: Seq<char>) -> bool {
    forall|k: int|
        0 <= k < t.len() ==> (#[trigger] t[k] == ' ' || t[k] == '\t' || t[k] == '\n' || t[k] == '\r' || t[k]
            == '\x0C')
}

/// A row found in `sheetData`: the indices of its first and last event and
/// its number.
pub type RowSpanV = (nat, nat, nat);

/// The rows and the other events of `sheetData` from `i` up to `e`, where
/// `seq` rows came before: whitespace text is passed over; the first row
/// number that cannot be read, or a row never closed, stops the scan.
pub open spec fn row_scan(evs: Seq<XmlEventV>, i: int, e: int, seq: nat) -> Result<
    (Seq<RowSpanV>, Seq<nat>),
    Seq<char>,
>
    decreases e - i,
{
    if i >= e || i < 0 || i >= evs.len() {
        Ok((seq![], seq![]))
    } else {
        let ev = evs[i];
        if ev.kind == EventKind::Start && ev.name == "row"@ {
            match spec_row_num(ev, seq) {
                Err(m) => Err(m),
                Ok((rn, seq2)) => match row_close(evs, i + 1, e, 1) {
                    None => Err("row 元素未闭合"@),
                    Some(j) => if i < j <= e {
                        match row_scan(evs, j, e, seq2) {
                            Err(m) => Err(m),
                            Ok((rows, others)) => Ok(
                                (seq![(i as nat, (j - 1) as nat, rn)] + rows, others),
                            ),
                        }
                    } else {
                        Err("row 元素未闭合"@)
                    },
                },
            }
        } else if ev.kind == EventKind::Empty && ev.name == "row"@ {
            match spec_row_num(ev, seq) {
                Err(m) => Err(m),
                Ok((rn, seq2)) => match row_scan(evs, i + 1, e, seq2) {
                    Err(m) => Err(m),
                    Ok((rows, others)) => Ok((seq![(i as nat, i as nat, rn)] + rows, others)),
                },
            }
        } else if ev.kind == EventKind::Text && all_ascii_space(ev.text) {
            row_scan(evs, i + 1, e, seq)
        } else {
            match row_scan(evs, i + 1, e, seq) {
                Err(m) => Err(m),
                Ok((rows, others)) => Ok((rows, seq![i as nat] + others)),
            }
        }
    }
}

/// A row of the rewritten `sheetData`: its number and its events.
pub type OutRowV = (nat, Seq<Seq<char>>);

/// `v` with `x` put after every row whose number is not above its own.
pub open spec fn insert_row(v: Seq<OutRowV>, x: OutRowV) -> Seq<OutRowV>
    decreases v.len(),
{
    if v.len() == 0 || v.last().0 <= x.0 {
        v.push(x)
    } else {
        insert_row(v.drop_last(), x).push(v.last())
    }
}

/// `v` sorted by row number, rows of the same number in their order in `v`.
pub open spec fn sort_rows(v: Seq<OutRowV>) -> Seq<OutRowV>
    decreases v.len(),
{
    if v.len() == 0 {
        seq![]
    } else {
        insert_row(sort_rows(v.drop_last()), v.last())
    }
}

/// The rewritten form of each row found: a target row rebuilt, any other
/// row as it was.
pub open spec fn kept_rows(
    evs: Seq<XmlEventV>,
    rows: Seq<RowSpanV>,
    g: WriteGrid,
    rect: (nat, nat, nat, nat),
) -> Seq<OutRowV> {
    let (r0, c0, r1, c1) = rect;
    rows.map_values(
        |rw: RowSpanV|
            {
                let (si, ei, rn) = rw;
                if r0 <= rn <= r1 {
                    (
                        rn,
                        row_element(
                            rn,
                            spec_rebuild_row(evs.subrange((si + 1) as int, ei as int), g, rn, c0, c1),
                            evs[si as int].kind == EventKind::Empty,
                        ),
                    )
                } else {
                    (rn, texts_between(evs, si as int, (ei + 1) as int))
                }
            },
    )
}

/// Whether some row found has the number `n`.
pub open spec fn has_row(rows: Seq<RowSpanV>, n: nat) -> bool {
    exists|k: int| 0 <= k < rows.len() && (#[trigger] rows[k]).2 == n
}

/// The new rows for the target rows from `r` to `r1` that the sheet does
/// not have, each with the cells to write in it, when there are any.
pub open spec fn new_rows(rows: Seq<RowSpanV>, g: WriteGrid, r: int, r1: int, c0: nat, c1: nat) -> Seq<OutRowV>
    decreases r1 + 1 - r,
{
    if r > r1 || r < 0 {
        seq![]
    } else {
        let cells = new_row_cells(g, r as nat, c0 as int, c1 as int);
        (if !has_row(rows, r as nat) && cells.len() > 0 {
            seq![(r as nat, seq![open_tag("row"@, row_attrs(r as nat))] + cells + seq![close_tag("row"@)])]
        } else {
            seq![]
        }) + new_rows(rows, g, r + 1, r1, c0, c1)
    }
}

/// All the events of a list of rows, in order.
pub open spec fn row_events(v: Seq<OutRowV>) -> Seq<Seq<char>>
    decreases v.len(),
{
    if v.len() == 0 {
        seq![]
    } else {
        row_events(v.drop_last()) + v.last().1
    }
}

/// The events before `sheetData` (before index `s`), the dimension tag
/// among them grown to hold the rectangle.
pub open spec fn prefix_events(evs: Seq<XmlEventV>, s: nat, rect: (nat, nat, nat, nat)) -> Result<
    Seq<Seq<char>>,
    Seq<char>,
> {
    let pre = texts_between(evs, 0, s as int);
    match dimension_index(evs) {
        Some(d) => if d < s {
            match spec_update_dimension(evs[d as int], rect) {
                Err(m) => Err(m),
                Ok(dv) => Ok(pre.take(d as int) + dv + pre.skip((d + 1) as int)),
            }
        } else {
            Ok(pre)
        },
        None => Ok(pre),
    }
}

/// Joins texts.
pub open spec fn concat_all(ts: Seq<Seq<char>>) -> Seq<char>
    decreases ts.len(),
{
    if ts.len() == 0 {
        seq![]
    } else {
        concat_all(ts.drop_last()) + ts.last()
    }
}

/// Whether rewriting reaches a row written as an empty-element tag among
/// the target rows `r0..=r1`, where the rewriting cannot take its children.
pub open spec fn reaches_empty_target_row(xml: Seq<u8>, r0: nat, r1: nat) -> bool {
    let (ts, err) = spec_xml_events(xml);
    let evs = events_of(ts);
    let (ms, me) = sheet_data_marks(evs);
    &&& err is None
    &&& ms is Some
    &&& me is Some
    &&& row_scan(evs, (ms->0 + 1) as int, me->0 as int, 0) matches Ok((rows, _)) && exists|k: int|
        0 <= k < rows.len() && (#[trigger] rows[k]).0 == rows[k].1 && r0 <= rows[k].2 <= r1
}

/// The sheet `xml` with the rectangle `rect` = `(r0, c0, r1, c1)` written
/// from `g`: the target rows rebuilt, the missing ones added, the rows in
/// order of their number, the other events of `sheetData` after them, the
/// dimension grown, everything else as it was; or the error that stops it.
pub open spec fn spec_modify_sheet(xml: Seq<u8>, g: WriteGrid, rect: (nat, nat, nat, nat)) -> Result<
    Seq<char>,
    Seq<char>,
> {
    let (r0, c0, r1, c1) = rect;
    let (ts, err) = spec_xml_events(xml);
    let evs = events_of(ts);
    let (ms, me) = sheet_data_marks(evs);
    if err is Some {
        Err("解析 sheet XML 失败: "@ + err->0)
    } else if ms is None {
        Err("sheet XML 缺少 sheetData"@)
    } else if me is None {
        Err("sheet XML 缺少 </sheetData>"@)
    } else {
        let s = ms->0;
        let e = me->0;
        match row_scan(evs, (s + 1) as int, e as int, 0) {
            Err(m) => Err(m),
            Ok((rows, others)) => {
                let out_rows = sort_rows(kept_rows(evs, rows, g, rect) + new_rows(rows, g, r0 as int, r1 as int, c0, c1));
                let body = row_events(out_rows) + others.map_values(|i: nat| evs[i as int].text);
                match prefix_events(evs, s, rect) {
                    Err(m) => Err(m),
                    Ok(pre) => {
                        let mid = if e == s {
                            seq![open_tag("sheetData"@, seq![])] + body + seq![close_tag("sheetData"@)]
                        } else {
                            seq![evs[s as int].text] + body + seq![evs[e as int].text]
                        };
                        Ok(concat_all(pre + mid + texts_between(evs, (e + 1) as int, evs.len() as int)))
                    },
                }
            },
        }
    }
}

/// The index of the first dimension tag and where `sheetData` starts and
/// ends (see [`dimension_index`], [`sheet_data_marks`]).
fn find_marks(events: &Vec<XmlEvent>) -> (r: (Option<usize>, Option<usize>, Option<usize>))
    ensures
        dimension_index(events_view(events@)) == match r.0 {
            Some(i) => Some(i as nat),
            None => None::<nat>,
        },
        sheet_data_marks(events_view(events@)) == (
            match r.1 {
                Some(i) => Some(i as nat),
                None => None::<nat>,
            },
            match r.2 {
                Some(i) => Some(i as nat),
                None => None::<nat>,
            },
        ),
        r.0 matches Some(i) ==> i < events@.len(),
        r.1 matches Some(i) ==> i < events@.len(),
        r.2 matches Some(i) ==> i < events@.len(),
{
    let ghost all = events_view(events@);
    let mut dim: Option<usize> = None;
    let mut sd: Option<usize> = None;
    let mut ed: Option<usize> = None;
    let mut i: usize = 0;
    proof {
        reveal_strlit("dimension");
        reveal_strlit("sheetData");
    }
    assert(all.take(0) =~= Seq::<XmlEventV>::empty());
    while i < events.len()
        invariant
            0 <= i <= events@.len(),
            all == events_view(events@),
            dimension_index(all.take(i as int)) == match dim {
                Some(k) => Some(k as nat),
                None => None::<nat>,
            },
            sheet_data_marks(all.take(i as int)) == (
                match sd {
                    Some(k) => Some(k as nat),
                    None => None::<nat>,
                },
                match ed {
                    Some(k) => Some(k as nat),
                    None => None::<nat>,
                },
            ),
            dim matches Some(k) ==> k < i,
            sd matches Some(k) ==> k < i,
            ed matches Some(k) ==> k < i,
        decreases events.len() - i,
    {
        assert(all.take(i + 1).drop_last() =~= all.take(i as int));
        assert(all.take(i + 1).last() == all[i as int]);
        let ev = &events[i];
        let tag = ev.kind == EventKind::Start || ev.kind == EventKind::Empty;
        if dim.is_none() && tag && str_eq(ev.name.as_str(), "dimension") {
            dim = Some(i);
        }
        if str_eq(ev.name.as_str(), "sheetData") {
            if ev.kind == EventKind::Start {
                if sd.is_none() {
                    sd = Some(i);
                }
            } else if ev.kind == EventKind::Empty {
                if sd.is_none() {
                    sd = Some(i);
                    ed = Some(i);
                }
            } else if ev.kind == EventKind::End {
                if ed.is_none() {
                    ed = Some(i);
                }
            }
        }
        i = i + 1;
    }
    assert(all.take(i as int) =~= all);
    (dim, sd, ed)
}

/// The index just after the end of the row opened at `i` (see [`row_close`]).
fn find_row_close(events: &Vec<XmlEvent>, i: usize, e: usize) -> (r: Option<usize>)
    requires
        i < e <= events@.len(),
    ensures
        match r {
            Some(j) => row_close(events_view(events@), i + 1, e as int, 1) == Some(j as int) && i < j <= e,
            None => row_close(events_view(events@), i + 1, e as int, 1) is None,
        },
{
    let ghost all = events_view(events@);
    let mut depth: usize = 1;
    let mut j: usize = i + 1;
    proof {
        reveal_strlit("row");
    }
    while j < e && depth > 0
        invariant
            i < j <= e <= events@.len(),
            all == events_view(events@),
            depth <= j,
            row_close(all, j as int, e as int, depth as nat) == row_close(all, i + 1, e as int, 1),
        decreases e - j,
    {
        let ev = &events[j];
        if ev.kind == EventKind::Start && str_eq(ev.name.as_str(), "row") {
            depth = depth + 1;
        } else if ev.kind == EventKind::End && str_eq(ev.name.as_str(), "row") {
            depth = depth - 1;
        }
        j = j + 1;
    }
    if depth != 0 {
        None
    } else {
        Some(j)
    }
}

/// Whether `t` holds ASCII whitespace only.
fn is_ascii_space_text(t: &str) -> (r: bool)
    ensures
        r == all_ascii_space(t@),
{
    let c = crate::text::to_chars(t);
    let mut k: usize = 0;
    while k < c.len()
        invariant
            0 <= k <= c@.len(),
            c@ == t@,
            forall|m: int|
                0 <= m < k ==> (#[trigger] c@[m] == ' ' || c@[m] == '\t' || c@[m] == '\n' || c@[m] == '\r'
                    || c@[m] == '\x0C'),
        decreases c.len() - k,
    {
        let x = c[k];
        if !(x == ' ' || x == '\t' || x == '\n' || x == '\r' || x == '\x0C') {
            return false;
        }
        k = k + 1;
    }
    true
}

/// A row found in `sheetData`, as the rewriting holds it.
pub type RowSpan = (usize, usize, usize);

/// The mathematical form of a list of rows found.
pub open spec fn row_spans_view(v: Seq<RowSpan>) -> Seq<RowSpanV> {
    v.map_values(|r: RowSpan| (r.0 as nat, r.1 as nat, r.2 as nat))
}

/// The indices of a list of events.
pub open spec fn indices_view(v: Seq<usize>) -> Seq<nat> {
    v.map_values(|i: usize| i as nat)
}

/// `acc` followed by the result of a scan, or the scan's error.
pub open spec fn after_scan(
    rows: Seq<RowSpanV>,
    others: Seq<nat>,
    rest: Result<(Seq<RowSpanV>, Seq<nat>), Seq<char>>,
) -> Result<(Seq<RowSpanV>, Seq<nat>), Seq<char>> {
    match rest {
        Err(m) => Err(m),
        Ok((r, o)) => Ok((rows + r, others + o)),
    }
}

/// The rows and other events of `sheetData` between `s` and `e` (see [`row_scan`]).
fn scan_rows(events: &Vec<XmlEvent>, s: usize, e: usize) -> (r: Result<(Vec<RowSpan>, Vec<usize>), String>)
    requires
        e <= events@.len(),
    ensures
        match row_scan(events_view(events@), s + 1, e as int, 0) {
            Ok((rows, others)) => r matches Ok((rr, ro)) && row_spans_view(rr@) == rows && indices_view(ro@)
                == others,
            Err(m) => r matches Err(rm) && rm@ == m,
        },
        r matches Ok((rr, ro)) ==> (forall|k: int| 0 <= k < rr@.len() ==> s < (#[trigger] rr@[k]).0 <= rr@[k].1 < e)
            && (forall|k: int| 0 <= k < ro@.len() ==> #[trigger] ro@[k] < e),
{
    let ghost all = events_view(events@);
    let mut rows: Vec<RowSpan> = Vec::new();
    let mut others: Vec<usize> = Vec::new();
    if s >= e {
        assert(row_scan(all, s + 1, e as int, 0) == Ok::<(Seq<RowSpanV>, Seq<nat>), Seq<char>>((seq![], seq![])));
        assert(row_spans_view(rows@) =~= Seq::<RowSpanV>::empty());
        assert(indices_view(others@) =~= Seq::<nat>::empty());
        return Ok((rows, others));
    }
    let mut seq_row: usize = 0;
    let mut i: usize = s + 1;
    proof {
        reveal_strlit("row");
    }
    assert(after_scan(row_spans_view(rows@), indices_view(others@), row_scan(all, i as int, e as int, 0))
        =~= row_scan(all, s + 1, e as int, 0)) by {
        assert(row_spans_view(rows@) =~= Seq::<RowSpanV>::empty());
        assert(indices_view(others@) =~= Seq::<nat>::empty());
        match row_scan(all, i as int, e as int, 0) {
            Ok((r, o)) => {
                assert(Seq::<RowSpanV>::empty() + r =~= r);
                assert(Seq::<nat>::empty() + o =~= o);
            },
            Err(_) => {},
        }
    }
    while i < e
        invariant
            s < i <= e <= events@.len(),
            all == events_view(events@),
            seq_row <= i,
            after_scan(row_spans_view(rows@), indices_view(others@), row_scan(all, i as int, e as int, seq_row as nat))
                == row_scan(all, s + 1, e as int, 0),
            forall|k: int| 0 <= k < rows@.len() ==> s < (#[trigger] rows@[k]).0 <= rows@[k].1 < i,
            forall|k: int| 0 <= k < others@.len() ==> #[trigger] others@[k] < i,
        decreases e - i,
    {
        let ev = &events[i];
        let ghost rv = row_spans_view(rows@);
        let ghost ov = indices_view(others@);
        if ev.kind == EventKind::Start && str_eq(ev.name.as_str(), "row") {
            let (rn, seq2) = match row_num_of(ev, seq_row) {
                Ok(x) => x,
                Err(m) => {
                    return Err(m);
                },
            };
            match find_row_close(events, i, e) {
                None => {
                    return Err(String::from_str("row 元素未闭合"));
                },
                Some(j) => {
                    rows.push((i, j - 1, rn));
                    proof {
                        assert(row_spans_view(rows@) =~= rv.push((i as nat, (j - 1) as nat, rn as nat)));
                        match row_scan(all, j as int, e as int, seq2 as nat) {
                            Ok((r, o)) => {
                                assert(rv.push((i as nat, (j - 1) as nat, rn as nat)) + r =~= rv + (seq![
                                    (i as nat, (j - 1) as nat, rn as nat),
                                ] + r));
                            },
                            Err(_) => {},
                        }
                    }
                    seq_row = seq2;
                    i = j;
                },
            }
        } else if ev.kind == EventKind::Empty && str_eq(ev.name.as_str(), "row") {
            let (rn, seq2) = match row_num_of(ev, seq_row) {
                Ok(x) => x,
                Err(m) => {
                    return Err(m);
                },
            };
            rows.push((i, i, rn));
            proof {
                assert(row_spans_view(rows@) =~= rv.push((i as nat, i as nat, rn as nat)));
                match row_scan(all, i + 1, e as int, seq2 as nat) {
                    Ok((r, o)) => {
                        assert(rv.push((i as nat, i as nat, rn as nat)) + r =~= rv + (seq![
                            (i as nat, i as nat, rn as nat),
                        ] + r));
                    },
                    Err(_) => {},
                }
            }
            seq_row = seq2;
            i = i + 1;
        } else if ev.kind == EventKind::Text && is_ascii_space_text(ev.text.as_str()) {
            i = i + 1;
        } else {
            others.push(i);
            proof {
                assert(indices_view(others@) =~= ov.push(i as nat));
                match row_scan(all, i + 1, e as int, seq_row as nat) {
                    Ok((r, o)) => {
                        assert(ov.push(i as nat) + o =~= ov + (seq![i as nat] + o));
                    },
                    Err(_) => {},
                }
            }
            i = i + 1;
        }
    }
    proof {
        assert(row_spans_view(rows@) + Seq::<RowSpanV>::empty() =~= row_spans_view(rows@));
        assert(indices_view(others@) + Seq::<nat>::empty() =~= indices_view(others@));
    }
    Ok((rows, others))
}

/// A row of the rewritten `sheetData`, as the rewriting holds it.
pub type OutRow = (usize, Vec<String>);

/// The mathematical form of a list of rows.
pub open spec fn out_rows_view(v: Seq<OutRow>) -> Seq<OutRowV> {
    v.map_values(|r: OutRow| (r.0 as nat, texts_of(r.1@)))
}

proof fn lemma_insert_row(v: Seq<OutRowV>, x: OutRowV, p: int)
    requires
        0 <= p <= v.len(),
        forall|k: int| p <= k < v.len() ==> (#[trigger] v[k]).0 > x.0,
        p == 0 || v[p - 1].0 <= x.0,
    ensures
        insert_row(v, x) == v.take(p).push(x) + v.skip(p),
    decreases v.len(),
{
    if v.len() == p {
        assert(v.skip(p) =~= Seq::<OutRowV>::empty());
        assert(v.take(p) =~= v);
        assert(v.take(p).push(x) + v.skip(p) =~= v.push(x));
    } else {
        let w = v.drop_last();
        assert forall|k: int| p <= k < w.len() implies (#[trigger] w[k]).0 > x.0 by {
            assert(w[k] == v[k]);
        }
        if p > 0 {
            assert(w[p - 1] == v[p - 1]);
        }
        lemma_insert_row(w, x, p);
        assert(w.take(p) =~= v.take(p));
        assert(v.take(p).push(x) + v.skip(p) =~= (w.take(p).push(x) + w.skip(p)).push(v.last()));
    }
}

/// Sorts the rows by number, rows of the same number staying in order.
fn sort_out_rows(rows: Vec<OutRow>) -> (r: Vec<OutRow>)
    ensures
        out_rows_view(r@) == sort_rows(out_rows_view(rows@)),
{
    let ghost all = out_rows_view(rows@);
    let ghost n = rows@.len();
    let mut rest = rows;
    let mut sorted: Vec<OutRow> = Vec::new();
    let ghost mut i: int = 0;
    assert(all.take(0) =~= Seq::<OutRowV>::empty());
    assert(out_rows_view(rest@) =~= all.skip(0));
    while rest.len() > 0
        invariant
            0 <= i <= n,
            n == all.len(),
            out_rows_view(rest@) == all.skip(i),
            rest@.len() == n - i,
            out_rows_view(sorted@) == sort_rows(all.take(i)),
        decreases rest@.len(),
    {
        let ghost rv = out_rows_view(rest@);
        assert(rv[0] == all[i]);
        let x = rest.remove(0);
        assert(out_rows_view(rest@) =~= rv.drop_first());
        assert(rv.drop_first() =~= all.skip(i + 1));
        let ghost sv = out_rows_view(sorted@);
        let mut p = sorted.len();
        while p > 0 && sorted[p - 1].0 > x.0
            invariant
                0 <= p <= sorted@.len(),
                sv == out_rows_view(sorted@),
                forall|k: int| p <= k < sorted@.len() ==> (#[trigger] sorted@[k]).0 > x.0,
            decreases p,
        {
            p = p - 1;
        }
        proof {
            assert forall|k: int| p <= k < sv.len() implies (#[trigger] sv[k]).0 > (x.0 as nat, texts_of(x.1@)).0 by {
                assert(sv[k].0 == sorted@[k].0);
            }
            if p > 0 {
                assert(sv[p - 1].0 == sorted@[p - 1].0);
            }
            lemma_insert_row(sv, (x.0 as nat, texts_of(x.1@)), p as int);
            assert(all.take(i + 1).drop_last() =~= all.take(i));
            assert(all.take(i + 1).last() == (x.0 as nat, texts_of(x.1@)));
        }
        sorted.insert(p, x);
        proof {
            assert(out_rows_view(sorted@) =~= sv.take(p as int).push((x.0 as nat, texts_of(x.1@))) + sv.skip(
                p as int,
            ));
            i = i + 1;
        }
    }
    assert(all.take(i) =~= all);
    sorted
}

/// Moves the events of each row, in order, to the end of `out`.
fn append_row_events(out: &mut Vec<String>, rows: Vec<OutRow>)
    ensures
        texts_of(final(out)@) == texts_of(old(out)@) + row_events(out_rows_view(rows@)),
{
    let ghost all = out_rows_view(rows@);
    let ghost start = texts_of(out@);
    let mut rest = rows;
    let ghost mut i: int = 0;
    assert(all.take(0) =~= Seq::<OutRowV>::empty());
    assert(out_rows_view(rest@) =~= all.skip(0));
    while rest.len() > 0
        invariant
            0 <= i <= all.len(),
            out_rows_view(rest@) == all.skip(i),
            rest@.len() == all.len() - i,
            texts_of(out@) == start + row_events(all.take(i)),
        decreases rest@.len(),
    {
        let ghost rv = out_rows_view(rest@);
        assert(rv[0] == all[i]);
        let (_, evs) = rest.remove(0);
        assert(out_rows_view(rest@) =~= rv.drop_first());
        assert(rv.drop_first() =~= all.skip(i + 1));
        let mut evs = evs;
        append_texts(out, &mut evs);
        proof {
            assert(all.take(i + 1).drop_last() =~= all.take(i));
            i = i + 1;
        }
    }
    assert(all.take(i) =~= all);
}

/// Whether some row found has the number `n`.
fn has_row_exec(rows: &Vec<RowSpan>, n: usize) -> (r: bool)
    ensures
        r == has_row(row_spans_view(rows@), n as nat),
{
    let mut k: usize = 0;
    while k < rows.len()
        invariant
            0 <= k <= rows@.len(),
            forall|m: int| 0 <= m < k ==> (#[trigger] rows@[m]).2 != n,
        decreases rows.len() - k,
    {
        if rows[k].2 == n {
            assert(row_spans_view(rows@)[k as int].2 == n);
            return true;
        }
        k = k + 1;
    }
    assert forall|m: int| 0 <= m < row_spans_view(rows@).len() implies (#[trigger] row_spans_view(rows@)[m]).2 != n by {
        assert(row_spans_view(rows@)[m].2 == rows@[m].2);
    }
    false
}

/// Joins texts.
fn concat_texts(parts: &Vec<String>) -> (r: String)
    ensures
        r@ == concat_all(texts_of(parts@)),
{
    let mut out: Vec<char> = Vec::new();
    let mut k: usize = 0;
    assert(texts_of(parts@).take(0) =~= Seq::<Seq<char>>::empty());
    while k < parts.len()
        invariant
            0 <= k <= parts@.len(),
            out@ == concat_all(texts_of(parts@).take(k as int)),
        decreases parts.len() - k,
    {
        assert(texts_of(parts@).take(k + 1).drop_last() =~= texts_of(parts@).take(k as int));
        assert(texts_of(parts@).take(k + 1).last() == parts@[k as int]@);
        crate::text::push_all(&mut out, &crate::text::to_chars(parts[k].as_str()));
        k = k + 1;
    }
    assert(texts_of(parts@).take(k as int) =~= texts_of(parts@));
    crate::text::from_chars(&out)
}

/// The events of a new row `r` holding `cells`.
fn new_row_events(r: usize, cells: Vec<String>) -> (out: Vec<String>)
    ensures
        texts_of(out@) == seq![open_tag("row"@, row_attrs(r as nat))] + texts_of(cells@) + seq![close_tag("row"@)],
{
    proof {
        reveal_strlit("row");
    }
    let mut out: Vec<String> = Vec::new();
    out.push(row_start(r));
    assert(texts_of(out@) =~= seq![open_tag("row"@, row_attrs(r as nat))]);
    let mut cells = cells;
    append_texts(&mut out, &mut cells);
    let ghost mid = texts_of(out@);
    out.push(close_tag_text("row"));
    assert(texts_of(out@) =~= mid.push(close_tag("row"@)));
    out
}

/// Whether one of `rows` is an empty-element tag among the target rows.
pub open spec fn has_empty_target_row(rows: Seq<RowSpanV>, r0: nat, r1: nat) -> bool {
    exists|k: int| 0 <= k < rows.len() && (#[trigger] rows[k]).0 == rows[k].1 && r0 <= rows[k].2 <= r1
}

/// The rows found, each rewritten (see [`kept_rows`]); `None` when one of
/// them is an empty-element tag among the target rows.
fn rewrite_rows(
    events: &Vec<XmlEvent>,
    rows: &Vec<RowSpan>,
    grid: &WriteGrid,
    r0: usize,
    c0: usize,
    r1: usize,
    c1: usize,
) -> (r: Option<Vec<OutRow>>)
    requires
        c1 < usize::MAX,
        forall|m: int| 0 <= m < rows@.len() ==> (#[trigger] rows@[m]).0 <= rows@[m].1 < events@.len(),
    ensures
        r is None <==> has_empty_target_row(row_spans_view(rows@), r0 as nat, r1 as nat),
        r matches Some(v) ==> out_rows_view(v@) == kept_rows(
            events_view(events@),
            row_spans_view(rows@),
            *grid,
            (r0 as nat, c0 as nat, r1 as nat, c1 as nat),
        ),
{
    let ghost rect = (r0 as nat, c0 as nat, r1 as nat, c1 as nat);
    let ghost evs = events_view(events@);
    let ghost rowsv = row_spans_view(rows@);
    let mut out_rows: Vec<OutRow> = Vec::new();
    let mut k: usize = 0;
    assert(rowsv.take(0) =~= Seq::<RowSpanV>::empty());
    assert(out_rows_view(out_rows@) =~= kept_rows(evs, rowsv.take(0), *grid, rect));
    while k < rows.len()
        invariant
            0 <= k <= rows@.len(),
            c1 < usize::MAX,
            evs == events_view(events@),
            rowsv == row_spans_view(rows@),
            rect == (r0 as nat, c0 as nat, r1 as nat, c1 as nat),
            forall|m: int| 0 <= m < rows@.len() ==> (#[trigger] rows@[m]).0 <= rows@[m].1 < events@.len(),
            out_rows_view(out_rows@) == kept_rows(evs, rowsv.take(k as int), *grid, rect),
            forall|m: int| 0 <= m < k ==> !((#[trigger] rowsv[m]).0 == rowsv[m].1 && r0 <= rowsv[m].2 <= r1),
        decreases rows.len() - k,
    {
        let si = rows[k].0;
        let ei = rows[k].1;
        let rn = rows[k].2;
        let n = events.len();
        assert(rows@[k as int].0 <= rows@[k as int].1 < n);
        let ghost before = out_rows_view(out_rows@);
        assert(rowsv.take(k + 1) =~= rowsv.take(k as int).push(rowsv[k as int]));
        assert(rowsv[k as int] == (si as nat, ei as nat, rn as nat));
        let ghost expected = if r0 <= rn <= r1 {
            (
                rn as nat,
                row_element(
                    rn as nat,
                    spec_rebuild_row(evs.subrange(si + 1, ei as int), *grid, rn as nat, c0 as nat, c1 as nat),
                    evs[si as int].kind == EventKind::Empty,
                ),
            )
        } else {
            (rn as nat, texts_between(evs, si as int, ei + 1))
        };
        assert(kept_rows(evs, rowsv.take(k + 1), *grid, rect) =~= kept_rows(evs, rowsv.take(k as int), *grid, rect).push(
            expected,
        ));
        if r0 <= rn && rn <= r1 {
            if si == ei {
                assert(rowsv[k as int].0 == rowsv[k as int].1 && r0 <= rowsv[k as int].2 <= r1);
                return None;
            }
            let rebuilt = rebuild_row(events, si + 1, ei, rn, grid, c0, c1);
            let was_empty = events[si].kind == EventKind::Empty;
            let row = make_row_element(rn, rebuilt, was_empty);
            out_rows.push((rn, row));
        } else {
            let mut t: Vec<String> = Vec::new();
            push_texts(&mut t, events, si, ei + 1);
            assert(texts_of(t@) =~= texts_between(evs, si as int, ei + 1));
            out_rows.push((rn, t));
        }
        assert(out_rows_view(out_rows@) =~= before.push(expected));
        k = k + 1;
    }
    assert(rowsv.take(k as int) =~= rowsv);
    Some(out_rows)
}

/// Adds the new rows for the target rows `r0..=r1` (see [`new_rows`]).
fn add_new_rows(out_rows: &mut Vec<OutRow>, rows: &Vec<RowSpan>, grid: &WriteGrid, r0: usize, c0: usize, r1: usize, c1: usize)
    requires
        c1 < usize::MAX,
        r1 < usize::MAX,
    ensures
        out_rows_view(final(out_rows)@) == out_rows_view(old(out_rows)@) + new_rows(
            row_spans_view(rows@),
            *grid,
            r0 as int,
            r1 as int,
            c0 as nat,
            c1 as nat,
        ),
{
    let ghost rowsv = row_spans_view(rows@);
    let ghost kept = out_rows_view(out_rows@);
    if r0 > r1 {
        assert(kept =~= kept + new_rows(rowsv, *grid, r0 as int, r1 as int, c0 as nat, c1 as nat));
        return;
    }
    let mut r: usize = r0;
    assert(out_rows_view(out_rows@) + new_rows(rowsv, *grid, r0 as int, r1 as int, c0 as nat, c1 as nat) =~= kept
        + new_rows(rowsv, *grid, r0 as int, r1 as int, c0 as nat, c1 as nat));
    while r <= r1
        invariant
            r0 <= r <= r1 + 1,
            r1 < usize::MAX,
            c1 < usize::MAX,
            rowsv == row_spans_view(rows@),
            out_rows_view(out_rows@) + new_rows(rowsv, *grid, r as int, r1 as int, c0 as nat, c1 as nat) == kept
                + new_rows(rowsv, *grid, r0 as int, r1 as int, c0 as nat, c1 as nat),
        decreases r1 + 1 - r,
    {
        let ghost before = out_rows_view(out_rows@);
        let cells = build_row_cells(r, c0, c1, grid);
        if !has_row_exec(rows, r) && cells.len() > 0 {
            let evs_r = new_row_events(r, cells);
            out_rows.push((r, evs_r));
        }
        assert(out_rows_view(out_rows@) + new_rows(rowsv, *grid, r + 1, r1 as int, c0 as nat, c1 as nat) =~= before
            + new_rows(rowsv, *grid, r as int, r1 as int, c0 as nat, c1 as nat));
        r = r + 1;
    }
    assert(out_rows_view(out_rows@) =~= out_rows_view(out_rows@) + new_rows(
        rowsv,
        *grid,
        r as int,
        r1 as int,
        c0 as nat,
        c1 as nat,
    ));
}

/// The new content of `sheetData`: the rows' events, then the other events.
fn sheet_data_body(events: &Vec<XmlEvent>, sorted: Vec<OutRow>, others: &Vec<usize>) -> (r: Vec<String>)
    requires
        forall|j: int| 0 <= j < others@.len() ==> #[trigger] others@[j] < events@.len(),
    ensures
        texts_of(r@) == row_events(out_rows_view(sorted@)) + indices_view(others@).map_values(
            |i: nat| events_view(events@)[i as int].text,
        ),
{
    let ghost evs = events_view(events@);
    let mut body: Vec<String> = Vec::new();
    append_row_events(&mut body, sorted);
    let ghost rows_part = texts_of(body@);
    let mut m: usize = 0;
    let ghost ov = indices_view(others@);
    assert(texts_of(body@) =~= rows_part + ov.take(0).map_values(|i: nat| evs[i as int].text));
    while m < others.len()
        invariant
            0 <= m <= others@.len(),
            evs == events_view(events@),
            ov == indices_view(others@),
            forall|j: int| 0 <= j < others@.len() ==> #[trigger] others@[j] < events@.len(),
            texts_of(body@) == rows_part + ov.take(m as int).map_values(|i: nat| evs[i as int].text),
        decreases others.len() - m,
    {
        let ghost before = texts_of(body@);
        body.push(events[others[m]].text.clone());
        assert(ov.take(m + 1) =~= ov.take(m as int).push(ov[m as int]));
        assert(texts_of(body@) =~= before.push(evs[ov[m as int] as int].text));
        assert(texts_of(body@) =~= rows_part + ov.take(m + 1).map_values(|i: nat| evs[i as int].text));
        m = m + 1;
    }
    assert(ov.take(m as int) =~= ov);
    body
}

/// The events before `sheetData` (see [`prefix_events`]).
fn prefix_parts(events: &Vec<XmlEvent>, dim: Option<usize>, s: usize, r0: usize, c0: usize, r1: usize, c1: usize) -> (r: Result<
    Vec<String>,
    String,
>)
    requires
        s < events@.len(),
        dimension_index(events_view(events@)) == match dim {
            Some(i) => Some(i as nat),
            None => None::<nat>,
        },
        dim matches Some(i) ==> i < events@.len(),
    ensures
        match prefix_events(events_view(events@), s as nat, (r0 as nat, c0 as nat, r1 as nat, c1 as nat)) {
            Ok(pre) => r matches Ok(v) && texts_of(v@) == pre,
            Err(m) => r matches Err(x) && x@ == m,
        },
{
    let ghost evs = events_view(events@);
    let ghost pre = texts_between(evs, 0, s as int);
    let mut parts: Vec<String> = Vec::new();
    assert(texts_of(parts@) =~= Seq::<Seq<char>>::empty());
    match dim {
        Some(d) => {
            if d < s {
                push_texts(&mut parts, events, 0, d);
                let mut dv = match update_dimension(&events[d], r0, c0, r1, c1) {
                    Err(msg) => {
                        return Err(msg);
                    },
                    Ok(v) => v,
                };
                append_texts(&mut parts, &mut dv);
                push_texts(&mut parts, events, d + 1, s);
                assert(texts_between(evs, 0, d as int) =~= pre.take(d as int));
                assert(texts_between(evs, d + 1, s as int) =~= pre.skip(d + 1));
            } else {
                push_texts(&mut parts, events, 0, s);
            }
        },
        None => {
            push_texts(&mut parts, events, 0, s);
        },
    }
    Ok(parts)
}

/// Puts `sheetData` back between the events before and after it.
fn sheet_parts(
    events: &Vec<XmlEvent>,
    prefix: Vec<String>,
    body: Vec<String>,
    s: usize,
    e: usize,
) -> (r: Vec<String>)
    requires
        s < events@.len(),
        e < events@.len(),
    ensures
        texts_of(r@) == texts_of(prefix@) + (if e == s {
            seq![open_tag("sheetData"@, seq![])] + texts_of(body@) + seq![close_tag("sheetData"@)]
        } else {
            seq![events_view(events@)[s as int].text] + texts_of(body@) + seq![events_view(events@)[e as int].text]
        }) + texts_between(events_view(events@), e + 1, events@.len() as int),
{
    let ghost evs = events_view(events@);
    let ghost prev = texts_of(prefix@);
    let ghost bodyv = texts_of(body@);
    let mut parts = prefix;
    let mut body = body;
    if e == s {
        proof {
            reveal_strlit("sheetData");
        }
        let no_attrs: Vec<(String, String)> = Vec::new();
        assert(pairs_text(no_attrs@) =~= Seq::<(Seq<char>, Seq<char>)>::empty());
        parts.push(open_tag_text("sheetData", &no_attrs));
        assert(texts_of(parts@) =~= prev.push(open_tag("sheetData"@, seq![])));
        append_texts(&mut parts, &mut body);
        let ghost p2 = texts_of(parts@);
        parts.push(close_tag_text("sheetData"));
        assert(texts_of(parts@) =~= p2.push(close_tag("sheetData"@)));
        assert(texts_of(parts@) =~= prev + (seq![open_tag("sheetData"@, seq![])] + bodyv + seq![
            close_tag("sheetData"@),
        ]));
    } else {
        parts.push(events[s].text.clone());
        assert(texts_of(parts@) =~= prev.push(evs[s as int].text));
        append_texts(&mut parts, &mut body);
        let ghost p2 = texts_of(parts@);
        parts.push(events[e].text.clone());
        assert(texts_of(parts@) =~= p2.push(evs[e as int].text));
        assert(texts_of(parts@) =~= prev + (seq![evs[s as int].text] + bodyv + seq![evs[e as int].text]));
    }
    let n = events.len();
    assert(e < n);
    push_texts(&mut parts, events, e + 1, n);
    parts
}

/// Rewrites the sheet `xml` for the rectangle `(r0, c0, r1, c1)` written
/// from `grid` (see [`spec_modify_sheet`]); `None` where the rewriting
/// reaches a target row written as an empty-element tag, whose children it
/// cannot take.
pub fn try_modify_sheet_xml(
    xml: &[u8],
    grid: &WriteGrid,
    r0: usize,
    c0: usize,
    r1: usize,
    c1: usize,
) -> (r: Option<Result<String, String>>)
    requires
        c1 < usize::MAX,
        r1 < usize::MAX,
    ensures
        r is None <==> reaches_empty_target_row(xml@, r0 as nat, r1 as nat),
        r matches Some(x) ==> match spec_modify_sheet(
            xml@,
            *grid,
            (r0 as nat, c0 as nat, r1 as nat, c1 as nat),
        ) {
            Ok(t) => x matches Ok(y) && y@ == t,
            Err(m) => x matches Err(y) && y@ == m,
        },
{
    let (events, err) = read_events(xml);
    match err {
        Some(e) => {
            return Some(Err(concat_str("解析 sheet XML 失败: ", e.as_str())));
        },
        None => {},
    }
    let (dim, sd, ed) = find_marks(&events);
    let s = match sd {
        None => {
            return Some(Err(String::from_str("sheet XML 缺少 sheetData")));
        },
        Some(s) => s,
    };
    let e = match ed {
        None => {
            return Some(Err(String::from_str("sheet XML 缺少 </sheetData>")));
        },
        Some(e) => e,
    };
    let (rows, others) = match scan_rows(&events, s, e) {
        Err(m) => {
            return Some(Err(m));
        },
        Ok(x) => x,
    };
    let mut out_rows = match rewrite_rows(&events, &rows, grid, r0, c0, r1, c1) {
        None => {
            return None;
        },
        Some(v) => v,
    };
    add_new_rows(&mut out_rows, &rows, grid, r0, c0, r1, c1);
    let sorted = sort_out_rows(out_rows);
    let body = sheet_data_body(&events, sorted, &others);
    let prefix = match prefix_parts(&events, dim, s, r0, c0, r1, c1) {
        Err(m) => {
            return Some(Err(m));
        },
        Ok(v) => v,
    };
    let parts = sheet_parts(&events, prefix, body, s, e);
    Some(Ok(concat_texts(&parts)))
}

/// Rewrites the sheet `xml` for the rectangle `(r0, c0, r1, c1)` written
/// from `grid` (see [`spec_modify_sheet`]).
pub fn modify_sheet_xml(xml: &[u8], grid: &WriteGrid, r0: usize, c0: usize, r1: usize, c1: usize) -> (r: Result<
    String,
    String,
>)
    requires
        c1 < usize::MAX,
        r1 < usize::MAX,
        !reaches_empty_target_row(xml@, r0 as nat, r1 as nat),
    ensures
        match spec_modify_sheet(xml@, *grid, (r0 as nat, c0 as nat, r1 as nat, c1 as nat)) {
            Ok(t) => r matches Ok(y) && y@ == t,
            Err(m) => r matches Err(y) && y@ == m,
        },
{
    match try_modify_sheet_xml(xml, grid, r0, c0, r1, c1) {
        Some(x) => x,
        None => {
            assert(false);
            Err(String::new())
        },
    }
}

// ---------------------------------------------------------------------------
// What the rewriting leaves alone
// ---------------------------------------------------------------------------

pub proof fn lemma_concat_all_add(a: Seq<Seq<char>>, b: Seq<Seq<char>>)
    ensures
        concat_all(a + b) == concat_all(a) + concat_all(b),
    decreases b.len(),
{
    if b.len() == 0 {
        assert(a + b =~= a);
        assert(concat_all(b) =~= Seq::<char>::empty());
        assert(concat_all(a) + concat_all(b) =~= concat_all(a));
    } else {
        lemma_concat_all_add(a, b.drop_last());
        assert((a + b).drop_last() =~= a + b.drop_last());
        assert((a + b).last() == b.last());
        assert(concat_all(a + b) =~= concat_all(a) + concat_all(b));
    }
}

pub proof fn lemma_marks_bound(evs: Seq<XmlEventV>)
    ensures
        sheet_data_marks(evs).0 matches Some(s) ==> s < evs.len(),
        sheet_data_marks(evs).1 matches Some(e) ==> e < evs.len(),
    decreases evs.len(),
{
    if evs.len() > 0 {
        lemma_marks_bound(evs.drop_last());
    }
}

proof fn lemma_dimension_bound(evs: Seq<XmlEventV>)
    ensures
        dimension_index(evs) matches Some(d) ==> d < evs.len(),
    decreases evs.len(),
{
    if evs.len() > 0 {
        lemma_dimension_bound(evs.drop_last());
    }
}

/// Law: rewriting a sheet keeps every event after the first `</sheetData>`,
/// and every event before `<sheetData>` that comes before the first
/// `<dimension>` tag, unchanged and in order: the output starts with the
/// first and ends with the second.
pub proof fn law_outside_sheet_data_kept(xml: Seq<u8>, g: WriteGrid, rect: (nat, nat, nat, nat))
    ensures
        spec_modify_sheet(xml, g, rect) matches Ok(out) ==> {
            let evs = events_of(spec_xml_events(xml).0);
            let s = sheet_data_marks(evs).0->0;
            let e = sheet_data_marks(evs).1->0;
            let h = match dimension_index(evs) {
                Some(d) => if d < s {
                    d
                } else {
                    s
                },
                None => s,
            };
            let head = concat_all(texts_between(evs, 0, h as int));
            let tail = concat_all(texts_between(evs, (e + 1) as int, evs.len() as int));
            &&& head.len() + tail.len() <= out.len()
            &&& out.take(head.len() as int) == head
            &&& out.skip(out.len() - tail.len()) == tail
        },
{
    if let Ok(out) = spec_modify_sheet(xml, g, rect) {
        let (r0, c0, r1, c1) = rect;
        let evs = events_of(spec_xml_events(xml).0);
        let s = sheet_data_marks(evs).0->0;
        let e = sheet_data_marks(evs).1->0;
        lemma_marks_bound(evs);
        lemma_dimension_bound(evs);
        let rs = row_scan(evs, (s + 1) as int, e as int, 0);
        let (rows, others) = rs->Ok_0;
        let out_rows = sort_rows(kept_rows(evs, rows, g, rect) + new_rows(rows, g, r0 as int, r1 as int, c0, c1));
        let body = row_events(out_rows) + others.map_values(|i: nat| evs[i as int].text);
        let pre = prefix_events(evs, s, rect)->Ok_0;
        let mid = if e == s {
            seq![open_tag("sheetData"@, seq![])] + body + seq![close_tag("sheetData"@)]
        } else {
            seq![evs[s as int].text] + body + seq![evs[e as int].text]
        };
        let tl = texts_between(evs, (e + 1) as int, evs.len() as int);
        assert(out == concat_all(pre + mid + tl));
        lemma_concat_all_add(pre + mid, tl);
        let h = match dimension_index(evs) {
            Some(d) => if d < s {
                d
            } else {
                s
            },
            None => s,
        };
        let hd = texts_between(evs, 0, h as int);
        let whole = texts_between(evs, 0, s as int);
        if h < s {
            let d = h;
            let dv = match spec_update_dimension(evs[d as int], rect) {
                Ok(dv) => dv,
                Err(_) => seq![],
            };
            assert(pre == whole.take(d as int) + dv + whole.skip((d + 1) as int));
            assert(whole.take(d as int) =~= hd);
            assert(pre =~= hd + (dv + whole.skip((d + 1) as int)));
            assert(pre + mid =~= hd + ((dv + whole.skip((d + 1) as int)) + mid));
            lemma_concat_all_add(hd, (dv + whole.skip((d + 1) as int)) + mid);
        } else {
            assert(pre =~= whole);
            assert(whole =~= hd);
            assert(pre + mid =~= hd + mid);
            lemma_concat_all_add(hd, mid);
        }
        assert(out.take(concat_all(hd).len() as int) =~= concat_all(hd));
        assert(out.skip(out.len() - concat_all(tl).len()) =~= concat_all(tl));
    }
}

/// Law: a row outside the target rows is written back exactly as it was read.
pub proof fn law_rows_outside_target_kept(
    evs: Seq<XmlEventV>,
    rows: Seq<RowSpanV>,
    g: WriteGrid,
    rect: (nat, nat, nat, nat),
    k: int,
)
    requires
        0 <= k < rows.len(),
        !(rect.0 <= rows[k].2 <= rect.2),
    ensures
        kept_rows(evs, rows, g, rect)[k] == (rows[k].2, texts_between(evs, rows[k].0 as int, (rows[k].1 + 1) as int)),
{
}

proof fn lemma_cell_spans_order(ch: Seq<XmlEventV>, i: int, seq: nat)
    requires
        0 <= i,
    ensures
        forall|k: int|
            0 <= k < cell_spans(ch, i, seq).len() ==> i <= (#[trigger] cell_spans(ch, i, seq)[k]).0 <= cell_spans(
                ch,
                i,
                seq,
            )[k].1 < ch.len(),
        forall|k1: int, k2: int|
            0 <= k1 < k2 < cell_spans(ch, i, seq).len() ==> (#[trigger] cell_spans(ch, i, seq)[k1]).1 < (
            #[trigger] cell_spans(ch, i, seq)[k2]).0,
    decreases ch.len() - i,
{
    let all = cell_spans(ch, i, seq);
    if i < ch.len() {
        if is_cell_tag(ch[i]) {
            let (col, s, seq2) = spec_cell_col(ch[i], seq);
            if ch[i].kind == EventKind::Start {
                match cell_close(ch, i + 1, 1) {
                    None => {
                        assert(all.len() == 0);
                    },
                    Some(j) => {
                        if i < j <= ch.len() {
                            lemma_cell_spans_order(ch, j, seq2);
                            let rest = cell_spans(ch, j, seq2);
                            assert(all == seq![(i as nat, (j - 1) as nat, col, s)] + rest);
                            lemma_spans_cons(all, rest, (i as nat, (j - 1) as nat, col, s), i, j, ch.len() as int);
                        } else {
                            assert(all.len() == 0);
                        }
                    },
                }
            } else {
                lemma_cell_spans_order(ch, i + 1, seq2);
                let rest = cell_spans(ch, i + 1, seq2);
                assert(all == seq![(i as nat, i as nat, col, s)] + rest);
                lemma_spans_cons(all, rest, (i as nat, i as nat, col, s), i, i + 1, ch.len() as int);
            }
        } else {
            lemma_cell_spans_order(ch, i + 1, seq);
            assert(all == cell_spans(ch, i + 1, seq));
        }
    } else {
        assert(all.len() == 0);
    }
}

proof fn lemma_spans_cons(all: Seq<SpanV>, rest: Seq<SpanV>, first: SpanV, i: int, j: int, n: int)
    requires
        all == seq![first] + rest,
        first.0 == i,
        i <= first.1 < j <= n,
        forall|k: int| 0 <= k < rest.len() ==> j <= (#[trigger] rest[k]).0 <= rest[k].1 < n,
        forall|k1: int, k2: int| 0 <= k1 < k2 < rest.len() ==> (#[trigger] rest[k1]).1 < (#[trigger] rest[k2]).0,
    ensures
        forall|k: int| 0 <= k < all.len() ==> i <= (#[trigger] all[k]).0 <= all[k].1 < n,
        forall|k1: int, k2: int| 0 <= k1 < k2 < all.len() ==> (#[trigger] all[k1]).1 < (#[trigger] all[k2]).0,
{
    assert forall|k: int| 0 <= k < all.len() implies i <= (#[trigger] all[k]).0 <= all[k].1 < n by {
        if k > 0 {
            assert(all[k] == rest[k - 1]);
        }
    }
    assert forall|k1: int, k2: int| 0 <= k1 < k2 < all.len() implies (#[trigger] all[k1]).1 < (#[trigger] all[k2]).0 by {
        assert(all[k2] == rest[k2 - 1]);
        if k1 > 0 {
            assert(all[k1] == rest[k1 - 1]);
        }
    }
}

proof fn lemma_no_style(spans: Seq<SpanV>, col: nat)
    requires
        forall|k: int| 0 <= k < spans.len() ==> (#[trigger] spans[k]).2 != col,
    ensures
        existing_style(spans, col) is None,
    decreases spans.len(),
{
    if spans.len() > 0 {
        assert(spans.last() == spans[spans.len() - 1]);
        assert forall|k: int| 0 <= k < spans.drop_last().len() implies (#[trigger] spans.drop_last()[k]).2 != col by {
            assert(spans.drop_last()[k] == spans[k]);
        }
        lemma_no_style(spans.drop_last(), col);
    }
}

proof fn lemma_nothing_pending(x: RowCtx, a: int, b: int)
    requires
        forall|col: nat| x.c0 <= col <= x.c1 ==> pending_cell(x, col) is None,
    ensures
        pend_between(x, a, b) == Seq::<Seq<char>>::empty(),
    decreases b - a,
{
    if !(a >= b || a > x.c1 || a < 0) {
        lemma_nothing_pending(x, a + 1, b);
        if x.c0 <= a {
            assert(pending_cell(x, a as nat) is None);
        }
    }
}

proof fn lemma_texts_between_join(ch: Seq<XmlEventV>, a: int, b: int, c: int)
    requires
        0 <= a <= b <= c <= ch.len(),
    ensures
        texts_between(ch, a, b) + texts_between(ch, b, c) == texts_between(ch, a, c),
{
    assert(texts_between(ch, a, b) + texts_between(ch, b, c) =~= texts_between(ch, a, c));
}

proof fn lemma_assemble_untouched(ch: Seq<XmlEventV>, x: RowCtx, k: int, cursor: int, p: int)
    requires
        0 <= k <= x.spans.len(),
        0 <= cursor <= ch.len(),
        k < x.spans.len() ==> cursor <= x.spans[k].0,
        forall|j: int| 0 <= j < x.spans.len() ==> (#[trigger] x.spans[j]).0 <= x.spans[j].1 < ch.len(),
        forall|j1: int, j2: int| 0 <= j1 < j2 < x.spans.len() ==> (#[trigger] x.spans[j1]).1 < (#[trigger] x.spans[j2]).0,
        forall|j: int| 0 <= j < x.spans.len() ==> !(x.c0 <= (#[trigger] x.spans[j]).2 <= x.c1),
        forall|col: nat| x.c0 <= col <= x.c1 ==> pending_cell(x, col) is None,
    ensures
        assemble(ch, x, k, cursor, p) == texts_between(ch, cursor, ch.len() as int),
    decreases x.spans.len() - k,
{
    if k >= x.spans.len() {
        lemma_nothing_pending(x, p, (x.c1 + 1) as int);
        assert(texts_between(ch, cursor, ch.len() as int) + Seq::<Seq<char>>::empty() =~= texts_between(
            ch,
            cursor,
            ch.len() as int,
        ));
    } else {
        let (cs, ce, col, _) = x.spans[k];
        let p1 = if p >= col {
            p
        } else {
            col as int
        };
        lemma_nothing_pending(x, p, col as int);
        if k + 1 < x.spans.len() {
            assert(x.spans[k].1 < x.spans[k + 1].0);
        }
        lemma_assemble_untouched(ch, x, k + 1, (ce + 1) as int, p1);
        lemma_texts_between_join(ch, cursor, cs as int, (ce + 1) as int);
        lemma_texts_between_join(ch, cursor, (ce + 1) as int, ch.len() as int);
        assert(texts_between(ch, cursor, cs as int) + Seq::<Seq<char>>::empty() =~= texts_between(
            ch,
            cursor,
            cs as int,
        ));
    }
}

/// Law: a row with no cell in the target columns and no value to write
/// there (none, or only empty values) is written back as it was read.
pub proof fn law_row_untouched_without_writes(ch: Seq<XmlEventV>, g: WriteGrid, row: nat, c0: nat, c1: nat)
    requires
        forall|k: int| 0 <= k < cell_spans(ch, 0, 0).len() ==> !(c0 <= (#[trigger] cell_spans(ch, 0, 0)[k]).2 <= c1),
        forall|col: int|
            c0 <= col <= c1 ==> (#[trigger] g.at(row as int, col)) is None || g.at(row as int, col) == Some(
                CellValueV::Empty,
            ),
    ensures
        spec_rebuild_row(ch, g, row, c0, c1) == texts_between(ch, 0, ch.len() as int),
{
    let x = RowCtx { grid: g, row, spans: cell_spans(ch, 0, 0), c0, c1 };
    lemma_cell_spans_order(ch, 0, 0);
    assert forall|col: nat| x.c0 <= col <= x.c1 implies pending_cell(x, col) is None by {
        assert forall|k: int| 0 <= k < x.spans.len() implies (#[trigger] x.spans[k]).2 != col by {}
        lemma_no_style(x.spans, col);
        assert(g.at(row as int, col as int) is None || g.at(row as int, col as int) == Some(CellValueV::Empty));
    }
    lemma_assemble_untouched(ch, x, 0, 0, 0);
}

} // verus!
