//! Text out of office containers: a zip archive whose XML parts hold the words.
use crate::chars;
use crate::text;
use vstd::prelude::*;

verus! {

// ------------------------------------------------------------------ XML

/// What an XML reader comes across, as far as text extraction tells it apart.
#[derive(Debug, Clone)]
pub enum XmlEvent {
    /// Character data.
    Text(String),
    /// Character data that does not decode.
    Undecodable,
    /// An end tag, by its undecoded name.
    End(Vec<u8>),
    /// Any other markup.
    Other,
    /// The document is ill-formed from here on.
    Broken,
}

/// An `XmlEvent` as mathematical values.
pub enum XmlView {
    Text(Seq<char>),
    Undecodable,
    End(Seq<u8>),
    Other,
    Broken,
}

impl View for XmlEvent {
    type V = XmlView;

    open spec fn view(&self) -> XmlView {
        match self {
            XmlEvent::Text(s) => XmlView::Text(s@),
            XmlEvent::Undecodable => XmlView::Undecodable,
            XmlEvent::End(n) => XmlView::End(n@),
            XmlEvent::Other => XmlView::Other,
            XmlEvent::Broken => XmlView::Broken,
        }
    }
}

#[verifier::external_type_specification]
#[verifier::external_body]
#[verifier::reject_recursive_types(R)]
pub struct ExXmlReader<R>(quick_xml::Reader<R>);

/// The events of a document up to its end, or up to and with the first place where it is
/// ill-formed, as `quick_xml::Reader` reports them with surrounding white space trimmed from
/// character data.
pub uninterp spec fn xml_events(xml: Seq<char>) -> Seq<XmlView>;

/// The events that a `quick_xml::Reader` has yet to report, up to the end of the document, or up to
/// and with the first error.
pub uninterp spec fn pending(r: quick_xml::Reader<&[u8]>) -> Seq<XmlView>;

/// Calls `quick_xml::Reader::from_str` and turns trimming of character data on: a reader that has
/// all of the document's events before it.
#[verifier::external_body]
fn open_xml<'a>(xml: &'a str) -> (r: quick_xml::Reader<&'a [u8]>)
    ensures
        pending(r) == xml_events(xml@),
{
    let mut r = quick_xml::Reader::from_str(xml);
    r.config_mut().trim_text(true);
    r
}

/// Calls `quick_xml::Reader::read_event_into`: the next event, which is then behind the reader, or
/// `None` at the end of the document. Character data is decoded with `BytesText::decode`; an end
/// tag's name is the one `BytesEnd::name` gives.
#[verifier::external_body]
fn next_event(r: &mut quick_xml::Reader<&[u8]>) -> (e: Option<XmlEvent>)
    ensures
        match e {
            Some(v) => {
                &&& pending(*old(r)).len() > 0
                &&& v@ == pending(*old(r))[0]
                &&& !(v@ is Broken) ==> pending(*final(r)) == pending(*old(r)).drop_first()
            },
            None => pending(*old(r)).len() == 0,
        },
{
    let mut buf = Vec::new();
    match r.read_event_into(&mut buf) {
        Ok(quick_xml::events::Event::Text(t)) => match t.decode() {
            Ok(s) => Some(XmlEvent::Text(s.into_owned())),
            Err(_) => Some(XmlEvent::Undecodable),
        },
        Ok(quick_xml::events::Event::End(t)) => Some(XmlEvent::End(t.name().as_ref().to_vec())),
        Ok(quick_xml::events::Event::Eof) => None,
        Ok(_) => Some(XmlEvent::Other),
        Err(_) => Some(XmlEvent::Broken),
    }
}

/// The text that one event adds. Adjacent runs are kept apart by a space; an end tag whose name
/// ends in `p` closes a paragraph, so that words of adjacent paragraphs do not run together.
pub open spec fn event_text(e: XmlView) -> Seq<char> {
    match e {
        XmlView::Text(s) => s.push(' '),
        XmlView::End(n) => if n.len() > 0 && n.last() == 0x70 {
            seq!['\n']
        } else {
            seq![]
        },
        _ => seq![],
    }
}

/// The text of a run of events, up to the first broken one.
pub open spec fn events_text(events: Seq<XmlView>) -> Seq<char>
    decreases events.len(),
{
    if events.len() == 0 || events[0] is Broken {
        seq![]
    } else {
        event_text(events[0]) + events_text(events.drop_first())
    }
}

/// Appends the text of one event; `false` where the document is broken and reading ends.
pub fn push_event(out: &mut String, e: &XmlEvent) -> (more: bool)
    ensures
        final(out)@ == old(out)@ + event_text(e@),
        more == !(e@ is Broken),
{
    match e {
        XmlEvent::Text(s) => {
            out.append(s.as_str());
            out.push(' ');
            proof {
                assert(out@ =~= old(out)@ + event_text(e@));
            }
            true
        },
        XmlEvent::End(n) => {
            if n.len() > 0 && n[n.len() - 1] == 0x70 {
                out.push('\n');
                proof {
                    assert(out@ =~= old(out)@ + event_text(e@));
                }
            }
            true
        },
        XmlEvent::Undecodable => true,
        XmlEvent::Other => true,
        XmlEvent::Broken => false,
    }
}

/// Concatenates the character data of an XML document, ignoring markup.
pub fn xml_text(xml: &str) -> (r: String)
    ensures
        r@ == events_text(xml_events(xml@)),
{
    let mut r = open_xml(xml);
    let mut out = String::new();
    let ghost all = xml_events(xml@);
    proof {
        assert(out@ + events_text(pending(r)) =~= events_text(all));
    }
    loop
        invariant_except_break
            out@ + events_text(pending(r)) == events_text(all),
        ensures
            out@ == events_text(all),
        decreases pending(r).len(),
    {
        let ghost before = pending(r);
        let ghost so_far = out@;
        match next_event(&mut r) {
            Some(e) => {
                let more = push_event(&mut out, &e);
                if !more {
                    proof {
                        assert(events_text(before) =~= Seq::<char>::empty());
                        assert(event_text(e@) =~= Seq::<char>::empty());
                        assert(out@ =~= events_text(all));
                    }
                    break;
                }
                proof {
                    assert(out@ + events_text(pending(r)) =~= so_far + events_text(before));
                }
            },
            None => {
                proof {
                    assert(out@ + events_text(before) =~= out@);
                }
                break;
            },
        }
    }
    out
}

// ------------------------------------------------------------------ archives

/// An entry of an archive: its name, if it can be reached, and its text, if it unpacks to text.
pub struct ZipEntry {
    pub name: Option<Seq<char>>,
    pub text: Option<Seq<char>>,
}

#[verifier::external_type_specification]
#[verifier::external_body]
#[verifier::reject_recursive_types(R)]
pub struct ExZipArchive<R>(zip::ZipArchive<R>);

#[verifier::external_type_specification]
#[verifier::external_body]
#[verifier::reject_recursive_types(T)]
pub struct ExCursor<T>(std::io::Cursor<T>);

/// The entries of the archive that `bytes` are, or `None` where `zip::ZipArchive` reads none.
pub uninterp spec fn archive_entries(bytes: Seq<u8>) -> Option<Seq<ZipEntry>>;

/// The entries of an open `zip::ZipArchive`, in the order of their indices.
pub uninterp spec fn entries_of(z: zip::ZipArchive<std::io::Cursor<Vec<u8>>>) -> Seq<ZipEntry>;

/// Calls `zip::ZipArchive::new` on bytes in memory: the archive they are, if they are one.
#[verifier::external_body]
fn open_archive(bytes: Vec<u8>) -> (r: Option<zip::ZipArchive<std::io::Cursor<Vec<u8>>>>)
    ensures
        match r {
            Some(z) => archive_entries(bytes@) == Some(entries_of(z)),
            None => archive_entries(bytes@) is None,
        },
{
    zip::ZipArchive::new(std::io::Cursor::new(bytes)).ok()
}

/// Calls `zip::ZipArchive::len`: how many entries there are.
#[verifier::external_body]
fn archive_len(z: &zip::ZipArchive<std::io::Cursor<Vec<u8>>>) -> (r: usize)
    ensures
        r == entries_of(*z).len(),
{
    z.len()
}

/// Calls `zip::ZipArchive::by_index_raw`: the name of an entry, if the entry can be reached. The
/// archive's entries stay what they are.
#[verifier::external_body]
fn entry_name(z: &mut zip::ZipArchive<std::io::Cursor<Vec<u8>>>, i: usize) -> (r: Option<String>)
    requires
        i < entries_of(*old(z)).len(),
    ensures
        entries_of(*final(z)) == entries_of(*old(z)),
        match r {
            Some(s) => entries_of(*old(z))[i as int].name == Some(s@),
            None => entries_of(*old(z))[i as int].name is None,
        },
{
    z.by_index_raw(i).ok().map(|e| e.name().to_string())
}

/// Calls `zip::ZipArchive::by_index` and reads the entry with `read_to_string`: its text, if it
/// unpacks to valid UTF-8. The archive's entries stay what they are.
#[verifier::external_body]
fn entry_text(z: &mut zip::ZipArchive<std::io::Cursor<Vec<u8>>>, i: usize) -> (r: Option<String>)
    requires
        i < entries_of(*old(z)).len(),
    ensures
        entries_of(*final(z)) == entries_of(*old(z)),
        match r {
            Some(s) => entries_of(*old(z))[i as int].text == Some(s@),
            None => entries_of(*old(z))[i as int].text is None,
        },
{
    let mut xml = String::new();
    let mut entry = z.by_index(i).ok()?;
    std::io::Read::read_to_string(&mut entry, &mut xml).ok()?;
    Some(xml)
}

/// The parts worth reading. Names differ between the two families of office formats.
pub open spec fn wanted_name(n: Seq<char>) -> bool {
    n == "word/document.xml"@ || n == "content.xml"@ || n == "xl/sharedStrings.xml"@ || (
    chars::begins_with(n, "ppt/slides/slide"@) && chars::finishes_with(n, ".xml"@))
}

/// Whether a part is worth reading.
pub fn is_wanted(n: &str) -> (r: bool)
    ensures
        r == wanted_name(n@),
{
    text::same(n, "word/document.xml") || text::same(n, "content.xml") || text::same(
        n,
        "xl/sharedStrings.xml",
    ) || (chars::starts_with(n, "ppt/slides/slide") && chars::ends_with(n, ".xml"))
}

/// Bytes of collected text after which no further part is read.
pub const OFFICE_CAP: usize = 200_000;

/// Whether an entry contributes text.
pub open spec fn contributes(e: ZipEntry) -> bool {
    &&& e.name is Some
    &&& wanted_name(e.name->0)
    &&& e.text is Some
}

/// The text of the wanted parts, in order, each followed by a space, until it is long enough.
pub open spec fn parts_text(entries: Seq<ZipEntry>) -> Seq<char>
    decreases entries.len(),
{
    if entries.len() == 0 {
        seq![]
    } else {
        let before = parts_text(entries.drop_last());
        let e = entries.last();
        if !contributes(e) || vstd::utf8::encode_utf8(before).len() > OFFICE_CAP {
            before
        } else {
            (before + events_text(xml_events(e.text->0))).push(' ')
        }
    }
}

/// Pulls the text out of an office container. `None` where it is no archive or holds no text.
pub fn office_text(bytes: Vec<u8>) -> (r: Option<String>)
    ensures
        match r {
            Some(s) => {
                &&& archive_entries(bytes@) is Some
                &&& s@ == parts_text(archive_entries(bytes@)->0)
                &&& chars::trimmed(s@).len() > 0
            },
            None => archive_entries(bytes@) is None || chars::trimmed(
                parts_text(archive_entries(bytes@)->0),
            ).len() == 0,
        },
{
    let mut z = match open_archive(bytes) {
        Some(z) => z,
        None => {
            return None;
        },
    };
    let ghost all = entries_of(z);
    let n: usize = archive_len(&z);
    let mut out = String::new();
    let mut i: usize = 0;
    while i < n
        invariant
            n == all.len(),
            entries_of(z) == all,
            i <= n,
            out@ == parts_text(all.take(i as int)),
        decreases n - i,
    {
        proof {
            assert(all.take(i + 1).drop_last() =~= all.take(i as int));
            assert(all.take(i + 1).last() == all[i as int]);
        }
        if out.as_str().as_bytes().len() <= OFFICE_CAP {
            let wanted = match entry_name(&mut z, i) {
                Some(name) => is_wanted(name.as_str()),
                None => false,
            };
            if wanted {
                if let Some(xml) = entry_text(&mut z, i) {
                    let t = xml_text(xml.as_str());
                    out.append(t.as_str());
                    out.push(' ');
                }
            }
        }
        i += 1;
    }
    proof {
        assert(all.take(n as int) =~= all);
    }
    if chars::is_blank(out.as_str()) {
        None
    } else {
        Some(out)
    }
}

// ------------------------------------------------------------------ laws

/// The text of a document is that of its events, one after the other, up to where it breaks:
/// character data set off by a space, a line feed where a paragraph closes, and nothing for any
/// other markup.
pub proof fn a_document_reads_as_its_events(
    a: Seq<XmlView>,
    b: Seq<XmlView>,
    s: Seq<char>,
    n: Seq<u8>,
)
    requires
        forall|i: int| 0 <= i < a.len() ==> !((#[trigger] a[i]) is Broken),
    ensures
        events_text(a + b) == events_text(a) + events_text(b),
        events_text(a.push(XmlView::Broken) + b) == events_text(a),
        events_text(seq![XmlView::Text(s)]) == s + seq![' '],
        events_text(seq![XmlView::End(n)]) == (if n.len() > 0 && n.last() == 'p' as u8 {
            seq!['\n']
        } else {
            Seq::<char>::empty()
        }),
        events_text(seq![XmlView::Other]) == Seq::<char>::empty(),
        events_text(seq![XmlView::Undecodable]) == Seq::<char>::empty(),
    decreases a.len(),
{
    assert('p' as u8 == 0x70);
    lemma_one_event(XmlView::Text(s));
    assert(s.push(' ') =~= s + seq![' ']);
    lemma_one_event(XmlView::End(n));
    lemma_one_event(XmlView::Other);
    lemma_one_event(XmlView::Undecodable);
    let broken = a.push(XmlView::Broken) + b;
    if a.len() == 0 {
        assert(a + b =~= b);
        assert(events_text(a) + events_text(b) =~= events_text(b));
        assert(broken[0] is Broken);
    } else {
        let rest = a.drop_first();
        assert forall|i: int| 0 <= i < rest.len() implies !((#[trigger] rest[i]) is Broken) by {
            assert(!(a[i + 1] is Broken));
        }
        a_document_reads_as_its_events(rest, b, s, n);
        assert((a + b).drop_first() =~= rest + b);
        assert((a + b)[0] == a[0]);
        assert(!(a[0] is Broken));
        assert(event_text(a[0]) + (events_text(rest) + events_text(b)) =~= events_text(a)
            + events_text(b));
        assert(broken.drop_first() =~= rest.push(XmlView::Broken) + b);
        assert(broken[0] == a[0]);
    }
}

proof fn lemma_one_event(e: XmlView)
    requires
        !(e is Broken),
    ensures
        events_text(seq![e]) == event_text(e),
{
    let one = seq![e];
    assert(one.drop_first() =~= Seq::<XmlView>::empty());
    assert(events_text(one.drop_first()) =~= Seq::<char>::empty());
    assert(event_text(e) + Seq::<char>::empty() =~= event_text(e));
}

/// Whether an entry is one of the parts that hold a document's words, and unpacks to text: the body
/// of a text document or of any document of the open formats, the strings of a spreadsheet, or a
/// slide.
pub open spec fn holds_words(e: ZipEntry) -> bool {
    e.text is Some && match e.name {
        Some(n) => n == "word/document.xml"@ || n == "content.xml"@ || n == "xl/sharedStrings.xml"@
            || (chars::begins_with(n, "ppt/slides/slide"@) && chars::finishes_with(n, ".xml"@)),
        None => false,
    }
}

/// The texts of all entries that hold words, in the order of the entries, each followed by a space.
pub open spec fn all_words(entries: Seq<ZipEntry>) -> Seq<char> {
    text::joined(
        entries.filter(|e: ZipEntry| holds_words(e)).map_values(
            |e: ZipEntry| events_text(xml_events(e.text->0)).push(' '),
        ),
        Seq::<char>::empty(),
    )
}

proof fn lemma_all_words(entries: Seq<ZipEntry>)
    requires
        entries.len() > 0,
    ensures
        ({
            let e = entries.last();
            all_words(entries) == if holds_words(e) {
                all_words(entries.drop_last()) + events_text(xml_events(e.text->0)).push(' ')
            } else {
                all_words(entries.drop_last())
            }
        }),
        holds_words(entries.last()) == contributes(entries.last()),
{
    reveal(Seq::filter);
    let p = |e: ZipEntry| holds_words(e);
    let f = |e: ZipEntry| events_text(xml_events(e.text->0)).push(' ');
    let none = Seq::<char>::empty();
    let e = entries.last();
    let rest = entries.drop_last().filter(p);
    if holds_words(e) {
        let words = rest.map_values(f);
        assert(rest.push(e).map_values(f) =~= words.push(f(e)));
        assert(words.push(f(e)).drop_last() =~= words);
        if words.len() == 0 {
            assert(text::joined(words, none) + f(e) =~= f(e));
        } else {
            assert(text::joined(words, none) + none + f(e) =~= text::joined(words, none) + f(e));
        }
    }
}

proof fn lemma_fewer_words(entries: Seq<ZipEntry>)
    requires
        entries.len() > 0,
    ensures
        vstd::utf8::encode_utf8(all_words(entries.drop_last())).len() <= vstd::utf8::encode_utf8(
            all_words(entries),
        ).len(),
{
    lemma_all_words(entries);
    if holds_words(entries.last()) {
        chars::lemma_encode_concat(
            all_words(entries.drop_last()),
            events_text(xml_events(entries.last().text->0)).push(' '),
        );
    }
}

/// No part is left out because an earlier one gave text: where all of them give at most 200000
/// bytes, the text is that of every entry that holds words, in order.
pub proof fn every_part_that_holds_words_is_read(entries: Seq<ZipEntry>)
    requires
        vstd::utf8::encode_utf8(all_words(entries)).len() <= 200_000,
    ensures
        parts_text(entries) == all_words(entries),
    decreases entries.len(),
{
    if entries.len() > 0 {
        let init = entries.drop_last();
        lemma_fewer_words(entries);
        every_part_that_holds_words_is_read(init);
        lemma_all_words(entries);
        let t = events_text(xml_events(entries.last().text->0));
        assert((all_words(init) + t).push(' ') =~= all_words(init) + t.push(' '));
    } else {
        lemma_no_words(entries);
    }
}

proof fn lemma_no_words(entries: Seq<ZipEntry>)
    requires
        entries.len() == 0,
    ensures
        all_words(entries) == Seq::<char>::empty(),
{
    reveal(Seq::filter);
    assert(all_words(entries) =~= Seq::<char>::empty());
}

/// Reading stops only past 200000 bytes: what is read are the first entries that hold words, and
/// where any are left, what was read before is longer than that.
pub proof fn reading_stops_only_when_there_is_enough(entries: Seq<ZipEntry>) -> (k: int)
    ensures
        0 <= k <= entries.len(),
        parts_text(entries) == all_words(entries.take(k)),
        k < entries.len() ==> vstd::utf8::encode_utf8(parts_text(entries)).len() > 200_000,
    decreases entries.len(),
{
    if entries.len() == 0 {
        lemma_no_words(entries.take(0));
        0
    } else {
        let init = entries.drop_last();
        let k = reading_stops_only_when_there_is_enough(init);
        assert(init.take(k) =~= entries.take(k));
        lemma_all_words(entries);
        if vstd::utf8::encode_utf8(parts_text(init)).len() > 200_000 {
            k
        } else {
            assert(init.take(k) =~= init);
            assert(entries.take(entries.len() as int) =~= entries);
            if contributes(entries.last()) {
                let t = events_text(xml_events(entries.last().text->0));
                assert((all_words(init) + t).push(' ') =~= all_words(init) + t.push(' '));
            }
            entries.len() as int
        }
    }
}

} // verus!
