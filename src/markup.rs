//! Building the book from its markup: a `<sura name=..>` element opens a
//! sura, and each `<aya text=.. bismillah=..>` element after it adds an aya
//! to the sura opened last.

use vstd::prelude::*;
use quick_xml::events::Event;
use quick_xml::Reader;
use vstd::utf8::{decode_utf8, valid_utf8};
use crate::quran::{Quran, Sura, SuraView};

verus! {

#[verifier::external_type_specification]
#[verifier::external_body]
pub struct ExXmlError(quick_xml::Error);

/// One attribute of an element, key and value as raw bytes.
pub struct MarkupAttribute {
    pub key: Vec<u8>,
    pub value: Vec<u8>,
}

/// An attribute as plain values.
pub struct AttributeView {
    pub key: Seq<u8>,
    pub value: Seq<u8>,
}

impl View for MarkupAttribute {
    type V = AttributeView;

    open spec fn view(&self) -> AttributeView {
        AttributeView { key: self.key@, value: self.value@ }
    }
}

/// What the loader sees of one event of the markup before its end.
pub enum MarkupEvent {
    /// A start tag or an empty-element tag: its name and its attributes in order.
    Element { name: Vec<u8>, attributes: Vec<MarkupAttribute> },
    /// Anything else: end tags, text, comments, declarations.
    Other,
}

/// An event as plain values.
pub enum EventView {
    Element { name: Seq<u8>, attributes: Seq<AttributeView> },
    Other,
}

impl View for MarkupEvent {
    type V = EventView;

    open spec fn view(&self) -> EventView {
        match self {
            MarkupEvent::Element { name, attributes } => EventView::Element {
                name: name@,
                attributes: attributes@.map_values(|a: MarkupAttribute| a@),
            },
            MarkupEvent::Other => EventView::Other,
        }
    }
}

/// The views of `evs`, in order.
pub open spec fn events_view(evs: Seq<MarkupEvent>) -> Seq<EventView> {
    evs.map_values(|e: MarkupEvent| e@)
}

/// Why the book could not be loaded.
#[derive(Debug)]
pub enum LoadError {
    /// The markup itself is broken; `position` is the reader's byte offset.
    Markup { position: usize, error: quick_xml::Error },
    /// A sura without a UTF-8 `name`, or an aya without a UTF-8 `text`.
    MissingAttribute,
}

/// Relies on `String::from_utf8`: the string that `bytes` encode, if they are UTF-8.
#[verifier::external_body]
fn utf8_string(bytes: &Vec<u8>) -> (r: Option<String>)
    ensures
        r is Some <==> valid_utf8(bytes@),
        r matches Some(s) ==> s@ == decode_utf8(bytes@),
{
    String::from_utf8(bytes.clone()).ok()
}

/// The events that quick_xml reads from the document `text`, up to its end;
/// `None` when it finds the markup broken. They depend on the text alone.
pub uninterp spec fn markup_events(text: Seq<char>) -> Option<Seq<EventView>>;

/// Relies on quick_xml's `Reader::read_event` (on a reader made by
/// `Reader::from_str`) and `BytesStart::attributes`: every event of `text` up
/// to the end, each start or empty tag with its name and its attributes' raw
/// keys and values; or the first error, with the reader's byte offset.
#[verifier::external_body]
fn read_events(text: &str) -> (r: Result<Vec<MarkupEvent>, (usize, quick_xml::Error)>)
    ensures
        match r {
            Ok(evs) => markup_events(text@) == Some(events_view(evs@)),
            Err(_) => markup_events(text@) is None,
        },
{
    let mut reader = Reader::from_str(text);
    let mut events = Vec::new();
    loop {
        let event = match reader.read_event() {
            Ok(Event::Eof) => return Ok(events),
            Ok(Event::Start(e) | Event::Empty(e)) => e.attributes()
                .map(|a| a.map(|a| MarkupAttribute { key: a.key.into_inner().to_vec(), value: a.value.into_owned() }))
                .collect::<Result<_, _>>()
                .map(|attributes| MarkupEvent::Element { name: e.name().into_inner().to_vec(), attributes })
                .map_err(Into::into),
            other => other.map(|_| MarkupEvent::Other),
        };
        events.push(event.map_err(|e| (reader.buffer_position(), e))?);
    }
}

/// The element name `sura`.
pub open spec fn sura_tag() -> Seq<u8> {
    seq![0x73, 0x75, 0x72, 0x61]
}

/// The element name `aya`.
pub open spec fn aya_tag() -> Seq<u8> {
    seq![0x61, 0x79, 0x61]
}

/// The attribute key `name`.
pub open spec fn name_key() -> Seq<u8> {
    seq![0x6e, 0x61, 0x6d, 0x65]
}

/// The attribute key `text`.
pub open spec fn text_key() -> Seq<u8> {
    seq![0x74, 0x65, 0x78, 0x74]
}

/// The attribute key `bismillah`.
pub open spec fn bismillah_key() -> Seq<u8> {
    seq![0x62, 0x69, 0x73, 0x6d, 0x69, 0x6c, 0x6c, 0x61, 0x68]
}

/// The decoded value of the first attribute keyed `key`; `None` when there is
/// none or its value is not UTF-8.
pub open spec fn attribute_text(attrs: Seq<AttributeView>, key: Seq<u8>) -> Option<Seq<char>>
    decreases attrs.len(),
{
    if attrs.len() == 0 {
        None
    } else if attrs[0].key == key {
        if valid_utf8(attrs[0].value) {
            Some(decode_utf8(attrs[0].value))
        } else {
            None
        }
    } else {
        attribute_text(attrs.drop_first(), key)
    }
}

/// The book after one more event; `None` when a required attribute is missing.
/// An aya before any sura belongs to no sura and is dropped.
pub open spec fn after_event(q: Seq<SuraView>, ev: EventView) -> Option<Seq<SuraView>> {
    match ev {
        EventView::Element { name, attributes } => {
            let attrs = attributes;
            if name == sura_tag() {
                match attribute_text(attrs, name_key()) {
                    Some(n) => Some(
                        q.push(SuraView { name: n, bismillah: None, aya: Seq::empty() }),
                    ),
                    None => None,
                }
            } else if name == aya_tag() {
                match attribute_text(attrs, text_key()) {
                    None => None,
                    Some(t) => if q.len() == 0 {
                        Some(q)
                    } else {
                        let last = q.last();
                        let b = match attribute_text(attrs, bismillah_key()) {
                            Some(b) => Some(b),
                            None => last.bismillah,
                        };
                        Some(
                            q.update(
                                q.len() - 1,
                                SuraView { name: last.name, bismillah: b, aya: last.aya.push(t) },
                            ),
                        )
                    },
                }
            } else {
                Some(q)
            }
        },
        _ => Some(q),
    }
}

/// The book built from `evs` in order, starting with no sura; `None` when an
/// event lacks a required attribute.
pub open spec fn built(evs: Seq<EventView>) -> Option<Seq<SuraView>>
    decreases evs.len(),
{
    if evs.len() == 0 {
        Some(Seq::empty())
    } else {
        match built(evs.drop_last()) {
            Some(q) => after_event(q, evs.last()),
            None => None,
        }
    }
}

/// Whether `ev` is a `sura` or an `aya` element, the only events that shape the book.
pub open spec fn shapes_book(ev: EventView) -> bool {
    match ev {
        EventView::Element { name, .. } => name == sura_tag() || name == aya_tag(),
        EventView::Other => false,
    }
}

/// Elements other than `sura` and `aya`, and all text, end tags and the like,
/// leave the book as it is: the events that shape it build the same book.
pub proof fn law_other_events_change_nothing(evs: Seq<EventView>)
    ensures
        built(evs.filter(|e: EventView| shapes_book(e))) == built(evs),
    decreases evs.len(),
{
    reveal(Seq::filter);
    if evs.len() > 0 {
        let p = evs.drop_last();
        law_other_events_change_nothing(p);
        let f = evs.filter(|e: EventView| shapes_book(e));
        let fp = p.filter(|e: EventView| shapes_book(e));
        if shapes_book(evs.last()) {
            assert(f == fp.push(evs.last()));
            assert(f.drop_last() =~= fp);
        } else {
            assert(f == fp);
        }
    }
}

/// Whether `a` and `b` hold the same bytes.
fn same_bytes(a: &Vec<u8>, b: &Vec<u8>) -> (r: bool)
    ensures
        r == (a@ == b@),
{
    if a.len() != b.len() {
        return false;
    }
    let mut i: usize = 0;
    while i < a.len()
        invariant
            a@.len() == b@.len(),
            i <= a@.len(),
            forall|k: int| 0 <= k < i ==> a@[k] == b@[k],
        decreases a@.len() - i,
    {
        if a[i] != b[i] {
            return false;
        }
        i = i + 1;
    }
    assert(a@ =~= b@);
    true
}

/// The views of `attrs`, in order.
pub open spec fn attributes_view(attrs: Seq<MarkupAttribute>) -> Seq<AttributeView> {
    attrs.map_values(|a: MarkupAttribute| a@)
}

/// The decoded value of the first attribute in `attrs` keyed `key`.
fn find_attribute(attrs: &Vec<MarkupAttribute>, key: &Vec<u8>) -> (r: Option<String>)
    ensures
        match r {
            Some(s) => attribute_text(attributes_view(attrs@), key@) == Some(s@),
            None => attribute_text(attributes_view(attrs@), key@) is None,
        },
{
    let ghost all = attributes_view(attrs@);
    let mut i: usize = 0;
    assert(all.subrange(0, all.len() as int) =~= all);
    while i < attrs.len()
        invariant
            all == attributes_view(attrs@),
            i <= attrs@.len(),
            attribute_text(all, key@) == attribute_text(all.subrange(i as int, all.len() as int), key@),
        decreases attrs@.len() - i,
    {
        let ghost rest = all.subrange(i as int, all.len() as int);
        assert(rest.drop_first() =~= all.subrange(i + 1, all.len() as int));
        assert(rest[0] == attrs@[i as int]@);
        if same_bytes(&attrs[i].key, key) {
            return utf8_string(&attrs[i].value);
        }
        i = i + 1;
    }
    assert(all.subrange(i as int, all.len() as int).len() == 0);
    None
}

/// A book that fails on some events still fails after more of them.
pub proof fn lemma_built_stays_failed(evs: Seq<EventView>, n: int)
    requires
        0 <= n <= evs.len(),
        built(evs.take(n)) is None,
    ensures
        built(evs) is None,
    decreases evs.len() - n,
{
    if n < evs.len() {
        assert(evs.take(n + 1).drop_last() =~= evs.take(n));
        lemma_built_stays_failed(evs, n + 1);
    } else {
        assert(evs.take(n) =~= evs);
    }
}

impl Quran {
    /// A book with no sura yet.
    pub fn new() -> (r: Quran)
        ensures
            r@ == Seq::<SuraView>::empty(),
    {
        let r = Quran { sura: Vec::new() };
        assert(r@ =~= Seq::<SuraView>::empty());
        r
    }

    /// Whether `ev` carries what it needs to be taken into the book: its
    /// `name` for a `sura` element, its `text` for an `aya` element, each
    /// present and UTF-8.
    pub fn event_is_complete(&self, ev: &MarkupEvent) -> (r: bool)
        ensures
            r == (after_event(self@, ev@) is Some),
    {
        match ev {
            MarkupEvent::Element { name, attributes } => {
                if same_bytes(name, &vec![0x73u8, 0x75, 0x72, 0x61]) { // "sura"
                    find_attribute(attributes, &vec![0x6eu8, 0x61, 0x6d, 0x65]).is_some() // "name"
                } else if same_bytes(name, &vec![0x61u8, 0x79, 0x61]) { // "aya"
                    find_attribute(attributes, &vec![0x74u8, 0x65, 0x78, 0x74]).is_some() // "text"
                } else {
                    true
                }
            },
            MarkupEvent::Other => true,
        }
    }

    /// Takes one complete event of the markup into the book: a `sura` element
    /// opens a new sura, an `aya` element adds its text to the last sura and,
    /// when it carries one, sets that sura's bismillah.
    pub fn apply_event(&mut self, ev: &MarkupEvent)
        requires
            after_event(old(self)@, ev@) is Some,
        ensures
            Some(final(self)@) == after_event(old(self)@, ev@),
    {
        match ev {
            MarkupEvent::Element { name, attributes } => {
                if same_bytes(name, &vec![0x73u8, 0x75, 0x72, 0x61]) { // "sura"
                    let found = find_attribute(attributes, &vec![0x6eu8, 0x61, 0x6d, 0x65]); // "name"
                    match found {
                        Some(n) => {
                            let ghost before = self@;
                            let s = Sura { name: n, bismillah: None, aya: Vec::new() };
                            self.sura.push(s);
                            assert(s@.aya =~= Seq::<Seq<char>>::empty());
                            assert(self@ =~= before.push(s@));
                        },
                        None => {
                            assert(false);
                        },
                    }
                } else if same_bytes(name, &vec![0x61u8, 0x79, 0x61]) { // "aya"
                    let found = find_attribute(attributes, &vec![0x74u8, 0x65, 0x78, 0x74]); // "text"
                    match found {
                        None => {
                            assert(false);
                        },
                        Some(t) => {
                            let b = find_attribute(
                                attributes,
                                // "bismillah"
                                &vec![0x62u8, 0x69, 0x73, 0x6d, 0x69, 0x6c, 0x6c, 0x61, 0x68],
                            );
                            let ghost before = self@;
                            match self.sura.pop() {
                                None => {},
                                Some(mut last) => {
                                    assert(last@ == before.last());
                                    if b.is_some() {
                                        last.bismillah = b;
                                    }
                                    let ghost old_aya = last.aya@;
                                    last.aya.push(t);
                                    assert(last@.aya =~= before.last().aya.push(t@)) by {
                                        assert(last.aya@ == old_aya.push(t));
                                    }
                                    self.sura.push(last);
                                    assert(self@ =~= before.update(
                                        before.len() - 1,
                                        SuraView {
                                            name: before.last().name,
                                            bismillah: last@.bismillah,
                                            aya: before.last().aya.push(t@),
                                        },
                                    ));
                                },
                            }
                        },
                    }
                }
            },
            _ => {},
        }
    }

    /// Reads the book from its markup `text` in one forward pass over its
    /// events. Broken markup fails with the reader's error; a `sura` without
    /// `name` or an `aya` without `text` fails too; otherwise the book is the
    /// one that the document's events build in order.
    pub fn load(text: &str) -> (r: Result<Quran, LoadError>)
        ensures
            match markup_events(text@) {
                None => r matches Err(LoadError::Markup { .. }),
                Some(evs) => match built(evs) {
                    Some(b) => r matches Ok(q) && q@ == b,
                    None => r matches Err(LoadError::MissingAttribute),
                },
            },
    {
        let events = match read_events(text) {
            Ok(events) => events,
            Err((position, error)) => {
                return Err(LoadError::Markup { position, error });
            },
        };
        let ghost evs = events_view(events@);
        let mut q = Quran::new();
        let mut i: usize = 0;
        assert(evs.take(0) =~= Seq::<EventView>::empty());
        while i < events.len()
            invariant
                evs == events_view(events@),
                markup_events(text@) == Some(evs),
                i <= events@.len(),
                built(evs.take(i as int)) == Some(q@),
            decreases events@.len() - i,
        {
            assert(evs.take(i + 1).drop_last() =~= evs.take(i as int));
            assert(evs.take(i + 1).last() == events@[i as int]@);
            if !q.event_is_complete(&events[i]) {
                proof {
                    assert(after_event(q@, evs.take(i + 1).last()) is None);
                    assert(built(evs.take(i + 1)) is None);
                    lemma_built_stays_failed(evs, i + 1);
                }
                return Err(LoadError::MissingAttribute);
            }
            q.apply_event(&events[i]);
            i = i + 1;
        }
        assert(evs.take(i as int) =~= evs);
        Ok(q)
    }
}

} // verus!
