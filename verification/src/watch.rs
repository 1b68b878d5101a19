//! WATCH: announcing new images to subscribers.

use crate::bytes::{append_bytes, skip_front, starts_with_magic, u64_bytes};
use crate::catalog::{
    fresh_ids, is_keyed, is_listing, law_fresh_ids, ImageCatalog, ImageModel,
};
use crate::compression::decisive;
use crate::error::ProtocolError;
use crate::flags::{extension_or, file_type_from_flags, image_flags_check, type_extension};
use crate::frames::{
    counted_at_front, entry_at_front, entry_bytes, law_entry_round_trip, law_entry_settled,
    law_magic_headers, magic_check, read_counted, read_entry, write_entry, RESPONSE_CANCEL, RESPONSE_ERROR,
    RESPONSE_WATCH,
};
use crate::image_id::{hex_text, image_id_text, ImageId};
use crate::listing::{
    law_listed_size_is_packet_length, listed_size, sizing_of, wire_name, wire_size, Sizing,
};
use crate::packet::{framed_length, header_at_front, image_packet};
use crate::text::{
    chars_of, decimal_text, file_name, from_utf8_lossy, name_of, nfc, nfc_form, text_in, text_of,
    to_decimal,
};
use std::collections::HashMap;
use vstd::prelude::*;
use vstd::utf8::{encode_utf8, encode_utf8_decode_utf8, encode_utf8_valid_utf8};

verus! {

broadcast use vstd::std_specs::hash::group_hash_axioms;

/// Announces a new image to subscribers.
#[derive(Debug, Clone)]
pub struct WatchEvent {
    pub id: ImageId,
    pub flags: u8,
    /// The name of the image's file, in NFC.
    pub filename: String,
    /// Bytes of image data.
    pub size: u32,
}

/// A `WatchEvent` as a mathematical value.
#[verifier::ext_equal]
pub struct EventModel {
    pub id: ImageId,
    pub flags: u8,
    pub filename: Seq<char>,
    pub size: u32,
}

impl View for WatchEvent {
    type V = EventModel;

    open spec fn view(&self) -> EventModel {
        EventModel {
            id: self.id,
            flags: self.flags,
            filename: self.filename@,
            size: self.size,
        }
    }
}

/// A WATCH event on the wire; its file name is brought to NFC.
pub open spec fn event_bytes(event: EventModel) -> Seq<u8> {
    RESPONSE_WATCH@ + entry_bytes(event.id, event.flags, nfc_form(event.filename), event.size)
}

/// Appends a WATCH event.
pub fn send_watch_event(out: &mut Vec<u8>, event: &WatchEvent)
    ensures
        final(out)@ == old(out)@ + event_bytes(event@),
        nfc_form(nfc_form(event.filename@)) == nfc_form(event.filename@),
{
    append_bytes(out, &RESPONSE_WATCH);
    write_entry(out, event.id, event.flags, &event.filename, event.size);
    proof {
        assert(out@ =~= old(out)@ + event_bytes(event@));
    }
}

/// What a subscriber receives.
pub enum WatchFrame {
    /// A new image.
    Event(WatchEvent),
    /// The server gives up, with an error code and a message.
    Failed { code: u8, message: String },
}

/// What a subscriber receives, as a mathematical value.
#[verifier::ext_equal]
pub enum FrameModel {
    Event(EventModel),
    Failed { code: u8, message: Seq<char> },
}

impl View for WatchFrame {
    type V = FrameModel;

    open spec fn view(&self) -> FrameModel {
        match *self {
            WatchFrame::Event(event) => FrameModel::Event(event@),
            WatchFrame::Failed { code, message } => FrameModel::Failed { code, message: message@ },
        }
    }
}

/// The frame at the start of what a subscriber receives, and the number of
/// bytes it takes.
pub open spec fn watch_frame_at_front(s: Seq<u8>) -> Result<(FrameModel, nat), ProtocolError> {
    if s.len() < 4 {
        Err(ProtocolError::UnexpectedEof)
    } else if s.take(4) == RESPONSE_WATCH@ {
        match entry_at_front(s.skip(4)) {
            Err(e) => Err(e),
            Ok((raw, n)) => {
                let filename = nfc_form(text_in(raw.name));
                let event = EventModel { id: raw.id, flags: raw.flags, filename, size: raw.size };
                Ok((FrameModel::Event(event), 4 + n))
            },
        }
    } else if s.take(4) == RESPONSE_ERROR@ {
        if s.len() < 5 {
            Err(ProtocolError::UnexpectedEof)
        } else {
            match counted_at_front(s.skip(5)) {
                Err(e) => Err(e),
                Ok(message) => Ok(
                    (
                        FrameModel::Failed { code: s[4], message: text_in(message) },
                        7 + message.len(),
                    ),
                ),
            }
        }
    } else {
        Err(ProtocolError::UnexpectedHeader)
    }
}

/// Reads the frame at the start of what a subscriber receives; with it comes
/// the number of bytes it takes.
pub fn read_watch_frame(input: &[u8]) -> (r: Result<(WatchFrame, usize), ProtocolError>)
    ensures
        match watch_frame_at_front(input@) {
            Ok((f, n)) => r matches Ok((rf, rn)) && rf@ == f && rn == n,
            Err(e) => r == Err::<(WatchFrame, usize), ProtocolError>(e),
        },
{
    let total: usize = input.len();
    if total < 4 {
        return Err(ProtocolError::UnexpectedEof);
    }
    if starts_with_magic(input, RESPONSE_WATCH) {
        match read_entry(skip_front(input, 4)) {
            Ok((raw, n)) => {
                let filename = nfc(&from_utf8_lossy(&raw.name));
                let event = WatchEvent { id: raw.id, flags: raw.flags, filename, size: raw.size };
                Ok((WatchFrame::Event(event), 4 + n))
            },
            Err(e) => Err(e),
        }
    } else if starts_with_magic(input, RESPONSE_ERROR) {
        if total < 5 {
            return Err(ProtocolError::UnexpectedEof);
        }
        match read_counted(skip_front(input, 5)) {
            Ok(message) => Ok(
                (
                    WatchFrame::Failed { code: input[4], message: from_utf8_lossy(&message) },
                    7 + message.len(),
                ),
            ),
            Err(e) => Err(e),
        }
    } else {
        Err(ProtocolError::UnexpectedHeader)
    }
}

/// A subscriber receives an event as it was sent, its name in NFC.
pub proof fn law_watch_event_round_trip(event: EventModel, rest: Seq<u8>)
    requires
        image_flags_check(event.flags) is Ok,
        nfc_form(nfc_form(event.filename)) == nfc_form(event.filename),
        encode_utf8(nfc_form(event.filename)).len() <= u16::MAX,
    ensures
        watch_frame_at_front(event_bytes(event) + rest) == Ok::<(FrameModel, nat), ProtocolError>(
            (FrameModel::Event(received_event(event)), event_bytes(event).len()),
        ),
{
    let name = nfc_form(event.filename);
    let body = entry_bytes(event.id, event.flags, name, event.size);
    let s = event_bytes(event) + rest;
    assert(s.take(4) =~= RESPONSE_WATCH@);
    assert(s.skip(4) =~= body + rest);
    law_entry_round_trip(event.id, event.flags, name, event.size, rest);
    encode_utf8_decode_utf8(name);
    encode_utf8_valid_utf8(name);
}

/// WATCH events on the wire, one after the other.
pub open spec fn events_bytes(events: Seq<EventModel>) -> Seq<u8>
    decreases events.len(),
{
    if events.len() == 0 {
        Seq::empty()
    } else {
        event_bytes(events[0]) + events_bytes(events.skip(1))
    }
}

/// An event as a subscriber receives it: its name in NFC.
pub open spec fn received_event(event: EventModel) -> EventModel {
    EventModel {
        id: event.id,
        flags: event.flags,
        filename: nfc_form(event.filename),
        size: event.size,
    }
}

proof fn lemma_events_split(events: Seq<EventModel>, i: int)
    requires
        0 <= i <= events.len(),
    ensures
        events_bytes(events) == events_bytes(events.take(i)) + events_bytes(events.skip(i)),
    decreases i,
{
    if i == 0 {
        assert(events.take(0) =~= Seq::<EventModel>::empty());
        assert(events.skip(0) =~= events);
        assert(Seq::<u8>::empty() + events_bytes(events) =~= events_bytes(events));
    } else {
        let later = events.skip(1);
        lemma_events_split(later, i - 1);
        assert(events.take(i).skip(1) =~= later.take(i - 1));
        assert(later.skip(i - 1) =~= events.skip(i));
        let a = event_bytes(events[0]);
        let b = events_bytes(later.take(i - 1));
        let c = events_bytes(events.skip(i));
        assert(events.take(i)[0] == events[0]);
        assert(a + (b + c) =~= (a + b) + c);
    }
}

/// A subscriber that reads one frame after the other gets the events in the
/// order in which they were sent, each once, and then the acknowledgement of
/// its CANCEL.
pub proof fn law_subscription_is_read(events: Seq<EventModel>, i: int, rest: Seq<u8>)
    requires
        0 <= i <= events.len(),
        i < events.len() ==> {
            &&& image_flags_check(events[i].flags) is Ok
            &&& nfc_form(nfc_form(events[i].filename)) == nfc_form(events[i].filename)
            &&& encode_utf8(nfc_form(events[i].filename)).len() <= u16::MAX
        },
    ensures
        ({
            let stream = events_bytes(events) + RESPONSE_CANCEL@ + rest;
            let read_before = events_bytes(events.take(i)).len() as int;
            let left = stream.skip(read_before);
            if i < events.len() {
                watch_frame_at_front(left) == Ok::<(FrameModel, nat), ProtocolError>(
                    (
                        FrameModel::Event(received_event(events[i])),
                        event_bytes(events[i]).len(),
                    ),
                )
            } else {
                magic_check(left, RESPONSE_CANCEL) is Ok
            }
        }),
{
    let stream = events_bytes(events) + RESPONSE_CANCEL@ + rest;
    let before = events_bytes(events.take(i));
    let left = stream.skip(before.len() as int);
    lemma_events_split(events, i);
    if i < events.len() {
        let later = events_bytes(events.skip(i).skip(1));
        assert(events.skip(i)[0] == events[i]);
        assert(left =~= event_bytes(events[i]) + (later + RESPONSE_CANCEL@ + rest));
        law_watch_event_round_trip(events[i], later + RESPONSE_CANCEL@ + rest);
    } else {
        assert(events.take(i) =~= events);
        assert(left =~= RESPONSE_CANCEL@ + rest);
        assert(left.take(4) =~= RESPONSE_CANCEL@);
    }
}

/// What a subscriber's frame reads as is settled once it is complete: bytes
/// that follow it change nothing.
pub proof fn law_watch_frame_settled(s: Seq<u8>, more: Seq<u8>)
    requires
        watch_frame_at_front(s) != Err::<(FrameModel, nat), ProtocolError>(
            ProtocolError::UnexpectedEof,
        ),
    ensures
        watch_frame_at_front(s + more) == watch_frame_at_front(s),
{
    let t = s + more;
    assert(t.take(4) =~= s.take(4));
    if s.take(4) == RESPONSE_WATCH@ {
        assert(t.skip(4) =~= s.skip(4) + more);
        law_entry_settled(s.skip(4), more);
    } else if s.take(4) == RESPONSE_ERROR@ {
        let a = s.skip(5);
        assert(t.skip(5) =~= a + more);
        assert((a + more).take(2) =~= a.take(2));
        let m = counted_at_front(a)->Ok_0;
        assert((a + more).subrange(2, 2 + m.len() as int) =~= a.subrange(2, 2 + m.len() as int));
    }
}

/// The line that a client prints for a new image.
pub open spec fn event_text(event: EventModel) -> Seq<char> {
    "NEW  id="@ + hex_text(u64_bytes(event.id)) + " type="@ + (match type_extension(
        event.flags % 8,
    ) {
        Some(ext) => ext,
        None => "unknown"@,
    }) + " size="@ + decimal_text(event.size as nat) + " name="@ + event.filename
}

/// Computes `event_text`.
pub fn event_line(event: &WatchEvent) -> (line: String)
    ensures
        line@ == event_text(event@),
{
    let mut line: String = "NEW  id=".to_owned();
    line.append(&image_id_text(event.id));
    line.append(" type=");
    line.append(extension_or(file_type_from_flags(event.flags), "unknown"));
    line.append(" size=");
    line.append(&to_decimal(event.size as u64));
    line.append(" name=");
    line.append(&event.filename);
    line
}

/// The event that announces an image. The size of an image that is not held
/// in memory is the length of its file, or 0 if that is not known.
pub open spec fn event_for(
    images: Map<ImageId, ImageModel>,
    sizing: Sizing,
    id: ImageId,
) -> EventModel {
    EventModel {
        id,
        flags: images[id].flags,
        filename: wire_name(images, id),
        size: wire_size(images, sizing, id).unwrap_or(0),
    }
}

/// The models of these events.
pub open spec fn event_models(events: Seq<WatchEvent>) -> Seq<EventModel> {
    events.map_values(|e: WatchEvent| e@)
}

fn announce<F: Fn(usize, usize) -> bool>(
    catalog: &ImageCatalog,
    file_sizes: &HashMap<ImageId, u64>,
    worth_it: &F,
    id: ImageId,
) -> (event: WatchEvent)
    requires
        decisive(*worth_it),
        catalog.model().dom().contains(id),
    ensures
        event@ == event_for(catalog.model(), sizing_of(file_sizes@, *worth_it), id),
{
    let size: u32 = match listed_size(catalog, file_sizes, worth_it, id) {
        Some(size) => size,
        None => 0,
    };
    let (flags, filename) = match catalog.get_metadata(&id) {
        Some(meta) => {
            let path = chars_of(&meta.file_name);
            (meta.flags, nfc(&text_of(file_name(&path))))
        },
        None => (0, String::new()),
    };
    WatchEvent { id, flags, filename, size }
}

/// One round of watching a directory: takes over the images of `rescanned`
/// that are new, and returns the events that announce them, in the order of
/// their names. `file_sizes` gives the file lengths of images that are not
/// held in memory, and `worth_it` judges compression as it does when the
/// images are sent.
pub fn catalog_watch_step<F: Fn(usize, usize) -> bool>(
    catalog: &mut ImageCatalog,
    rescanned: ImageCatalog,
    file_sizes: &HashMap<ImageId, u64>,
    worth_it: &F,
) -> (events: Vec<WatchEvent>)
    requires
        decisive(*worth_it),
        is_keyed(old(catalog).model()),
        rescanned.wf(),
    ensures
        final(catalog).wf(),
        final(catalog).model() == rescanned.model().union_prefer_right(old(catalog).model()),
        event_models(events@) == announced(
            old(catalog).model(),
            rescanned.model(),
            rescanned.order(),
            sizing_of(file_sizes@, *worth_it),
        ),
{
    let ghost had = catalog.model();
    let ghost found = rescanned.model();
    let ghost order = rescanned.order();
    let ghost sizing = sizing_of(file_sizes@, *worth_it);
    let fresh = catalog.add_new_images(rescanned);
    let mut events: Vec<WatchEvent> = Vec::new();
    proof {
        law_fresh_ids(had, order);
    }
    let mut i: usize = 0;
    while i < fresh.len()
        invariant
            i <= fresh@.len(),
            fresh@ == fresh_ids(had, order),
            catalog.wf(),
            decisive(*worth_it),
            sizing == sizing_of(file_sizes@, *worth_it),
            catalog.model() == found.union_prefer_right(had),
            forall|id: ImageId| order.contains(id) <==> found.dom().contains(id),
            forall|id: ImageId|
                fresh@.contains(id) <==> order.contains(id) && !had.dom().contains(id),
            events@.len() == i,
            forall|k: int|
                0 <= k < i ==> (#[trigger] events@[k])@ == event_for(found, sizing, fresh@[k]),
        decreases fresh@.len() - i,
    {
        let id: u64 = fresh[i];
        proof {
            assert(fresh@.contains(id));
            assert(order.contains(id));
            assert(catalog.model()[id] == found[id]);
        }
        events.push(announce(catalog, file_sizes, worth_it, id));
        i = i + 1;
    }
    proof {
        assert(event_models(events@) =~= announced(had, found, order, sizing));
    }
    events
}

/// The events for the images of `found`, listed by `order`, that are not
/// among `had`.
pub open spec fn announced(
    had: Map<ImageId, ImageModel>,
    found: Map<ImageId, ImageModel>,
    order: Seq<ImageId>,
    sizing: Sizing,
) -> Seq<EventModel> {
    fresh_ids(had, order).map_values(|id: ImageId| event_for(found, sizing, id))
}

/// Exactly the images that a rescan finds and that were not there are
/// announced, each once. A second rescan with the same images announces
/// nothing.
pub proof fn law_new_images_announced_once(
    had: Map<ImageId, ImageModel>,
    found: Map<ImageId, ImageModel>,
    order: Seq<ImageId>,
    sizing: Sizing,
)
    requires
        is_listing(found, order),
    ensures
        forall|i: int|
            0 <= i < announced(had, found, order, sizing).len() ==> {
                let id = (#[trigger] announced(had, found, order, sizing)[i]).id;
                found.dom().contains(id) && !had.dom().contains(id)
            },
        forall|id: ImageId|
            found.dom().contains(id) && !had.dom().contains(id) ==> #[trigger] announced(
                had,
                found,
                order,
                sizing,
            ).contains(event_for(found, sizing, id)),
        forall|i: int, j: int|
            0 <= i < j < announced(had, found, order, sizing).len() ==> (#[trigger] announced(
                had,
                found,
                order,
                sizing,
            )[i]).id != (#[trigger] announced(had, found, order, sizing)[j]).id,
        announced(found.union_prefer_right(had), found, order, sizing).len() == 0,
{
    let fresh = fresh_ids(had, order);
    let events = announced(had, found, order, sizing);
    law_fresh_ids(had, order);
    assert forall|i: int| 0 <= i < events.len() implies {
        let id = (#[trigger] events[i]).id;
        found.dom().contains(id) && !had.dom().contains(id)
    } by {
        assert(events[i].id == fresh[i]);
        assert(fresh.contains(fresh[i]));
        assert(order.contains(fresh[i]));
    }
    assert forall|id: ImageId|
        found.dom().contains(id) && !had.dom().contains(id) implies #[trigger] events.contains(
        event_for(found, sizing, id),
    ) by {
        assert(order.contains(id));
        assert(fresh.contains(id));
        let k = choose|k: int| 0 <= k < fresh.len() && fresh[k] == id;
        assert(events[k] == event_for(found, sizing, id));
    }
    assert forall|i: int, j: int| 0 <= i < j < events.len() implies (#[trigger] events[i]).id
        != (#[trigger] events[j]).id by {
        assert(events[i].id == fresh[i] && events[j].id == fresh[j]);
    }
    let all = found.union_prefer_right(had);
    law_fresh_ids(all, order);
    let again = fresh_ids(all, order);
    if again.len() > 0 {
        assert(again.contains(again[0]));
        assert(order.contains(again[0]));
    }
}

/// What an event says of a new image is what the image is and what LIST says of
/// it: its ImageID and flags, the NFC form of its file's name, and its size,
/// or 0 if that is not known.
pub proof fn law_event_says_what_list_says(
    images: Map<ImageId, ImageModel>,
    sizing: Sizing,
    id: ImageId,
)
    ensures
        ({
            let event = event_for(images, sizing, id);
            &&& event.id == id
            &&& event.flags == images[id].flags
            &&& event.filename == nfc_form(name_of(images[id].file_name))
            &&& wire_size(images, sizing, id) matches Some(size) ==> event.size == size
            &&& wire_size(images, sizing, id) is None ==> event.size == 0
        }),
{
}

/// What an event says of a new image is what the image is and what LIST says of
/// it: its ImageID and flags, the NFC form of its file's name, and, if it is
/// known, the length that the packet has in which the image is sent.
pub proof fn law_event_describes_the_image(
    images: Map<ImageId, ImageModel>,
    sizing: Sizing,
    id: ImageId,
    rest: Seq<u8>,
)
    requires
        image_flags_check(images[id].flags) is Ok,
    ensures
        ({
            let event = event_for(images, sizing, id);
            &&& event.id == id
            &&& event.flags == images[id].flags
            &&& event.filename == nfc_form(name_of(images[id].file_name))
            &&& wire_size(images, sizing, id) matches Some(size) ==> event.size == size
            &&& images[id].cached_data matches Some(data) ==> (header_at_front(
                image_packet(images[id].flags, id, data, sizing.keep) + rest,
            ) matches Ok((h, _)) && event.size == h.length)
            &&& images[id].cached_data is None ==> event.size == if sizing.file_sizes.dom().contains(
                id,
            ) {
                framed_length(sizing.file_sizes[id] as int)
            } else {
                0
            }
        }),
{
    law_listed_size_is_packet_length(images, sizing, id, rest);
}

/// The events of a rescan are those of the new images, in the order in which
/// the rescan lists them.
pub proof fn law_announced_in_order(
    had: Map<ImageId, ImageModel>,
    found: Map<ImageId, ImageModel>,
    order: Seq<ImageId>,
    sizing: Sizing,
)
    ensures
        announced(had, found, order, sizing).len() == fresh_ids(had, order).len(),
        forall|i: int|
            0 <= i < fresh_ids(had, order).len() ==> #[trigger] announced(
                had,
                found,
                order,
                sizing,
            )[i] == event_for(found, sizing, fresh_ids(had, order)[i]),
{
}

/// A WATCH event is laid out as its header and the description of the image.
/// A subscriber's frame is such a description or an error, with any error
/// code; frames with other headers are refused.
pub proof fn law_watch_layout(event: EventModel, s: Seq<u8>)
    ensures
        event_bytes(event) == seq![0x4Au8, 0x54, 0x50, 0x57] + entry_bytes(
            event.id,
            event.flags,
            nfc_form(event.filename),
            event.size,
        ),
        s.len() < 4 ==> watch_frame_at_front(s) == Err::<(FrameModel, nat), ProtocolError>(
            ProtocolError::UnexpectedEof,
        ),
        s.len() >= 4 && s.take(4) == seq![0x4Au8, 0x54, 0x50, 0x57] ==> match entry_at_front(
            s.skip(4),
        ) {
            Err(e) => watch_frame_at_front(s) == Err::<(FrameModel, nat), ProtocolError>(e),
            Ok((raw, n)) => watch_frame_at_front(s) matches Ok((FrameModel::Event(got), m)) && m == 4
                + n && got.id == raw.id && got.flags == raw.flags && got.size == raw.size
                && got.filename == nfc_form(text_in(raw.name)),
        },
        s.len() >= 4 && s.take(4) == seq![0x4Au8, 0x54, 0x50, 0x45] ==> if s.len() < 5 {
            watch_frame_at_front(s) == Err::<(FrameModel, nat), ProtocolError>(
                ProtocolError::UnexpectedEof,
            )
        } else {
            match counted_at_front(s.skip(5)) {
                Err(e) => watch_frame_at_front(s) == Err::<(FrameModel, nat), ProtocolError>(e),
                Ok(b) => watch_frame_at_front(s) matches Ok((FrameModel::Failed { code, message }, m))
                    && m == 7 + b.len() && code == s[4] && message == text_in(b),
            }
        },
        s.len() >= 4 && s.take(4) != seq![0x4Au8, 0x54, 0x50, 0x57] && s.take(4) != seq![
            0x4Au8,
            0x54,
            0x50,
            0x45,
        ] ==> watch_frame_at_front(s) == Err::<(FrameModel, nat), ProtocolError>(
            ProtocolError::UnexpectedHeader,
        ),
{
    law_magic_headers();
    assert(RESPONSE_WATCH@[3] != RESPONSE_ERROR@[3]);
}

/// The line for a new image: its ImageID in hexadecimal, the extension of its
/// type or `unknown`, its size in decimal, and its name.
pub proof fn law_event_line(event: EventModel)
    ensures
        ({
            let kind = match type_extension(event.flags % 8) {
                Some(ext) => ext,
                None => seq!['u', 'n', 'k', 'n', 'o', 'w', 'n'],
            };
            event_text(event) == seq!['N', 'E', 'W', ' ', ' ', 'i', 'd', '='] + hex_text(
                u64_bytes(event.id),
            ) + seq![' ', 't', 'y', 'p', 'e', '='] + kind + seq![' ', 's', 'i', 'z', 'e', '=']
                + decimal_text(event.size as nat) + seq![' ', 'n', 'a', 'm', 'e', '=']
                + event.filename
        }),
{
    reveal_strlit("NEW  id=");
    reveal_strlit(" type=");
    reveal_strlit("unknown");
    reveal_strlit(" size=");
    reveal_strlit(" name=");
    assert("NEW  id="@ =~= seq!['N', 'E', 'W', ' ', ' ', 'i', 'd', '=']);
    assert(" type="@ =~= seq![' ', 't', 'y', 'p', 'e', '=']);
    assert("unknown"@ =~= seq!['u', 'n', 'k', 'n', 'o', 'w', 'n']);
    assert(" size="@ =~= seq![' ', 's', 'i', 'z', 'e', '=']);
    assert(" name="@ =~= seq![' ', 'n', 'a', 'm', 'e', '=']);
}

/// The models of events and frames say all that they hold, and the models of
/// several events are those of each of them, in their order.
pub proof fn law_watch_models(event: WatchEvent, events: Seq<WatchEvent>, frame: WatchFrame)
    ensures
        event@.id == event.id,
        event@.flags == event.flags,
        event@.filename == event.filename@,
        event@.size == event.size,
        event_models(events).len() == events.len(),
        forall|i: int| 0 <= i < events.len() ==> #[trigger] event_models(events)[i] == events[i]@,
        frame matches WatchFrame::Event(e) ==> frame@ == FrameModel::Event(e@),
        frame matches WatchFrame::Failed { code, message } ==> frame@ == (FrameModel::Failed {
            code,
            message: message@,
        }),
{
}

} // verus!
