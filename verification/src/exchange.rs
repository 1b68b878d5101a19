//! What holds of whole exchanges between a client and a server.

use crate::catalog::{image_in, FileModel, ImageModel};
use crate::compression::zstd_content;
use crate::error::ProtocolError;
use crate::flags::{image_flags_check, FLAG_COMPRESSED};
use crate::image_id::ImageId;
use crate::listing::{
    countable, filtered, law_buffered_matches_unbuffered, law_filter_keeps,
    law_list_round_trip, law_listed_image_arrives, list_at_front, listable, listed_as,
    names_normal, sent_entry, wire_name, wire_size, ListedImage, ListedModel, Sizing,
};
use crate::packet::{
    law_compressed_image_arrives, law_packet_round_trip, law_plain_image_arrives, packet_at_front,
    packet_bytes, received, ImageHeader, ReceivedImage,
};
use crate::request::{keep_alive_flags, REQUEST_LIST};
use crate::server::{law_list_sends_catalog, reaction, Session};
use crate::text::trimmed;
use vstd::prelude::*;

verus! {

/// A file of an image directory arrives at the client as it is on the server,
/// and is accepted there, if it is no longer than a packet can be.
pub proof fn law_file_arrives(
    file: FileModel,
    filter: Option<Seq<char>>,
    rest: Seq<u8>,
    listed: Map<ImageId, ListedImage>,
    r: Result<(ReceivedImage, usize), ProtocolError>,
)
    requires
        image_in(file, filter) is Some,
        file.content->0.len() <= u32::MAX,
        received(
            packet_bytes(
                image_in(file, filter)->0.flags,
                image_in(file, filter)->0.id,
                file.content->0,
            ) + rest,
            listed,
            r,
        ),
    ensures
        r matches Ok((image, _)) && image.data@ == file.content->0,
{
    let image = image_in(file, filter)->0;
    law_plain_image_arrives(image.flags, file.content->0, rest, listed, r);
}

/// A file of an image directory that is sent compressed arrives at the client
/// as it is on the server, and is accepted there.
pub proof fn law_compressed_file_arrives(
    file: FileModel,
    filter: Option<Seq<char>>,
    frame: Seq<u8>,
    rest: Seq<u8>,
    listed: Map<ImageId, ListedImage>,
    r: Result<(ReceivedImage, usize), ProtocolError>,
)
    requires
        image_in(file, filter) is Some,
        zstd_content(frame) == file.content,
        frame.len() <= u32::MAX,
        received(
            packet_bytes(
                image_in(file, filter)->0.flags | FLAG_COMPRESSED,
                image_in(file, filter)->0.id,
                frame,
            ) + rest,
            listed,
            r,
        ),
    ensures
        r matches Ok((image, _)) && image.data@ == file.content->0,
{
    let image = image_in(file, filter)->0;
    law_compressed_image_arrives(image.flags, file.content->0, frame, rest, listed, r);
}

/// What a client sees of an image in the catalog.
pub open spec fn seen_as(
    images: Map<ImageId, ImageModel>,
    sizing: Sizing,
    id: ImageId,
) -> ListedModel {
    ListedModel {
        id,
        flags: images[id].flags,
        filename: trimmed(wire_name(images, id)),
        size: wire_size(images, sizing, id).unwrap_or(0),
    }
}

/// A client that sends a LIST request, and reads the answer without a filter,
/// sees every image of the server once, in the server's order.
pub proof fn law_client_sees_the_catalog(
    session: Session,
    keep_alive: bool,
    images: Map<ImageId, ImageModel>,
    order: Seq<ImageId>,
    sizing: Sizing,
    watch_enabled: bool,
)
    requires
        session != Session::Watching,
        listable(images, order),
        names_normal(images, order),
        forall|i: int|
            0 <= i < order.len() ==> wire_size(images, sizing, #[trigger] order[i]) is Some,
    ensures
        ({
            let request = seq![REQUEST_LIST, keep_alive_flags(keep_alive)];
            &&& reaction(session, request, images, order, sizing, watch_enabled) matches Some(
                (response, _),
            )
            &&& list_at_front(response.bytes) matches Ok((entries, n))
            &&& n == response.bytes.len()
            &&& filtered(entries, None) == order.map_values(
                |id: ImageId| seen_as(images, sizing, id),
            )
        }),
{
    law_list_sends_catalog(session, keep_alive, images, order, sizing, watch_enabled);
    law_buffered_matches_unbuffered(images, sizing, order);
    law_list_round_trip(images, sizing, order, Seq::empty());
    let request = seq![REQUEST_LIST, keep_alive_flags(keep_alive)];
    let reply = reaction(session, request, images, order, sizing, watch_enabled).unwrap();
    let response = reply.0;
    assert(countable(order) == order);
    assert(response.bytes + Seq::<u8>::empty() =~= response.bytes);
    let entries = order.map_values(|id: ImageId| sent_entry(images, sizing, id));
    law_filter_keeps(entries, None);
    let seen = order.map_values(|id: ImageId| seen_as(images, sizing, id));
    assert(filtered(entries, None) =~= seen) by {
        assert forall|i: int| 0 <= i < order.len() implies listed_as(entries[i]) == seen[i] by {
            let id = order[i];
            law_listed_image_arrives(images, sizing, id);
        }
    }
}

/// An image packet as it is sent.
#[verifier::ext_equal]
pub struct SentPacket {
    pub flags: u8,
    pub id: ImageId,
    pub data: Seq<u8>,
}

/// Image packets on the wire, one after the other.
pub open spec fn packets_bytes(packets: Seq<SentPacket>) -> Seq<u8>
    decreases packets.len(),
{
    if packets.len() == 0 {
        Seq::empty()
    } else {
        let p = packets.last();
        packets_bytes(packets.drop_last()) + packet_bytes(p.flags, p.id, p.data)
    }
}

/// Whether a packet can be told apart from anything else on the wire.
pub open spec fn sendable(p: SentPacket) -> bool {
    image_flags_check(p.flags) is Ok && p.data.len() <= u32::MAX
}

proof fn lemma_packets_split(packets: Seq<SentPacket>, i: int)
    requires
        0 <= i < packets.len(),
    ensures
        exists|rest: Seq<u8>|
            packets_bytes(packets) == packets_bytes(packets.take(i)) + #[trigger] (packet_bytes(
                packets[i].flags,
                packets[i].id,
                packets[i].data,
            ) + rest),
    decreases packets.len(),
{
    let p = packets[i];
    let own = packet_bytes(p.flags, p.id, p.data);
    let front = packets.drop_last();
    let before = packets_bytes(packets.take(i));
    if i == front.len() {
        assert(packets.take(i) =~= front);
        assert(packets_bytes(packets) =~= before + (own + Seq::<u8>::empty()));
    } else {
        lemma_packets_split(front, i);
        assert(front.take(i) =~= packets.take(i));
        let rest = choose|rest: Seq<u8>|
            packets_bytes(front) == before + #[trigger] (own + rest);
        let last = packets.last();
        let more = rest + packet_bytes(last.flags, last.id, last.data);
        assert(packets_bytes(packets) =~= before + (own + more));
    }
}

/// A client that reads one packet after the other, and no more than were
/// sent, gets each packet as it was sent.
pub proof fn law_packets_arrive_in_order(packets: Seq<SentPacket>, i: int, rest: Seq<u8>)
    requires
        0 <= i < packets.len(),
        sendable(packets[i]),
    ensures
        ({
            let p = packets[i];
            let read_before = packets_bytes(packets.take(i)).len() as int;
            packet_at_front((packets_bytes(packets) + rest).skip(read_before)) == Ok::<
                ((ImageHeader, Seq<u8>), nat),
                ProtocolError,
            >(
                (
                    (ImageHeader { flags: p.flags, length: p.data.len() as u32, id: p.id }, p.data),
                    packet_bytes(p.flags, p.id, p.data).len(),
                ),
            )
        }),
{
    let p = packets[i];
    let own = packet_bytes(p.flags, p.id, p.data);
    let before = packets_bytes(packets.take(i));
    lemma_packets_split(packets, i);
    let later = choose|later: Seq<u8>|
        packets_bytes(packets) == before + #[trigger] (own + later);
    let s = packets_bytes(packets) + rest;
    assert(s.skip(before.len() as int) =~= own + (later + rest));
    law_packet_round_trip(p.flags, p.id, p.data, later + rest);
}

} // verus!
