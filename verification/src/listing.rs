//! LIST responses, as servers write and clients read them.

use crate::bytes::{append_bytes, skip_front};
use crate::catalog::{ImageCatalog, ImageModel};
use crate::compression::{decisive, judgement, kept_frame};
use crate::error::ProtocolError;
use crate::flags::{filter_admits, image_flags_check, passes_filter};
use crate::frames::{
    entry_at_front, entry_bytes, expect_magic, law_entry_layout, law_entry_round_trip,
    law_entry_settled, law_magic_headers, magic_check, raw_entry_bytes, read_entry, write_entry,
    RawEntry, RawModel, RESPONSE_LIST,
};
use crate::image_id::ImageId;
use crate::packet::{
    framed_length, header_at_front, header_bytes, image_packet, law_header_round_trip, length_for,
    sent_form, sent_length, ImageHeader,
};
use crate::text::{
    chars_of, file_name, from_utf8_lossy, is_file_name, law_name_of, law_trim_keeps_the_inside,
    law_trim_takes_the_ends_off, name_of, nfc, nfc_form, text_in, text_of, trim, trimmed, trims_to,
    white_space,
};
use crate::varint::{
    law_varint_canonical, law_varint_round_trip, law_varint_settled, read_varint_u32,
    varint_at_front, varint_bytes, write_varint_u32,
};
use std::collections::HashMap;
use vstd::prelude::*;
use vstd::utf8::{encode_utf8, encode_utf8_decode_utf8, encode_utf8_valid_utf8};

verus! {

broadcast use vstd::std_specs::hash::group_hash_axioms;

/// The name under which an image is listed: its file name in NFC.
pub open spec fn wire_name(images: Map<ImageId, ImageModel>, id: ImageId) -> Seq<char> {
    nfc_form(name_of(images[id].file_name))
}

/// What the sizes of images depend on besides the catalog: the file lengths of
/// images that are not held in memory, and the judgement on compression with
/// which images are sent.
#[verifier::ext_equal]
pub struct Sizing {
    pub file_sizes: Map<ImageId, u64>,
    pub keep: spec_fn(usize, usize) -> bool,
}

/// The `Sizing` that a server works with.
pub open spec fn sizing_of<F: Fn(usize, usize) -> bool>(
    file_sizes: Map<ImageId, u64>,
    worth_it: F,
) -> Sizing {
    Sizing { file_sizes, keep: judgement(worth_it) }
}

/// The size under which an image is listed: the number of data bytes in its
/// packet. That of an image which is not held in memory is the length of its
/// file, if that is known.
pub open spec fn wire_size(
    images: Map<ImageId, ImageModel>,
    sizing: Sizing,
    id: ImageId,
) -> Option<u32> {
    match images[id].cached_data {
        Some(data) => Some(
            framed_length(sent_form(images[id].flags, data, sizing.keep).1.len() as int),
        ),
        None => if sizing.file_sizes.dom().contains(id) {
            Some(framed_length(sizing.file_sizes[id] as int))
        } else {
            None
        },
    }
}

/// The size under which an image is listed is the length that its packet
/// gives, whether or not it is sent compressed.
pub proof fn law_listed_size_is_packet_length(
    images: Map<ImageId, ImageModel>,
    sizing: Sizing,
    id: ImageId,
    rest: Seq<u8>,
)
    requires
        image_flags_check(images[id].flags) is Ok,
    ensures
        match images[id].cached_data {
            Some(data) => header_at_front(
                image_packet(images[id].flags, id, data, sizing.keep) + rest,
            ) matches Ok((h, _)) && wire_size(images, sizing, id) == Some(h.length),
            None => sizing.file_sizes.dom().contains(id) ==> (header_at_front(
                header_bytes(
                    ImageHeader {
                        flags: images[id].flags,
                        length: framed_length(sizing.file_sizes[id] as int),
                        id,
                    },
                ) + rest,
            ) matches Ok((h, _)) && wire_size(images, sizing, id) == Some(h.length)),
        },
{
    let flags = images[id].flags;
    assert((flags | 8) & 16 == flags & 16 && (flags | 8) & 0b1110_0000 == flags & 0b1110_0000)
        by (bit_vector);
    match images[id].cached_data {
        Some(data) => {
            let form = sent_form(flags, data, sizing.keep);
            let length = framed_length(form.1.len() as int);
            let h = ImageHeader { flags: form.0, length, id };
            let body = form.1.take(length as int);
            law_header_round_trip(h, body + rest);
            assert(header_bytes(h) + body + rest =~= header_bytes(h) + (body + rest));
        },
        None => {
            if sizing.file_sizes.dom().contains(id) {
                let length = framed_length(sizing.file_sizes[id] as int);
                law_header_round_trip(ImageHeader { flags, length, id }, rest);
            }
        },
    }
}

/// The entries of these images on the wire, one after the other.
pub open spec fn entries_bytes(
    images: Map<ImageId, ImageModel>,
    sizing: Sizing,
    ids: Seq<ImageId>,
) -> Seq<u8>
    decreases ids.len(),
{
    if ids.len() == 0 {
        Seq::empty()
    } else {
        let id = ids.last();
        entries_bytes(images, sizing, ids.drop_last()) + entry_bytes(
            id,
            images[id].flags,
            wire_name(images, id),
            wire_size(images, sizing, id).unwrap_or(0),
        )
    }
}

/// A LIST response with these images.
pub open spec fn list_bytes(
    images: Map<ImageId, ImageModel>,
    sizing: Sizing,
    ids: Seq<ImageId>,
) -> Seq<u8> {
    RESPONSE_LIST@ + varint_bytes(ids.len()) + entries_bytes(images, sizing, ids)
}

/// As many of `ids` as a LIST response can count.
pub open spec fn countable(ids: Seq<ImageId>) -> Seq<ImageId> {
    if ids.len() <= u32::MAX {
        ids
    } else {
        ids.take(u32::MAX as int)
    }
}

/// How many of `ids`, from the first on, have a known size.
pub open spec fn sized_front(
    images: Map<ImageId, ImageModel>,
    sizing: Sizing,
    ids: Seq<ImageId>,
) -> nat
    decreases ids.len(),
{
    if ids.len() == 0 {
        0
    } else {
        let before = sized_front(images, sizing, ids.drop_last());
        if before == ids.len() - 1 && wire_size(images, sizing, ids.last()) is Some {
            ids.len()
        } else {
            before
        }
    }
}

/// Those of `ids` that have a known size, in the same order.
pub open spec fn sized_ids(
    images: Map<ImageId, ImageModel>,
    sizing: Sizing,
    ids: Seq<ImageId>,
) -> Seq<ImageId>
    decreases ids.len(),
{
    if ids.len() == 0 {
        ids
    } else {
        let before = sized_ids(images, sizing, ids.drop_last());
        if wire_size(images, sizing, ids.last()) is Some {
            before.push(ids.last())
        } else {
            before
        }
    }
}

/// The names under which these images are listed are in NFC.
pub open spec fn names_normal(images: Map<ImageId, ImageModel>, ids: Seq<ImageId>) -> bool {
    forall|i: int|
        0 <= i < ids.len() ==> nfc_form(wire_name(images, #[trigger] ids[i])) == wire_name(
            images,
            ids[i],
        )
}

proof fn lemma_sized_front_stops(
    images: Map<ImageId, ImageModel>,
    sizing: Sizing,
    ids: Seq<ImageId>,
    i: int,
)
    requires
        0 <= i < ids.len(),
        sized_front(images, sizing, ids.take(i)) == i,
        wire_size(images, sizing, ids[i]) is None,
    ensures
        sized_front(images, sizing, ids) == i,
    decreases ids.len(),
{
    let front = ids.drop_last();
    if i == front.len() {
        assert(ids.take(i) =~= front);
    } else {
        assert(front.take(i) =~= ids.take(i));
        lemma_sized_front_stops(images, sizing, front, i);
    }
}

/// Computes `wire_size`.
pub fn listed_size<F: Fn(usize, usize) -> bool>(
    catalog: &ImageCatalog,
    file_sizes: &HashMap<ImageId, u64>,
    worth_it: &F,
    id: ImageId,
) -> (r: Option<u32>)
    requires
        decisive(*worth_it),
        catalog.model().dom().contains(id),
    ensures
        r == wire_size(catalog.model(), sizing_of(file_sizes@, *worth_it), id),
{
    match catalog.get_metadata(&id) {
        Some(meta) => match &meta.cached_data {
            Some(data) => Some(sent_length(meta.flags, data, worth_it)),
            None => match file_sizes.get(&id) {
                Some(size) => Some(length_for(*size)),
                None => None,
            },
        },
        None => None,
    }
}

fn write_listed(out: &mut Vec<u8>, catalog: &ImageCatalog, id: ImageId, size: u32)
    requires
        catalog.model().dom().contains(id),
    ensures
        final(out)@ == old(out)@ + entry_bytes(
            id,
            catalog.model()[id].flags,
            wire_name(catalog.model(), id),
            size,
        ),
        nfc_form(wire_name(catalog.model(), id)) == wire_name(catalog.model(), id),
{
    if let Some(meta) = catalog.get_metadata(&id) {
        let path = chars_of(&meta.file_name);
        let name = text_of(file_name(&path));
        write_entry(out, id, meta.flags, &name, size);
    }
}

/// Appends a LIST response with all images of `catalog`, ordered by name.
///
/// `file_sizes` gives the file lengths of images that are not held in memory,
/// and `worth_it` judges compression as it does when the images are sent.
/// At the first image whose size is not known writing stops with an error.
pub fn send_catalog<F: Fn(usize, usize) -> bool>(
    out: &mut Vec<u8>,
    catalog: &ImageCatalog,
    file_sizes: &HashMap<ImageId, u64>,
    worth_it: &F,
) -> (r: Result<(), ProtocolError>)
    requires
        catalog.wf(),
        decisive(*worth_it),
    ensures
        ({
            let sizing = sizing_of(file_sizes@, *worth_it);
            let images = catalog.model();
            let ids = countable(catalog.order());
            let written = ids.take(sized_front(images, sizing, ids) as int);
            &&& r == if written.len() == ids.len() {
                Ok::<(), ProtocolError>(())
            } else {
                Err(ProtocolError::SizeUnavailable)
            }
            &&& final(out)@ == old(out)@ + RESPONSE_LIST@ + varint_bytes(ids.len())
                + entries_bytes(images, sizing, written)
            &&& names_normal(images, written)
        }),
{
    let sorted = catalog.sorted_ids();
    let count: usize = if sorted.len() as u64 <= 0xFFFF_FFFF {
        sorted.len()
    } else {
        0xFFFF_FFFF
    };
    append_bytes(out, &RESPONSE_LIST);
    write_varint_u32(out, count as u32);
    let ghost head = out@;
    let ghost images = catalog.model();
    let ghost sizing = sizing_of(file_sizes@, *worth_it);
    let ghost ids = countable(catalog.order());
    let mut i: usize = 0;
    proof {
        assert(ids.take(0) =~= Seq::<ImageId>::empty());
        assert(out@ =~= head + Seq::<u8>::empty());
        assert(ids.len() == count);
    }
    while i < count
        invariant
            i <= count == ids.len(),
            catalog.wf(),
            decisive(*worth_it),
            sizing == sizing_of(file_sizes@, *worth_it),
            images == catalog.model(),
            sorted@ == catalog.order(),
            ids == countable(catalog.order()),
            head == old(out)@ + RESPONSE_LIST@ + varint_bytes(ids.len()),
            out@ == head + entries_bytes(images, sizing, ids.take(i as int)),
            sized_front(images, sizing, ids.take(i as int)) == i,
            names_normal(images, ids.take(i as int)),
        decreases count - i,
    {
        let id: u64 = sorted[i];
        let ghost before = out@;
        proof {
            assert(ids[i as int] == id);
            assert(catalog.order().contains(id));
            assert(ids.take(i + 1).drop_last() =~= ids.take(i as int));
        }
        match listed_size(catalog, file_sizes, worth_it, id) {
            Some(size) => {
                write_listed(out, catalog, id, size);
                proof {
                    assert(out@ =~= head + entries_bytes(images, sizing, ids.take(i + 1)));
                    assert forall|k: int| 0 <= k < i + 1 implies nfc_form(
                        wire_name(images, #[trigger] ids.take(i + 1)[k]),
                    ) == wire_name(images, ids.take(i + 1)[k]) by {
                        if k < i {
                            assert(ids.take(i + 1)[k] == ids.take(i as int)[k]);
                        }
                    }
                }
            },
            None => {
                proof {
                    lemma_sized_front_stops(images, sizing, ids, i as int);
                }
                return Err(ProtocolError::SizeUnavailable);
            },
        }
        i = i + 1;
    }
    proof {
        assert(ids.take(i as int) =~= ids);
    }
    Ok(())
}

/// Appends a LIST response with the images of `catalog`, ordered by name.
///
/// `file_sizes` gives the file lengths of images that are not held in memory,
/// and `worth_it` judges compression as it does when the images are sent.
/// Images whose size is not known are left out, and not counted.
pub fn send_catalog_buffered<F: Fn(usize, usize) -> bool>(
    out: &mut Vec<u8>,
    catalog: &ImageCatalog,
    file_sizes: &HashMap<ImageId, u64>,
    worth_it: &F,
)
    requires
        catalog.wf(),
        decisive(*worth_it),
    ensures
        ({
            let sizing = sizing_of(file_sizes@, *worth_it);
            let images = catalog.model();
            let ids = sized_ids(images, sizing, countable(catalog.order()));
            &&& final(out)@ == old(out)@ + list_bytes(images, sizing, ids)
            &&& names_normal(images, ids)
        }),
{
    let sorted = catalog.sorted_ids();
    let count: usize = if sorted.len() as u64 <= 0xFFFF_FFFF {
        sorted.len()
    } else {
        0xFFFF_FFFF
    };
    let ghost images = catalog.model();
    let ghost sizing = sizing_of(file_sizes@, *worth_it);
    let ghost ids = countable(catalog.order());
    let mut body: Vec<u8> = Vec::new();
    let mut listed: u32 = 0;
    let mut i: usize = 0;
    proof {
        assert(ids.take(0) =~= Seq::<ImageId>::empty());
    }
    while i < count
        invariant
            i <= count == ids.len(),
            ids.len() <= u32::MAX,
            catalog.wf(),
            decisive(*worth_it),
            sizing == sizing_of(file_sizes@, *worth_it),
            images == catalog.model(),
            sorted@ == catalog.order(),
            ids == countable(catalog.order()),
            listed == sized_ids(images, sizing, ids.take(i as int)).len(),
            listed <= i,
            body@ == entries_bytes(
                images,
                sizing,
                sized_ids(images, sizing, ids.take(i as int)),
            ),
            names_normal(images, sized_ids(images, sizing, ids.take(i as int))),
        decreases count - i,
    {
        let id: u64 = sorted[i];
        let ghost before = sized_ids(images, sizing, ids.take(i as int));
        proof {
            assert(ids[i as int] == id);
            assert(catalog.order().contains(id));
            assert(ids.take(i + 1).drop_last() =~= ids.take(i as int));
        }
        if let Some(size) = listed_size(catalog, file_sizes, worth_it, id) {
            write_listed(&mut body, catalog, id, size);
            listed = listed + 1;
            proof {
                let after = before.push(id);
                assert(after.drop_last() =~= before);
                assert forall|k: int| 0 <= k < after.len() implies nfc_form(
                    wire_name(images, #[trigger] after[k]),
                ) == wire_name(images, after[k]) by {
                    if k < before.len() {
                        assert(after[k] == before[k]);
                    }
                }
            }
        }
        i = i + 1;
    }
    append_bytes(out, &RESPONSE_LIST);
    write_varint_u32(out, listed);
    append_bytes(out, &body);
    proof {
        assert(ids.take(i as int) =~= ids);
        assert(out@ =~= old(out)@ + list_bytes(
            images,
            sizing,
            sized_ids(images, sizing, ids),
        ));
    }
}

proof fn lemma_all_sized(
    images: Map<ImageId, ImageModel>,
    sizing: Sizing,
    ids: Seq<ImageId>,
)
    requires
        forall|i: int|
            0 <= i < ids.len() ==> wire_size(images, sizing, #[trigger] ids[i]) is Some,
    ensures
        sized_front(images, sizing, ids) == ids.len(),
        sized_ids(images, sizing, ids) == ids,
    decreases ids.len(),
{
    if ids.len() > 0 {
        let front = ids.drop_last();
        assert forall|i: int| 0 <= i < front.len() implies wire_size(
            images,
            sizing,
            #[trigger] front[i],
        ) is Some by {
            assert(front[i] == ids[i]);
        }
        lemma_all_sized(images, sizing, front);
        assert(wire_size(images, sizing, ids[ids.len() - 1]) is Some);
        assert(front.push(ids.last()) =~= ids);
    }
}

/// Where the size of every image is known, `send_catalog` and
/// `send_catalog_buffered` write the same bytes: a LIST response with every
/// image.
pub proof fn law_buffered_matches_unbuffered(
    images: Map<ImageId, ImageModel>,
    sizing: Sizing,
    order: Seq<ImageId>,
)
    requires
        forall|i: int|
            0 <= i < order.len() ==> wire_size(images, sizing, #[trigger] order[i]) is Some,
    ensures
        ({
            let ids = countable(order);
            let written = ids.take(sized_front(images, sizing, ids) as int);
            &&& written == ids
            &&& RESPONSE_LIST@ + varint_bytes(ids.len()) + entries_bytes(
                images,
                sizing,
                written,
            ) == list_bytes(images, sizing, ids)
            &&& sized_ids(images, sizing, ids) == ids
        }),
{
    let ids = countable(order);
    assert forall|i: int| 0 <= i < ids.len() implies wire_size(
        images,
        sizing,
        #[trigger] ids[i],
    ) is Some by {
        assert(ids[i] == order[i]);
    }
    lemma_all_sized(images, sizing, ids);
    assert(ids.take(ids.len() as int) =~= ids);
}

/// One entry of a LIST response.
#[derive(Clone, Debug)]
pub struct ListedImage {
    pub id: ImageId,
    pub flags: u8,
    pub filename: String,
    pub size: u32,
}

/// One entry of a LIST response as a mathematical value.
#[verifier::ext_equal]
pub struct ListedModel {
    pub id: ImageId,
    pub flags: u8,
    pub filename: Seq<char>,
    pub size: u32,
}

impl View for ListedImage {
    type V = ListedModel;

    open spec fn view(&self) -> ListedModel {
        ListedModel {
            id: self.id,
            flags: self.flags,
            filename: self.filename@,
            size: self.size,
        }
    }
}

/// What a client makes of an entry: the file name is brought to NFC and
/// trimmed.
pub open spec fn listed_as(raw: RawModel) -> ListedModel {
    ListedModel {
        id: raw.id,
        flags: raw.flags,
        filename: trimmed(nfc_form(text_in(raw.name))),
        size: raw.size,
    }
}

/// The entries that a filter lets through.
pub open spec fn filtered(entries: Seq<RawModel>, filter_mask: Option<u8>) -> Seq<ListedModel>
    decreases entries.len(),
{
    if entries.len() == 0 {
        Seq::empty()
    } else {
        let before = filtered(entries.drop_last(), filter_mask);
        if filter_admits(filter_mask, entries.last().flags) {
            before.push(listed_as(entries.last()))
        } else {
            before
        }
    }
}

/// The `count` entries at the start of `s` and the number of bytes they take.
pub open spec fn entries_at_front(s: Seq<u8>, count: nat) -> Result<
    (Seq<RawModel>, nat),
    ProtocolError,
>
    decreases count,
{
    if count == 0 {
        Ok((Seq::empty(), 0))
    } else {
        match entries_at_front(s, (count - 1) as nat) {
            Err(e) => Err(e),
            Ok((before, n)) => match entry_at_front(s.skip(n as int)) {
                Err(e) => Err(e),
                Ok((entry, m)) => Ok((before.push(entry), n + m)),
            },
        }
    }
}

/// The LIST response at the start of `s` and the number of bytes it takes.
pub open spec fn list_at_front(s: Seq<u8>) -> Result<(Seq<RawModel>, nat), ProtocolError> {
    match magic_check(s, RESPONSE_LIST) {
        Err(e) => Err(e),
        Ok(_) => match varint_at_front(s.skip(4)) {
            Err(e) => Err(e),
            Ok((count, n)) => match entries_at_front(s.skip(4 + n as int), count as nat) {
                Err(e) => Err(e),
                Ok((entries, m)) => Ok((entries, 4 + n + m)),
            },
        },
    }
}

/// The models of these entries.
pub open spec fn listed_models(listed: Seq<ListedImage>) -> Seq<ListedModel> {
    listed.map_values(|l: ListedImage| l@)
}

proof fn lemma_entries_error(s: Seq<u8>, i: nat, count: nat)
    requires
        i <= count,
        entries_at_front(s, i) is Err,
    ensures
        entries_at_front(s, count) is Err,
        entries_at_front(s, count)->Err_0 == entries_at_front(s, i)->Err_0,
    decreases count,
{
    if i < count {
        lemma_entries_error(s, i, (count - 1) as nat);
    }
}

fn to_listed(raw: &RawEntry) -> (r: ListedImage)
    ensures
        r@ == listed_as(raw@),
{
    let normal = chars_of(&nfc(&from_utf8_lossy(&raw.name)));
    let filename = text_of(trim(&normal));
    ListedImage { id: raw.id, flags: raw.flags, filename, size: raw.size }
}

/// Reads the LIST response at the start of `input` and keeps the entries that
/// `filter_mask` lets through. With them comes the number of bytes that the
/// response takes.
pub fn read_list_response(input: &[u8], filter_mask: Option<u8>) -> (r: Result<
    (Vec<ListedImage>, usize),
    ProtocolError,
>)
    ensures
        match list_at_front(input@) {
            Ok((entries, n)) => r matches Ok((listed, rn)) && listed_models(listed@) == filtered(
                entries,
                filter_mask,
            ) && rn == n,
            Err(e) => r == Err::<(Vec<ListedImage>, usize), ProtocolError>(e),
        },
{
    if let Err(e) = expect_magic(input, RESPONSE_LIST) {
        return Err(e);
    }
    let total: usize = input.len();
    let after_magic = skip_front(input, 4);
    let (count, n) = match read_varint_u32(after_magic) {
        Ok(p) => p,
        Err(e) => return Err(e),
    };
    proof {
        law_varint_canonical(after_magic@);
    }
    let body = skip_front(input, 4 + n);
    let mut listed: Vec<ListedImage> = Vec::new();
    let mut pos: usize = 0;
    let mut i: u32 = 0;
    let ghost mut entries: Seq<RawModel> = Seq::empty();
    proof {
        assert(listed_models(listed@) =~= filtered(entries, filter_mask));
    }
    while i < count
        invariant
            i <= count,
            pos <= body@.len(),
            body@ == input@.skip(4 + n as int),
            4 + n <= input@.len() == total,
            magic_check(input@, RESPONSE_LIST) is Ok,
            varint_at_front(input@.skip(4)) == Ok::<(u32, nat), ProtocolError>((count, n as nat)),
            entries_at_front(body@, i as nat) == Ok::<(Seq<RawModel>, nat), ProtocolError>(
                (entries, pos as nat),
            ),
            listed_models(listed@) == filtered(entries, filter_mask),
        decreases count - i,
    {
        let (raw, m) = match read_entry(skip_front(body, pos)) {
            Ok(p) => p,
            Err(e) => {
                proof {
                    lemma_entries_error(body@, (i + 1) as nat, count as nat);
                }
                return Err(e);
            },
        };
        proof {
            let before = entries;
            entries = entries.push(raw@);
            assert(entries.drop_last() =~= before);
        }
        if passes_filter(filter_mask, raw.flags) {
            let ghost kept = listed@;
            listed.push(to_listed(&raw));
            proof {
                assert(listed_models(listed@) =~= listed_models(kept).push(listed_as(raw@)));
            }
        }
        pos = pos + m;
        i = i + 1;
    }
    Ok((listed, 4 + n + pos))
}

/// The entries of `listed` by their ImageID; of several with the same, the
/// last one.
pub open spec fn by_id(listed: Seq<ListedImage>) -> Map<ImageId, ListedImage>
    decreases listed.len(),
{
    if listed.len() == 0 {
        Map::empty()
    } else {
        by_id(listed.drop_last()).insert(listed.last().id, listed.last())
    }
}

/// Computes `by_id`.
pub fn index_by_id(listed: Vec<ListedImage>) -> (r: HashMap<ImageId, ListedImage>)
    ensures
        r@ == by_id(listed@),
{
    let mut r: HashMap<ImageId, ListedImage> = HashMap::new();
    let ghost all = listed@;
    for item in it: listed
        invariant
            it.seq() == all,
            r@ == by_id(all.take(it.index() as int)),
    {
        proof {
            assert(all.take(it.index() + 1).drop_last() =~= all.take(it.index() as int));
        }
        r.insert(item.id, item);
    }
    proof {
        assert(all.take(all.len() as int) =~= all);
    }
    r
}

/// The entry that a listed image is sent as.
pub open spec fn sent_entry(
    images: Map<ImageId, ImageModel>,
    sizing: Sizing,
    id: ImageId,
) -> RawModel {
    RawModel {
        id,
        flags: images[id].flags,
        name: encode_utf8(wire_name(images, id)),
        size: wire_size(images, sizing, id).unwrap_or(0),
    }
}

/// These images can be told apart from anything else on the wire: no reserved
/// flag is set and the names fit their length field.
pub open spec fn listable(images: Map<ImageId, ImageModel>, ids: Seq<ImageId>) -> bool {
    &&& ids.len() <= u32::MAX
    &&& forall|i: int|
        0 <= i < ids.len() ==> image_flags_check(images[#[trigger] ids[i]].flags) is Ok
            && encode_utf8(wire_name(images, ids[i])).len() <= u16::MAX
}

proof fn lemma_entries_round_trip(
    images: Map<ImageId, ImageModel>,
    sizing: Sizing,
    ids: Seq<ImageId>,
    rest: Seq<u8>,
)
    requires
        listable(images, ids),
    ensures
        entries_at_front(entries_bytes(images, sizing, ids) + rest, ids.len()) == Ok::<
            (Seq<RawModel>, nat),
            ProtocolError,
        >(
            (
                ids.map_values(|id: ImageId| sent_entry(images, sizing, id)),
                entries_bytes(images, sizing, ids).len(),
            ),
        ),
    decreases ids.len(),
{
    let all = ids.map_values(|id: ImageId| sent_entry(images, sizing, id));
    if ids.len() == 0 {
        assert(all =~= Seq::<RawModel>::empty());
    } else {
        let front = ids.drop_last();
        let id = ids.last();
        assert forall|i: int| 0 <= i < front.len() implies image_flags_check(
            images[#[trigger] front[i]].flags,
        ) is Ok && encode_utf8(wire_name(images, front[i])).len() <= u16::MAX by {
            assert(front[i] == ids[i]);
        }
        assert(ids[ids.len() - 1] == id);
        let a = entries_bytes(images, sizing, front);
        let b = entry_bytes(
            id,
            images[id].flags,
            wire_name(images, id),
            wire_size(images, sizing, id).unwrap_or(0),
        );
        lemma_entries_round_trip(images, sizing, front, b + rest);
        assert(a + b + rest =~= a + (b + rest));
        assert((a + b + rest).skip(a.len() as int) =~= b + rest);
        law_entry_round_trip(
            id,
            images[id].flags,
            wire_name(images, id),
            wire_size(images, sizing, id).unwrap_or(0),
            rest,
        );
        assert(front.map_values(|id: ImageId| sent_entry(images, sizing, id)).push(
            sent_entry(images, sizing, id),
        ) =~= all);
    }
}

/// A LIST response reads back as it was written: the same images in the same
/// order.
pub proof fn law_list_round_trip(
    images: Map<ImageId, ImageModel>,
    sizing: Sizing,
    ids: Seq<ImageId>,
    rest: Seq<u8>,
)
    requires
        listable(images, ids),
    ensures
        list_at_front(list_bytes(images, sizing, ids) + rest) == Ok::<
            (Seq<RawModel>, nat),
            ProtocolError,
        >(
            (
                ids.map_values(|id: ImageId| sent_entry(images, sizing, id)),
                list_bytes(images, sizing, ids).len(),
            ),
        ),
{
    let b = entries_bytes(images, sizing, ids);
    let v = varint_bytes(ids.len());
    let s = list_bytes(images, sizing, ids) + rest;
    law_varint_round_trip(ids.len() as u32, b + rest);
    lemma_entries_round_trip(images, sizing, ids, rest);
    assert(s.take(4) =~= RESPONSE_LIST@);
    assert(s.skip(4) =~= v + (b + rest));
    assert(s.skip(4 + v.len() as int) =~= b + rest);
}

/// A client sees a listed image under the ImageID, the flags and the size it
/// was listed with, and under its trimmed NFC name.
pub proof fn law_listed_image_arrives(
    images: Map<ImageId, ImageModel>,
    sizing: Sizing,
    id: ImageId,
)
    requires
        nfc_form(wire_name(images, id)) == wire_name(images, id),
    ensures
        listed_as(sent_entry(images, sizing, id)) == (ListedModel {
            id,
            flags: images[id].flags,
            filename: trimmed(wire_name(images, id)),
            size: wire_size(images, sizing, id).unwrap_or(0),
        }),
{
    encode_utf8_decode_utf8(wire_name(images, id));
    encode_utf8_valid_utf8(wire_name(images, id));
}

/// Without a filter a client keeps every entry, and with one it keeps the
/// entries of those file types only.
pub proof fn law_filter_keeps(entries: Seq<RawModel>, filter_mask: Option<u8>)
    ensures
        filter_mask is None ==> filtered(entries, filter_mask) =~= entries.map_values(
            |e: RawModel| listed_as(e),
        ),
        forall|i: int|
            0 <= i < filtered(entries, filter_mask).len() ==> filter_admits(
                filter_mask,
                (#[trigger] filtered(entries, filter_mask)[i]).flags,
            ),
        forall|i: int|
            0 <= i < entries.len() && filter_admits(filter_mask, (#[trigger] entries[i]).flags)
                ==> filtered(entries, filter_mask).contains(listed_as(entries[i])),
    decreases entries.len(),
{
    if entries.len() > 0 {
        let front = entries.drop_last();
        let before = filtered(front, filter_mask);
        let all = filtered(entries, filter_mask);
        law_filter_keeps(front, filter_mask);
        if filter_mask is None {
            assert(entries.map_values(|e: RawModel| listed_as(e)) =~= front.map_values(
                |e: RawModel| listed_as(e),
            ).push(listed_as(entries.last())));
        }
        assert forall|i: int| 0 <= i < all.len() implies filter_admits(
            filter_mask,
            (#[trigger] all[i]).flags,
        ) by {
            if i < before.len() {
                assert(all[i] == before[i]);
            }
        }
        assert forall|i: int|
            0 <= i < entries.len() && filter_admits(
                filter_mask,
                (#[trigger] entries[i]).flags,
            ) implies all.contains(listed_as(entries[i])) by {
            if i < front.len() {
                assert(front[i] == entries[i]);
                let k = choose|k: int| 0 <= k < before.len() && before[k] == listed_as(entries[i]);
                assert(all[k] == before[k]);
            } else {
                assert(all[all.len() - 1] == listed_as(entries[i]));
            }
        }
    }
}

proof fn lemma_entries_settled(s: Seq<u8>, more: Seq<u8>, count: nat)
    ensures
        entries_at_front(s, count) != Err::<(Seq<RawModel>, nat), ProtocolError>(
            ProtocolError::UnexpectedEof,
        ) ==> entries_at_front(s + more, count) == entries_at_front(s, count),
        entries_at_front(s, count) matches Ok((_, n)) ==> n <= s.len(),
    decreases count,
{
    if count > 0 {
        lemma_entries_settled(s, more, (count - 1) as nat);
        if let Ok((before, n)) = entries_at_front(s, (count - 1) as nat) {
            let t = s.skip(n as int);
            assert((s + more).skip(n as int) =~= t + more);
            if entry_at_front(t) != Err::<(RawModel, nat), ProtocolError>(
                ProtocolError::UnexpectedEof,
            ) {
                law_entry_settled(t, more);
            }
            if let Ok((e, m)) = entry_at_front(t) {
                law_varint_canonical(t.skip(11 + e.name.len() as int));
            }
        }
    }
}

/// What a LIST response reads as is settled once it is complete: bytes that
/// follow it change nothing.
pub proof fn law_list_settled(s: Seq<u8>, more: Seq<u8>)
    requires
        list_at_front(s) != Err::<(Seq<RawModel>, nat), ProtocolError>(
            ProtocolError::UnexpectedEof,
        ),
    ensures
        list_at_front(s + more) == list_at_front(s),
{
    let t = s + more;
    assert(t.take(4) =~= s.take(4));
    if magic_check(s, RESPONSE_LIST) is Ok {
        assert(t.skip(4) =~= s.skip(4) + more);
        law_varint_settled(s.skip(4), more);
        law_varint_canonical(s.skip(4));
        if let Ok((count, n)) = varint_at_front(s.skip(4)) {
            let body = s.skip(4 + n as int);
            assert(t.skip(4 + n as int) =~= body + more);
            lemma_entries_settled(body, more, count as nat);
        }
    }
}

/// An image is listed under the NFC form of its file's name, which is the last
/// component of its path.
pub proof fn law_wire_name(
    images: Map<ImageId, ImageModel>,
    id: ImageId,
    dir: Seq<char>,
    name: Seq<char>,
)
    requires
        is_file_name(name),
        images[id].file_name == dir.push('/') + name || images[id].file_name == name,
    ensures
        wire_name(images, id) == nfc_form(name),
{
    law_name_of(dir, name);
}

/// An image whose path has no name is listed under the empty name's NFC form.
pub proof fn law_wire_name_of_nothing(images: Map<ImageId, ImageModel>, id: ImageId)
    requires
        name_of(images[id].file_name).len() == 0,
    ensures
        wire_name(images, id) == nfc_form(Seq::empty()),
{
    assert(name_of(images[id].file_name) =~= Seq::<char>::empty());
}

/// An image that is held in memory and not sent compressed is listed with the
/// number of its bytes; one that is not held in memory with the length of its
/// file. Only of the latter the size can be unknown.
pub proof fn law_wire_size(images: Map<ImageId, ImageModel>, sizing: Sizing, id: ImageId)
    ensures
        images[id].cached_data matches Some(data) ==> {
            &&& images[id].flags % 8 != 3 && images[id].flags % 8 != 7 && data.len() <= u32::MAX
                ==> wire_size(images, sizing, id) == Some(data.len() as u32)
            &&& kept_frame(data, sizing.keep) is None && data.len() <= u32::MAX ==> wire_size(
                images,
                sizing,
                id,
            ) == Some(data.len() as u32)
        },
        images[id].cached_data is None ==> {
            &&& wire_size(images, sizing, id) is Some <==> sizing.file_sizes.dom().contains(id)
            &&& sizing.file_sizes.dom().contains(id) && sizing.file_sizes[id] <= u32::MAX
                ==> wire_size(images, sizing, id) == Some(sizing.file_sizes[id] as u32)
        },
{
}

/// A LIST response is laid out as its header, the number of its entries, and
/// the entries in their order: those of two lists one after the other are the
/// entries of the first and then those of the second.
pub proof fn law_list_layout(
    images: Map<ImageId, ImageModel>,
    sizing: Sizing,
    a: Seq<ImageId>,
    b: Seq<ImageId>,
    id: ImageId,
)
    ensures
        list_bytes(images, sizing, a) == seq![0x4Au8, 0x54, 0x50, 0x4C] + varint_bytes(a.len())
            + entries_bytes(images, sizing, a),
        entries_bytes(images, sizing, a + b) == entries_bytes(images, sizing, a) + entries_bytes(
            images,
            sizing,
            b,
        ),
        entries_bytes(images, sizing, seq![id]) == entry_bytes(
            id,
            images[id].flags,
            wire_name(images, id),
            wire_size(images, sizing, id).unwrap_or(0),
        ),
    decreases b.len(),
{
    law_magic_headers();
    reveal_with_fuel(entries_bytes, 2);
    assert(seq![id].drop_last() =~= Seq::<ImageId>::empty());
    assert(entries_bytes(images, sizing, seq![id]) =~= entry_bytes(
        id,
        images[id].flags,
        wire_name(images, id),
        wire_size(images, sizing, id).unwrap_or(0),
    ));
    if b.len() == 0 {
        assert(a + b =~= a);
        assert(entries_bytes(images, sizing, a) + entries_bytes(images, sizing, b)
            =~= entries_bytes(images, sizing, a));
    } else {
        law_list_layout(images, sizing, a, b.drop_last(), id);
        assert((a + b).drop_last() =~= a + b.drop_last());
        assert(entries_bytes(images, sizing, a + b) =~= entries_bytes(images, sizing, a)
            + entries_bytes(images, sizing, b));
    }
}

/// Left out of a listing are exactly the images whose size is not known; the
/// others keep their order.
pub proof fn law_sized_ids_in_order(
    images: Map<ImageId, ImageModel>,
    sizing: Sizing,
    a: Seq<ImageId>,
    b: Seq<ImageId>,
    id: ImageId,
)
    ensures
        sized_ids(images, sizing, a + b) == sized_ids(images, sizing, a) + sized_ids(
            images,
            sizing,
            b,
        ),
        sized_ids(images, sizing, seq![id]) == if wire_size(images, sizing, id) is Some {
            seq![id]
        } else {
            Seq::<ImageId>::empty()
        },
    decreases b.len(),
{
    reveal_with_fuel(sized_ids, 2);
    assert(seq![id].drop_last() =~= Seq::<ImageId>::empty());
    assert(sized_ids(images, sizing, seq![id]) =~= if wire_size(images, sizing, id) is Some {
        seq![id]
    } else {
        Seq::<ImageId>::empty()
    });
    if b.len() == 0 {
        assert(a + b =~= a);
        assert(sized_ids(images, sizing, a) + sized_ids(images, sizing, b) =~= sized_ids(
            images,
            sizing,
            a,
        ));
    } else {
        law_sized_ids_in_order(images, sizing, a, b.drop_last(), id);
        assert((a + b).drop_last() =~= a + b.drop_last());
        assert(sized_ids(images, sizing, a + b) =~= sized_ids(images, sizing, a) + sized_ids(
            images,
            sizing,
            b,
        ));
    }
}

/// Before the first image whose size is not known, every image has one; there
/// is none exactly if all sizes are known.
pub proof fn law_sized_front(
    images: Map<ImageId, ImageModel>,
    sizing: Sizing,
    ids: Seq<ImageId>,
)
    ensures
        ({
            let k = sized_front(images, sizing, ids) as int;
            &&& k <= ids.len()
            &&& forall|i: int| 0 <= i < k ==> wire_size(images, sizing, #[trigger] ids[i]) is Some
            &&& k < ids.len() ==> wire_size(images, sizing, ids[k]) is None
        }),
    decreases ids.len(),
{
    if ids.len() > 0 {
        let front = ids.drop_last();
        law_sized_front(images, sizing, front);
        let k = sized_front(images, sizing, ids) as int;
        assert forall|i: int| 0 <= i < k implies wire_size(images, sizing, #[trigger] ids[i]) is Some by {
            if i < front.len() {
                assert(front[i] == ids[i]);
            }
        }
        if k < front.len() {
            assert(front[k] == ids[k]);
        }
    }
}

/// A listing leaves out nothing that can be counted.
pub proof fn law_countable(ids: Seq<ImageId>)
    ensures
        ids.len() <= u32::MAX ==> countable(ids) == ids,
        countable(ids).len() <= u32::MAX,
        forall|i: int| 0 <= i < countable(ids).len() ==> countable(ids)[i] == ids[i],
{
}

/// A client takes ImageID, flags and size of an entry as they are, and the text
/// in its name, brought to NFC and trimmed at its ends.
pub proof fn law_listed_as(raw: RawModel)
    ensures
        listed_as(raw).id == raw.id,
        listed_as(raw).flags == raw.flags,
        listed_as(raw).size == raw.size,
        exists|a: int, b: int| #[trigger]
            trims_to(nfc_form(text_in(raw.name)), a, b) && listed_as(raw).filename == nfc_form(
                text_in(raw.name),
            ).subrange(a, b),
{
    law_trim_takes_the_ends_off(nfc_form(text_in(raw.name)));
}

/// A listed image whose name has no white space at its ends is seen under that
/// name, unchanged.
pub proof fn law_listed_name_is_kept(
    images: Map<ImageId, ImageModel>,
    sizing: Sizing,
    id: ImageId,
)
    requires
        nfc_form(wire_name(images, id)) == wire_name(images, id),
        wire_name(images, id).len() > 0,
        !white_space(wire_name(images, id)[0]),
        !white_space(wire_name(images, id).last()),
    ensures
        listed_as(sent_entry(images, sizing, id)).filename == wire_name(images, id),
        listed_as(sent_entry(images, sizing, id)).id == id,
        listed_as(sent_entry(images, sizing, id)).flags == images[id].flags,
        wire_size(images, sizing, id) matches Some(size) ==> listed_as(
            sent_entry(images, sizing, id),
        ).size == size,
{
    law_listed_image_arrives(images, sizing, id);
    law_trim_keeps_the_inside(wire_name(images, id));
}

/// A client that filters keeps the entries that its filter lets through, in
/// their order.
pub proof fn law_filtered_in_order(
    a: Seq<RawModel>,
    b: Seq<RawModel>,
    e: RawModel,
    filter_mask: Option<u8>,
)
    ensures
        filtered(a + b, filter_mask) == filtered(a, filter_mask) + filtered(b, filter_mask),
        filtered(seq![e], filter_mask) == if filter_admits(filter_mask, e.flags) {
            seq![listed_as(e)]
        } else {
            Seq::<ListedModel>::empty()
        },
    decreases b.len(),
{
    reveal_with_fuel(filtered, 2);
    assert(seq![e].drop_last() =~= Seq::<RawModel>::empty());
    assert(filtered(seq![e], filter_mask) =~= if filter_admits(filter_mask, e.flags) {
        seq![listed_as(e)]
    } else {
        Seq::<ListedModel>::empty()
    });
    if b.len() == 0 {
        assert(a + b =~= a);
        assert(filtered(a, filter_mask) + filtered(b, filter_mask) =~= filtered(a, filter_mask));
    } else {
        law_filtered_in_order(a, b.drop_last(), e, filter_mask);
        assert((a + b).drop_last() =~= a + b.drop_last());
        assert(filtered(a + b, filter_mask) =~= filtered(a, filter_mask) + filtered(
            b,
            filter_mask,
        ));
    }
}

/// Entries on the wire with these bytes for names.
pub open spec fn raw_entries_bytes(entries: Seq<RawModel>) -> Seq<u8>
    decreases entries.len(),
{
    if entries.len() == 0 {
        Seq::empty()
    } else {
        raw_entries_bytes(entries.drop_last()) + raw_entry_bytes(entries.last())
    }
}

proof fn lemma_raw_entries(entries: Seq<RawModel>, rest: Seq<u8>)
    requires
        forall|i: int|
            0 <= i < entries.len() ==> image_flags_check((#[trigger] entries[i]).flags) is Ok
                && entries[i].name.len() <= 65535,
    ensures
        entries_at_front(raw_entries_bytes(entries) + rest, entries.len()) == Ok::<
            (Seq<RawModel>, nat),
            ProtocolError,
        >((entries, raw_entries_bytes(entries).len())),
    decreases entries.len(),
{
    if entries.len() == 0 {
        assert(entries =~= Seq::<RawModel>::empty());
    } else {
        let front = entries.drop_last();
        let e = entries[entries.len() - 1];
        assert forall|i: int| 0 <= i < front.len() implies image_flags_check(
            (#[trigger] front[i]).flags,
        ) is Ok && front[i].name.len() <= 65535 by {
            assert(front[i] == entries[i]);
        }
        let a = raw_entries_bytes(front);
        let b = raw_entry_bytes(e);
        lemma_raw_entries(front, b + rest);
        assert(a + b + rest =~= a + (b + rest));
        assert((a + b + rest).skip(a.len() as int) =~= b + rest);
        law_entry_layout(e.id, e.flags, e.name, e.size, Seq::empty(), Seq::empty(), rest);
        assert(front.push(e) =~= entries);
    }
}

proof fn lemma_entries_were_laid_out(s: Seq<u8>, count: nat)
    ensures
        entries_at_front(s, count) matches Ok((entries, n)) ==> {
            &&& entries.len() == count
            &&& n <= s.len()
            &&& s.take(n as int) == raw_entries_bytes(entries)
        },
    decreases count,
{
    if count == 0 {
        assert(s.take(0) =~= Seq::<u8>::empty());
    } else if let Ok((entries, n)) = entries_at_front(s, count) {
        lemma_entries_were_laid_out(s, (count - 1) as nat);
        let (before, k) = entries_at_front(s, (count - 1) as nat)->Ok_0;
        let t = s.skip(k as int);
        law_entry_layout(0, 0, Seq::empty(), 0, Seq::empty(), t, Seq::empty());
        assert(entries.drop_last() =~= before);
        assert(s.take(n as int) =~= s.take(k as int) + t.take(n - k));
    }
}

/// A client reads a LIST response as it is laid out, whatever bytes the names
/// are: every entry that was announced, in its order.
pub proof fn law_list_is_read(entries: Seq<RawModel>, rest: Seq<u8>)
    requires
        entries.len() <= u32::MAX,
        forall|i: int|
            0 <= i < entries.len() ==> image_flags_check((#[trigger] entries[i]).flags) is Ok
                && entries[i].name.len() <= 65535,
    ensures
        ({
            let laid_out = RESPONSE_LIST@ + varint_bytes(entries.len()) + raw_entries_bytes(entries);
            list_at_front(laid_out + rest) == Ok::<(Seq<RawModel>, nat), ProtocolError>(
                (entries, laid_out.len()),
            )
        }),
{
    let v = varint_bytes(entries.len());
    let b = raw_entries_bytes(entries);
    law_varint_round_trip(entries.len() as u32, b + rest);
    lemma_raw_entries(entries, rest);
    lemma_list_parts(RESPONSE_LIST@, v, b, rest);
}

proof fn lemma_list_parts(magic: Seq<u8>, v: Seq<u8>, b: Seq<u8>, rest: Seq<u8>)
    requires
        magic.len() == 4,
    ensures
        ({
            let all = magic + v + b + rest;
            &&& all.len() >= 4
            &&& all.take(4) == magic
            &&& all.skip(4) == v + (b + rest)
            &&& all.skip(4 + v.len() as int) == b + rest
            &&& (magic + v + b).len() == 4 + v.len() + b.len()
        }),
{
    let all = magic + v + b + rest;
    assert(all.take(4) =~= magic);
    assert(all.skip(4) =~= v + (b + rest));
    assert(all.skip(4 + v.len() as int) =~= b + rest);
}

/// What a client reads as a LIST response was laid out as one with just these
/// entries.
pub proof fn law_list_was_laid_out(s: Seq<u8>)
    ensures
        list_at_front(s) matches Ok((read, n)) ==> n <= s.len() && s.take(n as int) == RESPONSE_LIST@
            + varint_bytes(read.len()) + raw_entries_bytes(read),
{
    if let Ok((read, n)) = list_at_front(s) {
        law_varint_canonical(s.skip(4));
        let (count, k) = varint_at_front(s.skip(4))->Ok_0;
        let body = s.skip(4 + k as int);
        lemma_entries_were_laid_out(body, count as nat);
        lemma_three_parts(s, k as int, n as int);
    }
}

proof fn lemma_three_parts(s: Seq<u8>, k: int, n: int)
    requires
        0 <= k,
        4 + k <= n <= s.len(),
    ensures
        s.take(n) == s.take(4) + s.skip(4).take(k) + s.skip(4 + k).take(n - 4 - k),
{
    assert(s.take(n) =~= s.take(4) + s.skip(4).take(k) + s.skip(4 + k).take(n - 4 - k));
}

/// Entries are found by their ImageID: each of the listed, unless one with the
/// same comes later, and no others.
pub proof fn law_by_id(listed: Seq<ListedImage>)
    ensures
        forall|id: ImageId| #[trigger]
            by_id(listed).dom().contains(id) <==> exists|i: int|
                0 <= i < listed.len() && (#[trigger] listed[i]).id == id,
        forall|i: int|
            0 <= i < listed.len() && (forall|j: int|
                i < j < listed.len() ==> (#[trigger] listed[j]).id != listed[i].id) ==> by_id(
                listed,
            )[(#[trigger] listed[i]).id] == listed[i],
    decreases listed.len(),
{
    if listed.len() > 0 {
        let front = listed.drop_last();
        law_by_id(front);
        assert forall|id: ImageId| #[trigger] by_id(listed).dom().contains(id) <==> exists|i: int|
            0 <= i < listed.len() && (#[trigger] listed[i]).id == id by {
            if by_id(front).dom().contains(id) {
                let i = choose|i: int| 0 <= i < front.len() && (#[trigger] front[i]).id == id;
                assert(listed[i].id == id);
            }
            if id == listed.last().id {
                assert(listed[listed.len() - 1].id == id);
            }
            if exists|i: int| 0 <= i < listed.len() && (#[trigger] listed[i]).id == id {
                let i = choose|i: int| 0 <= i < listed.len() && (#[trigger] listed[i]).id == id;
                if i < front.len() {
                    assert(front[i].id == id);
                }
            }
        }
        assert forall|i: int|
            0 <= i < listed.len() && (forall|j: int|
                i < j < listed.len() ==> (#[trigger] listed[j]).id != listed[i].id) implies by_id(
            listed,
        )[(#[trigger] listed[i]).id] == listed[i] by {
            if i < front.len() {
                assert(front[i] == listed[i]);
                assert(listed[listed.len() - 1].id != listed[i].id);
                assert forall|j: int| i < j < front.len() implies (#[trigger] front[j]).id
                    != front[i].id by {
                    assert(front[j] == listed[j]);
                }
            }
        }
    }
}

/// The model of an entry says all that it holds, and the models of several are
/// those of each of them, in their order.
pub proof fn law_listed_models(item: ListedImage, listed: Seq<ListedImage>)
    ensures
        item@.id == item.id,
        item@.flags == item.flags,
        item@.filename == item.filename@,
        item@.size == item.size,
        listed_models(listed).len() == listed.len(),
        forall|i: int| 0 <= i < listed.len() ==> #[trigger] listed_models(listed)[i] == listed[i]@,
{
}

/// What sizes depend on is what the server has: its file lengths, and the
/// closure with which it sends images.
pub proof fn law_sizing<F: Fn(usize, usize) -> bool>(
    file_sizes: Map<ImageId, u64>,
    worth_it: F,
    compressed: usize,
    original: usize,
)
    ensures
        sizing_of(file_sizes, worth_it).file_sizes == file_sizes,
        (sizing_of(file_sizes, worth_it).keep)(compressed, original) <==> worth_it.ensures(
            (compressed, original),
            true,
        ),
        judgement(worth_it)(compressed, original) <==> worth_it.ensures(
            (compressed, original),
            true,
        ),
{
}

/// A LIST response is refused for its header, for its count, or for the first
/// entry that is refused.
pub proof fn law_list_refusals(s: Seq<u8>, count: nat)
    ensures
        s.len() < 4 ==> list_refused(s, ProtocolError::UnexpectedEof),
        s.len() >= 4 && s.take(4) != RESPONSE_LIST@ ==> list_refused(
            s,
            ProtocolError::UnexpectedHeader,
        ),
        s.len() >= 4 && s.take(4) == RESPONSE_LIST@ ==> match varint_at_front(s.skip(4)) {
            Err(e) => list_refused(s, e),
            Ok((announced, n)) => match entries_at_front(s.skip(4 + n as int), announced as nat) {
                Err(e) => list_refused(s, e),
                Ok((entries, m)) => list_at_front(s) == Ok::<(Seq<RawModel>, nat), ProtocolError>(
                    (entries, 4 + n + m),
                ),
            },
        },
        entries_at_front(s, 0) == Ok::<(Seq<RawModel>, nat), ProtocolError>((Seq::empty(), 0)),
        match entries_at_front(s, count) {
            Err(e) => entries_at_front(s, count + 1) == Err::<(Seq<RawModel>, nat), ProtocolError>(e),
            Ok((before, n)) => match entry_at_front(s.skip(n as int)) {
                Err(e) => entries_at_front(s, count + 1) == Err::<
                    (Seq<RawModel>, nat),
                    ProtocolError,
                >(e),
                Ok((entry, m)) => entries_at_front(s, count + 1) == Ok::<
                    (Seq<RawModel>, nat),
                    ProtocolError,
                >((before.push(entry), n + m)),
            },
        },
{
}

/// `s` is refused as a LIST response with this error.
pub open spec fn list_refused(s: Seq<u8>, e: ProtocolError) -> bool {
    list_at_front(s) == Err::<(Seq<RawModel>, nat), ProtocolError>(e)
}

} // verus!
