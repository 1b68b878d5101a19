//! What a client makes of responses, and how it plans its downloads.

use crate::bytes::{skip_front, u64_bytes};
use crate::catalog::{file_models, is_listing, DirFile, FileModel, ImageModel};
use crate::error::ProtocolError;
use crate::flags::{
    extension_or, file_type_from_flags, type_extension, LIST_FILTER_ALL, LIST_FILTER_BMP,
    LIST_FILTER_GIF, LIST_FILTER_JPEG, LIST_FILTER_PDF, LIST_FILTER_PNG, LIST_FILTER_WEBP,
};
use crate::frames::{expect_magic, magic_check, RESPONSE_GET_BY_ID};
use crate::image_id::{
    compute_image_id, hex_text, id_of, image_id_text, xxh64_value, ImageId,
};
use crate::listing::{ListedImage, ListedModel, Sizing};
use crate::request::{batch_request_bytes, MAX_HAVE_COUNT};
use crate::server::{law_batch_sends_what_is_missing, reaction, Session};
use crate::text::{
    chars_of, decimal_text, head_before, head_end, is_word, lowered, pieces, text_models, text_of,
    to_decimal, trim, trimmed,
};
use crate::varint::{
    law_varint_canonical, law_varint_round_trip, read_varint_u32, varint_at_front, varint_bytes,
};
use std::collections::HashSet;
use vstd::prelude::*;

verus! {

broadcast use vstd::std_specs::hash::group_hash_axioms;

/// The most ImageIDs that one GET_BY_ID request can hold.
pub const MAX_IDS_PER_REQUEST: usize = 255;

/// The most workers that download in parallel.
pub const MAX_PARALLEL: usize = 32;

/// The number of packets that a GET_BY_ID response announces, and the number
/// of bytes before the first packet.
pub open spec fn get_head_at_front(s: Seq<u8>) -> Result<(u32, nat), ProtocolError> {
    match magic_check(s, RESPONSE_GET_BY_ID) {
        Err(e) => Err(e),
        Ok(_) => if s.len() < 5 {
            Err(ProtocolError::UnexpectedEof)
        } else {
            Ok((s[4] as u32, 5))
        },
    }
}

/// The number of packets that a BATCH or LIST_AND_GET response announces, and
/// the number of bytes before the first packet.
pub open spec fn counted_head_at_front(s: Seq<u8>, magic: [u8; 4]) -> Result<
    (u32, nat),
    ProtocolError,
> {
    match magic_check(s, magic) {
        Err(e) => Err(e),
        Ok(_) => match varint_at_front(s.skip(4)) {
            Err(e) => Err(e),
            Ok((count, n)) => Ok((count, 4 + n)),
        },
    }
}

/// Reads what precedes the packets of a GET_BY_ID response: their number, and
/// the number of bytes that takes.
pub fn read_get_head(input: &[u8]) -> (r: Result<(u32, usize), ProtocolError>)
    ensures
        match get_head_at_front(input@) {
            Ok((count, n)) => r matches Ok((rc, rn)) && rc == count && rn == n,
            Err(e) => r == Err::<(u32, usize), ProtocolError>(e),
        },
{
    match expect_magic(input, RESPONSE_GET_BY_ID) {
        Err(e) => Err(e),
        Ok(_) => if input.len() < 5 {
            Err(ProtocolError::UnexpectedEof)
        } else {
            Ok((input[4] as u32, 5))
        },
    }
}

/// Reads what precedes the packets of a BATCH or LIST_AND_GET response: their
/// number, and the number of bytes that takes.
pub fn read_counted_head(input: &[u8], magic: [u8; 4]) -> (r: Result<(u32, usize), ProtocolError>)
    ensures
        match counted_head_at_front(input@, magic) {
            Ok((count, n)) => r matches Ok((rc, rn)) && rc == count && rn == n,
            Err(e) => r == Err::<(u32, usize), ProtocolError>(e),
        },
{
    match expect_magic(input, magic) {
        Err(e) => Err(e),
        Ok(_) => {
            let total: usize = input.len();
            let rest = skip_front(input, 4);
            proof {
                law_varint_canonical(rest@);
            }
            match read_varint_u32(rest) {
                Ok((count, n)) => Ok((count, 4 + n)),
                Err(e) => Err(e),
            }
        },
    }
}

/// A client reads the number of packets that a server has written.
pub proof fn law_packet_count_round_trip(magic: [u8; 4], count: u32, rest: Seq<u8>)
    ensures
        counted_head_at_front(magic@ + varint_bytes(count as nat) + rest, magic) == Ok::<
            (u32, nat),
            ProtocolError,
        >((count, 4 + varint_bytes(count as nat).len())),
        count <= 255 ==> get_head_at_front(RESPONSE_GET_BY_ID@ + seq![count as u8] + rest) == Ok::<
            (u32, nat),
            ProtocolError,
        >((count, 5)),
{
    let v = varint_bytes(count as nat);
    let s = magic@ + v + rest;
    law_varint_round_trip(count, rest);
    assert(s.take(4) =~= magic@);
    assert(s.skip(4) =~= v + rest);
    let g = RESPONSE_GET_BY_ID@ + seq![count as u8] + rest;
    assert(g.take(4) =~= RESPONSE_GET_BY_ID@);
}

/// The line that a client prints for an entry of the catalog.
pub open spec fn listed_text(item: ListedModel) -> Seq<char> {
    "- "@ + hex_text(u64_bytes(item.id)) + "  ["@ + (match type_extension(item.flags % 8) {
        Some(ext) => ext,
        None => "?"@,
    }) + "]  "@ + item.filename + "  "@ + decimal_text(item.size as nat) + " bytes"@
}

/// Computes `listed_text`.
pub fn listed_line(item: &ListedImage) -> (line: String)
    ensures
        line@ == listed_text(item@),
{
    let mut line: String = "- ".to_owned();
    line.append(&image_id_text(item.id));
    line.append("  [");
    line.append(extension_or(file_type_from_flags(item.flags), "?"));
    line.append("]  ");
    line.append(&item.filename);
    line.append("  ");
    line.append(&to_decimal(item.size as u64));
    line.append(" bytes");
    line
}

/// The ImageIDs of these files; those that cannot be read have none.
pub open spec fn ids_of_files(files: Seq<FileModel>) -> Set<ImageId>
    decreases files.len(),
{
    if files.len() == 0 {
        Set::empty()
    } else {
        match files.last().content {
            Some(content) => ids_of_files(files.drop_last()).insert(id_of(content)),
            None => ids_of_files(files.drop_last()),
        }
    }
}

/// Notes the ImageID of a file that the client has, and returns it.
pub fn note_have_id(have: &mut HashSet<ImageId>, content: &[u8]) -> (id: ImageId)
    ensures
        id == id_of(content@),
        final(have)@ == old(have)@.insert(id),
{
    let id: u64 = compute_image_id(content);
    have.insert(id);
    id
}

/// The members of a set of ImageIDs, each once.
pub fn have_list(have: &HashSet<ImageId>) -> (ids: Vec<ImageId>)
    ensures
        ids@.no_duplicates(),
        ids@.to_set() == have@,
{
    let mut ids: Vec<ImageId> = Vec::new();
    for id in it: have.iter()
        invariant
            it.seq().unref().to_set() == have@,
            it.seq().no_duplicates(),
            ids@ == it.seq().unref().take(it.index() as int),
            it.index() == it.seq().len() ==> ids@.to_set() == have@,
    {
        ids.push(*id);
        proof {
            assert(ids@ =~= it.seq().unref().take(it.index() + 1));
            assert(it.index() + 1 == it.seq().len() ==> ids@ =~= it.seq().unref());
        }
    }
    ids
}

/// The ImageIDs of the files in a directory, each once; `None` stands for a
/// directory that cannot be read, of which the client has nothing.
pub fn collect_have_ids(dir: Option<Vec<DirFile>>) -> (ids: Vec<ImageId>)
    ensures
        ids@.no_duplicates(),
        ids@.to_set() == (match dir {
            Some(files) => ids_of_files(file_models(files@)),
            None => Set::empty(),
        }),
{
    let mut have: HashSet<ImageId> = HashSet::new();
    if let Some(files) = dir {
        let ghost models = file_models(files@);
        proof {
            assert(models.take(0) =~= Seq::<FileModel>::empty());
        }
        for file in it: files
            invariant
                file_models(it.seq()) == models,
                have@ == ids_of_files(models.take(it.index() as int)),
        {
            proof {
                assert(models[it.index() as int] == file@);
                assert(models.take(it.index() + 1).drop_last() =~= models.take(it.index() as int));
            }
            if let Some(content) = &file.content {
                note_have_id(&mut have, content);
            }
        }
        proof {
            assert(models.take(models.len() as int) =~= models);
        }
    }
    have_list(&have)
}

/// `ids` in chunks of `size`; the last one may be shorter.
pub open spec fn chunks(ids: Seq<ImageId>, size: nat) -> Seq<Seq<ImageId>>
    decreases ids.len(),
{
    if ids.len() == 0 || size == 0 {
        Seq::empty()
    } else if ids.len() <= size {
        seq![ids]
    } else {
        seq![ids.take(size as int)] + chunks(ids.skip(size as int), size)
    }
}

/// The views of these chunks.
pub open spec fn chunk_models(r: Seq<Vec<ImageId>>) -> Seq<Seq<ImageId>> {
    r.map_values(|c: Vec<ImageId>| c@)
}

/// Computes `chunks`.
pub fn split_ids(ids: &[ImageId], size: usize) -> (r: Vec<Vec<ImageId>>)
    requires
        size > 0,
    ensures
        chunk_models(r@) == chunks(ids@, size as nat),
{
    let mut r: Vec<Vec<ImageId>> = Vec::new();
    let n: usize = ids.len();
    let mut start: usize = 0;
    proof {
        assert(ids@.skip(0) =~= ids@);
        assert(chunk_models(r@) + chunks(ids@, size as nat) =~= chunks(ids@, size as nat));
    }
    while start < n
        invariant
            start <= n == ids@.len(),
            size > 0,
            chunk_models(r@) + chunks(ids@.skip(start as int), size as nat) == chunks(
                ids@,
                size as nat,
            ),
        decreases n - start,
    {
        let end: usize = if n - start <= size {
            n
        } else {
            start + size
        };
        let mut chunk: Vec<ImageId> = Vec::new();
        chunk.extend_from_slice(&ids[start..end]);
        let ghost before = r@;
        let ghost rest = ids@.skip(start as int);
        proof {
            assert(chunk@ =~= ids@.subrange(start as int, end as int));
            if n - start <= size {
                assert(chunk@ =~= rest);
                assert(ids@.skip(end as int) =~= Seq::<ImageId>::empty());
            } else {
                assert(chunk@ =~= rest.take(size as int));
                assert(rest.skip(size as int) =~= ids@.skip(end as int));
            }
        }
        r.push(chunk);
        proof {
            assert(chunk_models(r@) =~= chunk_models(before).push(chunk@));
            assert(chunk_models(r@) + chunks(ids@.skip(end as int), size as nat) =~= chunk_models(
                before,
            ) + chunks(rest, size as nat));
        }
        start = end;
    }
    proof {
        assert(ids@.skip(start as int) =~= Seq::<ImageId>::empty());
        assert(chunk_models(r@) =~= chunks(ids@, size as nat));
    }
    r
}

/// Chunks in their order make up all ImageIDs, none is empty, and none is
/// longer than `size`.
pub proof fn law_chunks_cover(ids: Seq<ImageId>, size: nat)
    requires
        size > 0,
    ensures
        chunks(ids, size).flatten() == ids,
        forall|i: int|
            0 <= i < chunks(ids, size).len() ==> 0 < (#[trigger] chunks(ids, size)[i]).len() <= size,
    decreases ids.len(),
{
    let all = chunks(ids, size);
    if ids.len() == 0 {
        assert(all.flatten() =~= ids);
    } else if ids.len() <= size {
        assert(all.drop_first() =~= Seq::<Seq<ImageId>>::empty());
        reveal_with_fuel(Seq::flatten, 2);
        assert(all.flatten() =~= ids);
    } else {
        let rest = chunks(ids.skip(size as int), size);
        law_chunks_cover(ids.skip(size as int), size);
        assert(all.drop_first() =~= rest);
        reveal_with_fuel(Seq::flatten, 2);
        assert(all.flatten() =~= ids.take(size as int) + rest.flatten());
        assert(ids.take(size as int) + ids.skip(size as int) =~= ids);
        assert forall|i: int| 0 <= i < all.len() implies 0 < (#[trigger] all[i]).len() <= size by {
            if i > 0 {
                assert(all[i] == rest[i - 1]);
            }
        }
    }
}

/// How a client downloads what it has found.
#[derive(Debug, Clone, Copy, PartialEq, Eq, Structural)]
pub enum DownloadPlan {
    /// Workers take chunks of this size, each on a connection of its own.
    Parallel { chunk_size: usize },
    /// One connection is kept alive for requests of up to 255 images.
    KeepAlive,
    /// Requests of up to 255 images go over streams of one connection.
    Streams,
    /// One request for everything.
    Single,
    /// One request cannot ask for that many images.
    TooMany,
}

/// The plan for `count` images.
pub open spec fn plan_for(
    count: nat,
    parallel: nat,
    keep_alive: bool,
    no_quic: bool,
) -> DownloadPlan {
    if parallel > 1 {
        DownloadPlan::Parallel { chunk_size: ((count + parallel - 1) / parallel as int) as usize }
    } else if keep_alive && no_quic {
        DownloadPlan::KeepAlive
    } else if !no_quic {
        DownloadPlan::Streams
    } else if count > MAX_IDS_PER_REQUEST {
        DownloadPlan::TooMany
    } else {
        DownloadPlan::Single
    }
}

/// Computes `plan_for`.
pub fn plan_download(count: usize, parallel: usize, keep_alive: bool, no_quic: bool) -> (plan:
    DownloadPlan)
    ensures
        plan == plan_for(count as nat, parallel as nat, keep_alive, no_quic),
{
    if parallel > 1 {
        let whole: usize = count / parallel;
        let chunk_size: usize = if count % parallel == 0 {
            whole
        } else {
            proof {
                assert(whole < count) by (nonlinear_arith)
                    requires
                        parallel > 1,
                        count % parallel != 0,
                        whole == count / parallel,
                ;
            }
            whole + 1
        };
        proof {
            let c = count as int;
            let p = parallel as int;
            let w = whole as int;
            assert((c + p - 1) / p == if c % p == 0 {
                w
            } else {
                w + 1
            }) by (nonlinear_arith)
                requires
                    p > 1,
                    c >= 0,
                    w == c / p,
            ;
        }
        DownloadPlan::Parallel { chunk_size }
    } else if keep_alive && no_quic {
        DownloadPlan::KeepAlive
    } else if !no_quic {
        DownloadPlan::Streams
    } else if count > MAX_IDS_PER_REQUEST {
        DownloadPlan::TooMany
    } else {
        DownloadPlan::Single
    }
}

/// Parallel chunks are never empty, and there are at most as many as workers.
pub proof fn law_workers_suffice(ids: Seq<ImageId>, parallel: nat, keep_alive: bool, no_quic: bool)
    requires
        ids.len() > 0,
        ids.len() <= usize::MAX,
        parallel > 1,
    ensures
        plan_for(ids.len(), parallel, keep_alive, no_quic) matches DownloadPlan::Parallel {
            chunk_size,
        } && chunk_size > 0 && chunks(ids, chunk_size as nat).len() <= parallel,
{
    let n = ids.len() as int;
    let p = parallel as int;
    let size = (n + p - 1) / p;
    assert(size > 0 && size <= n && n <= size * p) by (nonlinear_arith)
        requires
            n > 0,
            p > 1,
            size == (n + p - 1) / p,
    ;
    lemma_chunk_count(ids, size as nat, parallel);
}

proof fn lemma_chunk_count(ids: Seq<ImageId>, size: nat, count: nat)
    requires
        size > 0,
        ids.len() <= size * count,
    ensures
        chunks(ids, size).len() <= count,
    decreases ids.len(),
{
    if ids.len() > size {
        assert(count > 1 && ids.len() - size <= size * (count - 1)) by (nonlinear_arith)
            requires
                ids.len() > size,
                ids.len() <= size * count,
        ;
        lemma_chunk_count(ids.skip(size as int), size, (count - 1) as nat);
    } else if ids.len() > 0 {
        assert(count > 0) by (nonlinear_arith)
            requires
                ids.len() > 0,
                ids.len() <= size * count,
        ;
    }
}

/// Of pooled connections with these ages, oldest in the pool first, the one
/// to use again: the last that has been idle for less than `max_idle`.
pub fn usable_connection(ages: &[u64], max_idle: u64) -> (r: Option<usize>)
    ensures
        match r {
            Some(i) => {
                &&& i < ages@.len()
                &&& ages@[i as int] < max_idle
                &&& forall|j: int| i < j < ages@.len() ==> ages@[j] >= max_idle
            },
            None => forall|j: int| 0 <= j < ages@.len() ==> ages@[j] >= max_idle,
        },
{
    let mut n: usize = ages.len();
    while n > 0
        invariant
            n <= ages@.len(),
            forall|j: int| n <= j < ages@.len() ==> ages@[j] >= max_idle,
        decreases n,
    {
        if ages[n - 1] < max_idle {
            return Some(n - 1);
        }
        n = n - 1;
    }
    None
}

/// The filter bit of a file type name in any ASCII case, or 0 if there is no
/// such type.
pub open spec fn type_bit(name: Seq<char>) -> u8 {
    let word = lowered(trimmed(name));
    if word == "png"@ {
        LIST_FILTER_PNG
    } else if word == "jpeg"@ || word == "jpg"@ {
        LIST_FILTER_JPEG
    } else if word == "webp"@ {
        LIST_FILTER_WEBP
    } else if word == "bmp"@ {
        LIST_FILTER_BMP
    } else if word == "gif"@ {
        LIST_FILTER_GIF
    } else if word == "pdf"@ {
        LIST_FILTER_PDF
    } else {
        0
    }
}

/// The filter bits of these names together.
pub open spec fn bits_of(names: Seq<Seq<char>>) -> u8
    decreases names.len(),
{
    if names.len() == 0 {
        0
    } else {
        bits_of(names.drop_last()) | type_bit(names.last())
    }
}

/// Those of these names, trimmed, that name no file type.
pub open spec fn unknown_types(names: Seq<Seq<char>>) -> Seq<Seq<char>>
    decreases names.len(),
{
    if names.len() == 0 {
        Seq::empty()
    } else {
        let before = unknown_types(names.drop_last());
        if type_bit(names.last()) == 0 {
            before.push(trimmed(names.last()))
        } else {
            before
        }
    }
}

/// The filter that a comma-separated list of file types stands for. A list
/// of none or of all types filters nothing.
pub open spec fn filter_for(list: Seq<char>) -> Option<u8> {
    let mask = bits_of(pieces(list, ','));
    if mask == 0 || mask == LIST_FILTER_ALL {
        None
    } else {
        Some(mask)
    }
}

fn type_bit_of(name: &[char]) -> (bit: u8)
    ensures
        bit == type_bit(name@),
{
    let word = trim(name);
    if is_word(word, "png") {
        LIST_FILTER_PNG
    } else if is_word(word, "jpeg") || is_word(word, "jpg") {
        LIST_FILTER_JPEG
    } else if is_word(word, "webp") {
        LIST_FILTER_WEBP
    } else if is_word(word, "bmp") {
        LIST_FILTER_BMP
    } else if is_word(word, "gif") {
        LIST_FILTER_GIF
    } else if is_word(word, "pdf") {
        LIST_FILTER_PDF
    } else {
        0
    }
}

proof fn lemma_pieces_step(s: Seq<char>, sep: char, done: Seq<Seq<char>>)
    ensures
        ({
            let first = head_before(s, sep);
            &&& first.len() < s.len() ==> done + pieces(s, sep) == done.push(first) + pieces(
                s.skip(first.len() as int + 1),
                sep,
            )
            &&& first.len() >= s.len() ==> done + pieces(s, sep) == done.push(first)
        }),
{
    let first = head_before(s, sep);
    if first.len() < s.len() {
        let rest = pieces(s.skip(first.len() as int + 1), sep);
        assert(done + (seq![first] + rest) =~= done.push(first) + rest);
    } else {
        assert(done + seq![first] =~= done.push(first));
    }
}

/// Parses a comma-separated list of file types into a catalog filter. With it
/// come the names that were ignored because no file type is called so.
pub fn parse_filter(list: &str) -> (r: (Option<u8>, Vec<String>))
    ensures
        r.0 == filter_for(list@),
        text_models(r.1@) == unknown_types(pieces(list@, ',')),
{
    let s = chars_of(list);
    let n: usize = s.len();
    let mut mask: u8 = 0;
    let mut ignored: Vec<String> = Vec::new();
    let mut start: usize = 0;
    let ghost all = pieces(list@, ',');
    let ghost mut done: Seq<Seq<char>> = Seq::empty();
    proof {
        assert(s@.skip(0) =~= s@);
        assert(done + all =~= all);
        assert(text_models(ignored@) =~= unknown_types(done));
    }
    loop
        invariant_except_break
            all == done + pieces(s@.skip(start as int), ','),
        invariant
            start <= n == s@.len(),
            mask == bits_of(done),
            text_models(ignored@) == unknown_types(done),
        ensures
            all == done,
        decreases n - start,
    {
        let end: usize = head_end(&s, start, ',');
        let token = &s[start..end];
        let bit: u8 = type_bit_of(token);
        let ghost before = done;
        proof {
            lemma_pieces_step(s@.skip(start as int), ',', before);
            done = before.push(token@);
            assert(done.drop_last() =~= before);
            assert(mask | 0 == mask) by (bit_vector);
        }
        if bit == 0 {
            let ghost kept = ignored@;
            ignored.push(text_of(trim(token)));
            proof {
                assert(text_models(ignored@) =~= text_models(kept).push(trimmed(token@)));
            }
        } else {
            mask = mask | bit;
        }
        if end == n {
            break;
        }
        proof {
            assert(s@.skip(start as int).skip(token@.len() as int + 1) =~= s@.skip(end + 1));
        }
        start = end + 1;
    }
    let filter = if mask == 0 || mask == LIST_FILTER_ALL {
        None
    } else {
        Some(mask)
    };
    (filter, ignored)
}

/// A client has an image exactly if one of its files can be read and has this
/// ImageID, whatever the file's name and however long it is.
pub proof fn law_client_has_what_its_files_hold(files: Seq<FileModel>)
    ensures
        forall|id: ImageId| #[trigger]
            ids_of_files(files).contains(id) <==> exists|i: int|
                0 <= i < files.len() && file_has_id(#[trigger] files[i], id),
    decreases files.len(),
{
    if files.len() > 0 {
        let front = files.drop_last();
        law_client_has_what_its_files_hold(front);
        assert forall|id: ImageId| #[trigger] ids_of_files(files).contains(id) <==> exists|i: int|
            0 <= i < files.len() && file_has_id(#[trigger] files[i], id) by {
            if ids_of_files(front).contains(id) {
                let i = choose|i: int| 0 <= i < front.len() && file_has_id(#[trigger] front[i], id);
                assert(file_has_id(files[i], id));
            }
            if file_has_id(files.last(), id) {
                assert(file_has_id(files[files.len() - 1], id));
            }
            if exists|i: int| 0 <= i < files.len() && file_has_id(#[trigger] files[i], id) {
                let i = choose|i: int| 0 <= i < files.len() && file_has_id(#[trigger] files[i], id);
                if i < front.len() {
                    assert(file_has_id(front[i], id));
                }
            }
        }
    }
}

/// Whether a file can be read and the xxHash64 of its content is `id`.
pub open spec fn file_has_id(file: FileModel, id: ImageId) -> bool {
    file.content matches Some(content) && xxh64_value(content, 0) == id
}

/// Delta sync closes the gap: a client that says what its files hold is sent no
/// image that one of them holds, and every other image of the server.
pub proof fn law_delta_sync(
    files: Seq<FileModel>,
    have: Seq<ImageId>,
    images: Map<ImageId, ImageModel>,
    order: Seq<ImageId>,
    sizing: Sizing,
)
    requires
        have.to_set() == ids_of_files(files),
        have.len() <= MAX_HAVE_COUNT,
        is_listing(images, order),
        order.len() <= u32::MAX,
    ensures
        reaction(
            Session::Fresh,
            batch_request_bytes(0, have),
            images,
            order,
            sizing,
            false,
        ) matches Some((response, _)) && forall|id: ImageId| #[trigger]
            response.packets.contains(id) <==> images.dom().contains(id) && !exists|i: int|
                0 <= i < files.len() && file_has_id(#[trigger] files[i], id),
{
    law_batch_sends_what_is_missing(Session::Fresh, false, have, images, order, sizing, false);
    law_client_has_what_its_files_hold(files);
    let response = reaction(
        Session::Fresh,
        batch_request_bytes(0, have),
        images,
        order,
        sizing,
        false,
    ).unwrap().0;
    assert forall|id: ImageId| #[trigger] response.packets.contains(id) <==> images.dom().contains(id)
        && !exists|i: int| 0 <= i < files.len() && file_has_id(#[trigger] files[i], id) by {
        assert(have.contains(id) <==> have.to_set().contains(id));
        assert(ids_of_files(files).contains(id) <==> exists|i: int|
            0 <= i < files.len() && file_has_id(#[trigger] files[i], id));
    }
}

/// The number of packets is read if the header is the right one and the number
/// is complete; the error otherwise is that of the header or of the number.
pub proof fn law_packet_count_refusals(s: Seq<u8>, magic: [u8; 4])
    ensures
        s.len() < 4 ==> counted_head_at_front(s, magic) == Err::<(u32, nat), ProtocolError>(
            ProtocolError::UnexpectedEof,
        ),
        s.len() >= 4 && s.take(4) != magic@ ==> counted_head_at_front(s, magic) == Err::<
            (u32, nat),
            ProtocolError,
        >(ProtocolError::UnexpectedHeader),
        s.len() >= 4 && s.take(4) == magic@ ==> match varint_at_front(s.skip(4)) {
            Ok((count, n)) => counted_head_at_front(s, magic) == Ok::<(u32, nat), ProtocolError>(
                (count, 4 + n),
            ),
            Err(e) => counted_head_at_front(s, magic) == Err::<(u32, nat), ProtocolError>(e),
        },
        s.len() < 4 ==> get_head_at_front(s) == Err::<(u32, nat), ProtocolError>(
            ProtocolError::UnexpectedEof,
        ),
        s.len() >= 4 && s.take(4) != RESPONSE_GET_BY_ID@ ==> get_head_at_front(s) == Err::<
            (u32, nat),
            ProtocolError,
        >(ProtocolError::UnexpectedHeader),
        s.len() >= 4 && s.take(4) == RESPONSE_GET_BY_ID@ ==> get_head_at_front(s) == if s.len() < 5 {
            Err::<(u32, nat), ProtocolError>(ProtocolError::UnexpectedEof)
        } else {
            Ok((s[4] as u32, 5nat))
        },
{
}

/// The line for an entry of the catalog: its ImageID in hexadecimal, the
/// extension of its type or `?`, its name, and its size in decimal.
pub proof fn law_listed_line(item: ListedModel)
    ensures
        ({
            let kind = match type_extension(item.flags % 8) {
                Some(ext) => ext,
                None => seq!['?'],
            };
            listed_text(item) == seq!['-', ' '] + hex_text(u64_bytes(item.id)) + seq![' ', ' ', '[']
                + kind + seq![']', ' ', ' '] + item.filename + seq![' ', ' '] + decimal_text(
                item.size as nat,
            ) + seq![' ', 'b', 'y', 't', 'e', 's']
        }),
{
    reveal_strlit("- ");
    reveal_strlit("  [");
    reveal_strlit("?");
    reveal_strlit("]  ");
    reveal_strlit("  ");
    reveal_strlit(" bytes");
    assert("- "@ =~= seq!['-', ' ']);
    assert("  ["@ =~= seq![' ', ' ', '[']);
    assert("?"@ =~= seq!['?']);
    assert("]  "@ =~= seq![']', ' ', ' ']);
    assert("  "@ =~= seq![' ', ' ']);
    assert(" bytes"@ =~= seq![' ', 'b', 'y', 't', 'e', 's']);
}

/// All chunks but the last are full.
pub proof fn law_chunks_are_full(ids: Seq<ImageId>, size: nat, i: int)
    requires
        size > 0,
        0 <= i < chunks(ids, size).len() - 1,
    ensures
        chunks(ids, size)[i].len() == size,
        chunks(ids, size)[i] == ids.subrange(i * size, (i + 1) * size),
    decreases ids.len(),
{
    let rest = chunks(ids.skip(size as int), size);
    if i == 0 {
        assert(0 * size == 0) by (nonlinear_arith);
        assert(ids.take(size as int) =~= ids.subrange(0, size as int));
        assert((0int + 1) * size == size) by (nonlinear_arith);
    } else {
        law_chunks_are_full(ids.skip(size as int), size, i - 1);
        assert(chunks(ids, size)[i] == rest[i - 1]);
        assert((i - 1) * size + size == i * size && i * size + size == (i + 1) * size && (i - 1)
            * size >= 0) by (nonlinear_arith)
            requires
                i >= 1,
                size > 0,
        ;
        lemma_chunk_within(ids.skip(size as int), size, i - 1);
        assert(ids.skip(size as int).subrange((i - 1) * size, i * size) =~= ids.subrange(
            i * size,
            (i + 1) * size,
        ));
    }
}

proof fn lemma_chunk_within(ids: Seq<ImageId>, size: nat, i: int)
    requires
        size > 0,
        0 <= i < chunks(ids, size).len() - 1,
    ensures
        (i + 1) * size <= ids.len(),
    decreases ids.len(),
{
    if i == 0 {
        assert((0int + 1) * size == size) by (nonlinear_arith);
    } else {
        lemma_chunk_within(ids.skip(size as int), size, i - 1);
        assert((i + 1) * size == i * size + size) by (nonlinear_arith);
    }
}

/// With more than one worker, the images are shared out evenly: chunks are as
/// long as they must be, and no longer. One connection serves all otherwise:
/// it is kept alive if that was asked for and TCP is used; QUIC uses streams;
/// and else one request must do for all.
pub proof fn law_plan(count: nat, parallel: nat, keep_alive: bool, no_quic: bool)
    requires
        count <= usize::MAX,
    ensures
        parallel > 1 ==> (plan_for(count, parallel, keep_alive, no_quic) matches
            DownloadPlan::Parallel { chunk_size } && chunk_size * parallel >= count && (count > 0
            ==> (chunk_size - 1) * parallel < count) && (count == 0 ==> chunk_size == 0)),
        parallel <= 1 && no_quic && keep_alive ==> plan_for(count, parallel, keep_alive, no_quic)
            == DownloadPlan::KeepAlive,
        parallel <= 1 && !no_quic ==> plan_for(count, parallel, keep_alive, no_quic)
            == DownloadPlan::Streams,
        parallel <= 1 && no_quic && !keep_alive ==> plan_for(count, parallel, keep_alive, no_quic)
            == if count <= 255 {
            DownloadPlan::Single
        } else {
            DownloadPlan::TooMany
        },
{
    if parallel > 1 {
        let n = count as int;
        let p = parallel as int;
        let size = (n + p - 1) / p;
        assert(size * p >= n && (n > 0 ==> (size - 1) * p < n) && (n == 0 ==> size == 0) && 0 <= size
            && (n > 0 ==> size <= n)) by (nonlinear_arith)
            requires
                n >= 0,
                p > 1,
                size == (n + p - 1) / p,
        ;
    }
}

/// The filter bit of each file type's name in any ASCII case and with white
/// space around it; other names have none.
pub proof fn law_type_bit(name: Seq<char>)
    ensures
        ({
            let word = lowered(trimmed(name));
            &&& word == seq!['p', 'n', 'g'] ==> type_bit(name) == 1
            &&& word == seq!['j', 'p', 'e', 'g'] || word == seq!['j', 'p', 'g'] ==> type_bit(name)
                == 2
            &&& word == seq!['w', 'e', 'b', 'p'] ==> type_bit(name) == 4
            &&& word == seq!['b', 'm', 'p'] ==> type_bit(name) == 8
            &&& word == seq!['g', 'i', 'f'] ==> type_bit(name) == 16
            &&& word == seq!['p', 'd', 'f'] ==> type_bit(name) == 32
            &&& type_bit(name) != 0 ==> word == seq!['p', 'n', 'g'] || word == seq![
                'j',
                'p',
                'e',
                'g',
            ] || word == seq!['j', 'p', 'g'] || word == seq!['w', 'e', 'b', 'p'] || word == seq![
                'b',
                'm',
                'p',
            ] || word == seq!['g', 'i', 'f'] || word == seq!['p', 'd', 'f']
            &&& type_bit(name) == 0 || type_bit(name) == 1 || type_bit(name) == 2 || type_bit(name)
                == 4 || type_bit(name) == 8 || type_bit(name) == 16 || type_bit(name) == 32
        }),
{
    reveal_strlit("png");
    reveal_strlit("jpg");
    reveal_strlit("jpeg");
    reveal_strlit("webp");
    reveal_strlit("bmp");
    reveal_strlit("gif");
    reveal_strlit("pdf");
    assert("png"@ =~= seq!['p', 'n', 'g']);
    assert("jpg"@ =~= seq!['j', 'p', 'g']);
    assert("jpeg"@ =~= seq!['j', 'p', 'e', 'g']);
    assert("webp"@ =~= seq!['w', 'e', 'b', 'p']);
    assert("bmp"@ =~= seq!['b', 'm', 'p']);
    assert("gif"@ =~= seq!['g', 'i', 'f']);
    assert("pdf"@ =~= seq!['p', 'd', 'f']);
    assert("png"@[1] == 'n' && "png"@[0] == 'p' && "pdf"@[1] == 'd');
    assert("jpg"@[0] == 'j' && "bmp"@[0] == 'b' && "gif"@[0] == 'g');
    assert("jpeg"@[0] == 'j' && "webp"@[0] == 'w' && "jpeg"@.len() == 4);
}

/// A filter made of a list of names has the bit of a file type exactly if one
/// of the names is that of the type.
pub proof fn law_filter_bits(names: Seq<Seq<char>>, bit: u8)
    requires
        bit == 1 || bit == 2 || bit == 4 || bit == 8 || bit == 16 || bit == 32,
    ensures
        bits_of(names) & bit != 0 <==> exists|i: int|
            0 <= i < names.len() && type_bit(#[trigger] names[i]) == bit,
        bits_of(names) < 64,
    decreases names.len(),
{
    if names.len() == 0 {
        assert(0u8 & bit == 0) by (bit_vector);
    } else {
        let front = names.drop_last();
        let last = names.last();
        law_filter_bits(front, bit);
        law_type_bit(last);
        let a = bits_of(front);
        let b = type_bit(last);
        assert((a | b) & bit != 0 <==> (a & bit != 0 || b & bit != 0)) by (bit_vector);
        assert(a < 64 && b < 64 ==> (a | b) < 64) by (bit_vector);
        assert((bit == 1 || bit == 2 || bit == 4 || bit == 8 || bit == 16 || bit == 32) && (b == 0 || b
            == 1 || b == 2 || b == 4 || b == 8 || b == 16 || b == 32) ==> (b & bit != 0 <==> b
            == bit)) by (bit_vector);
        if exists|i: int| 0 <= i < front.len() && type_bit(#[trigger] front[i]) == bit {
            let i = choose|i: int| 0 <= i < front.len() && type_bit(#[trigger] front[i]) == bit;
            assert(type_bit(names[i]) == bit);
        }
        if b == bit {
            assert(type_bit(names[names.len() - 1]) == bit);
        }
        if exists|i: int| 0 <= i < names.len() && type_bit(#[trigger] names[i]) == bit {
            let i = choose|i: int| 0 <= i < names.len() && type_bit(#[trigger] names[i]) == bit;
            if i < front.len() {
                assert(type_bit(front[i]) == bit);
            }
        }
    }
}

/// A list of file types filters nothing if it names none of the six types, or
/// all of them. Otherwise its filter is made of the types that it names.
pub proof fn law_filter_for(list: Seq<char>)
    ensures
        ({
            let mask = bits_of(pieces(list, ','));
            &&& mask == 0 || mask == 63 ==> filter_for(list) is None
            &&& mask != 0 && mask != 63 ==> filter_for(list) == Some(mask)
        }),
{
}

/// The names that a filter ignores are those that name no file type, trimmed
/// and in their order.
pub proof fn law_unknown_types_in_order(a: Seq<Seq<char>>, b: Seq<Seq<char>>, name: Seq<char>)
    ensures
        unknown_types(a + b) == unknown_types(a) + unknown_types(b),
        unknown_types(seq![name]) == if type_bit(name) == 0 {
            seq![trimmed(name)]
        } else {
            Seq::<Seq<char>>::empty()
        },
    decreases b.len(),
{
    reveal_with_fuel(unknown_types, 2);
    assert(seq![name].drop_last() =~= Seq::<Seq<char>>::empty());
    assert(unknown_types(seq![name]) =~= if type_bit(name) == 0 {
        seq![trimmed(name)]
    } else {
        Seq::<Seq<char>>::empty()
    });
    if b.len() == 0 {
        assert(a + b =~= a);
        assert(unknown_types(a) + unknown_types(b) =~= unknown_types(a));
    } else {
        law_unknown_types_in_order(a, b.drop_last(), name);
        assert((a + b).drop_last() =~= a + b.drop_last());
        assert(unknown_types(a + b) =~= unknown_types(a) + unknown_types(b));
    }
}

/// The views of chunks are those of each of them, in their order.
pub proof fn law_chunk_models(r: Seq<Vec<ImageId>>)
    ensures
        chunk_models(r).len() == r.len(),
        forall|i: int| 0 <= i < r.len() ==> #[trigger] chunk_models(r)[i] == r[i]@,
{
}

} // verus!
