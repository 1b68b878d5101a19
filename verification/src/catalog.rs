//! The images that a server offers.

use crate::compression::SIZE_THRESHOLD_LARGE;
use crate::flags::flags_from_file_type;
use crate::image_id::{compute_image_id, id_of, law_image_id_is_xxhash64, xxh64_value, ImageId};
use crate::order::{
    entry_less, law_entries_by_name, law_entries_ordered, sort_entries, text_less, Entry,
};
use crate::text::{
    chars_of, contains, extension, extension_of, file_name, is_file_name, is_word,
    law_extension_of, law_name_of, law_occurs_in, lowered, name_of, occurs_in, to_lowered,
};
use std::collections::HashMap;
use std::sync::Arc;
use vstd::prelude::*;

verus! {

broadcast use vstd::std_specs::hash::group_hash_axioms;

/// An image on the server: its content hash, its flags, the path of its file,
/// and its bytes where they are kept in memory.
#[derive(Clone)]
pub struct ImageMetadata {
    pub id: ImageId,
    pub flags: u8,
    pub file_name: String,
    pub cached_data: Option<Arc<Vec<u8>>>,
}

/// An image on the server as a mathematical value.
#[verifier::ext_equal]
pub struct ImageModel {
    pub id: ImageId,
    pub flags: u8,
    pub file_name: Seq<char>,
    pub cached_data: Option<Seq<u8>>,
}

impl View for ImageMetadata {
    type V = ImageModel;

    open spec fn view(&self) -> ImageModel {
        ImageModel {
            id: self.id,
            flags: self.flags,
            file_name: self.file_name@,
            cached_data: match self.cached_data {
                Some(data) => Some(data@),
                None => None,
            },
        }
    }
}

/// ImageIDs in the order of their images' names. Only the catalog that they
/// belong to can change them.
#[derive(Clone)]
pub struct SortedIds {
    ids: Vec<ImageId>,
}

impl View for SortedIds {
    type V = Seq<ImageId>;

    closed spec fn view(&self) -> Seq<ImageId> {
        self.ids@
    }
}

/// The images that a server offers, and the order in which it lists them.
#[derive(Clone)]
pub struct ImageCatalog {
    pub images: HashMap<ImageId, ImageMetadata>,
    pub cached_sorted: SortedIds,
}

/// A file of an image directory; `content` is `None` where the entry is no
/// regular file or cannot be read.
pub struct DirFile {
    pub path: String,
    pub content: Option<Vec<u8>>,
}

/// A file of an image directory as a mathematical value.
#[verifier::ext_equal]
pub struct FileModel {
    pub path: Seq<char>,
    pub content: Option<Seq<u8>>,
}

impl View for DirFile {
    type V = FileModel;

    open spec fn view(&self) -> FileModel {
        FileModel {
            path: self.path@,
            content: match self.content {
                Some(content) => Some(content@),
                None => None,
            },
        }
    }
}

/// What became of a file that was offered to a catalog.
#[derive(Debug, Clone, Copy, PartialEq, Eq, Structural)]
pub enum Loaded {
    /// It is no image file, its name does not match, or it cannot be read.
    Skipped,
    /// The catalog holds an image with this ImageID already.
    Collision(ImageId),
    /// The image was added under this ImageID.
    Added(ImageId),
}

/// The file type of an image file, by its extension in any ASCII case.
pub open spec fn file_type_of(path: Seq<char>) -> Option<u8> {
    let ext = match extension_of(name_of(path)) {
        Some(ext) => lowered(ext),
        None => Seq::empty(),
    };
    if ext == "png"@ {
        Some(0)
    } else if ext == "jpg"@ || ext == "jpeg"@ {
        Some(1)
    } else if ext == "webp"@ {
        Some(2)
    } else if ext == "bmp"@ {
        Some(3)
    } else if ext == "gif"@ {
        Some(4)
    } else {
        None
    }
}

/// Whether the name of the file at `path` holds `filter`, in any ASCII case.
/// Without a filter every name does.
pub open spec fn name_matches(path: Seq<char>, filter: Option<Seq<char>>) -> bool {
    match filter {
        None => true,
        Some(filter) => occurs_in(lowered(filter), lowered(name_of(path))),
    }
}

/// The file type of the file at `path`, if it belongs into a catalog.
pub open spec fn wanted_type(path: Seq<char>, filter: Option<Seq<char>>) -> Option<u8> {
    if name_matches(path, filter) {
        file_type_of(path)
    } else {
        None
    }
}

/// The catalog entry of an image file. Content of more than 1 MiB is not
/// kept in memory.
pub open spec fn image_of_file(path: Seq<char>, file_type: u8, content: Seq<u8>) -> ImageModel {
    ImageModel {
        id: id_of(content),
        flags: file_type % 8,
        file_name: path,
        cached_data: if content.len() <= SIZE_THRESHOLD_LARGE {
            Some(content)
        } else {
            None
        },
    }
}

/// The catalog entry that a file of a directory gives, unless it is not
/// wanted or cannot be read.
pub open spec fn image_in(file: FileModel, filter: Option<Seq<char>>) -> Option<ImageModel> {
    match (wanted_type(file.path, filter), file.content) {
        (Some(file_type), Some(content)) => Some(image_of_file(file.path, file_type, content)),
        _ => None,
    }
}

/// `images` with the image in `file` added, unless there is none or its
/// ImageID is taken.
pub open spec fn with_file(
    images: Map<ImageId, ImageModel>,
    file: FileModel,
    filter: Option<Seq<char>>,
) -> Map<ImageId, ImageModel> {
    match image_in(file, filter) {
        Some(image) => if images.dom().contains(image.id) {
            images
        } else {
            images.insert(image.id, image)
        },
        None => images,
    }
}

/// The images of a directory, its files taken in the order given.
pub open spec fn directory_images(files: Seq<FileModel>, filter: Option<Seq<char>>) -> Map<
    ImageId,
    ImageModel,
>
    decreases files.len(),
{
    if files.len() == 0 {
        Map::empty()
    } else {
        with_file(directory_images(files.drop_last(), filter), files.last(), filter)
    }
}

/// The models of `files`.
pub open spec fn file_models(files: Seq<DirFile>) -> Seq<FileModel> {
    files.map_values(|f: DirFile| f@)
}

/// The view of an optional text.
pub open spec fn opt_text(s: Option<&str>) -> Option<Seq<char>> {
    match s {
        Some(s) => Some(s@),
        None => None,
    }
}

/// The key by which an entry is ordered.
pub open spec fn sort_key(images: Map<ImageId, ImageModel>, id: ImageId) -> (Seq<char>, u64) {
    (name_of(images[id].file_name), id)
}

/// `ids` lists every image once, ordered by file name.
pub open spec fn is_listing(images: Map<ImageId, ImageModel>, ids: Seq<ImageId>) -> bool {
    &&& ids.no_duplicates()
    &&& forall|id: ImageId| ids.contains(id) <==> images.dom().contains(id)
    &&& forall|i: int, j: int|
        0 <= i < j < ids.len() ==> entry_less(
            sort_key(images, #[trigger] ids[i]),
            sort_key(images, #[trigger] ids[j]),
        )
}

/// Every image stands under its own ImageID.
pub open spec fn is_keyed(images: Map<ImageId, ImageModel>) -> bool {
    forall|id: ImageId| #[trigger] images.dom().contains(id) ==> images[id].id == id
}

/// A catalog holds an image at most once under each ImageID, and its order
/// depends on its images alone.
pub proof fn law_listing_is_unique(images: Map<ImageId, ImageModel>, a: Seq<ImageId>, b: Seq<ImageId>)
    requires
        is_listing(images, a),
        is_listing(images, b),
    ensures
        a == b,
        images.dom().finite() ==> a.len() == images.dom().len(),
    decreases a.len(),
{
    assert(a.to_set() =~= images.dom()) by {
        assert forall|id: ImageId| a.to_set().contains(id) == images.dom().contains(id) by {
            assert(a.contains(id) <==> images.dom().contains(id));
        }
    }
    a.unique_seq_to_set();
    lemma_listing_unique(images, a, b, 0);
}

proof fn lemma_listing_unique(
    images: Map<ImageId, ImageModel>,
    a: Seq<ImageId>,
    b: Seq<ImageId>,
    n: int,
)
    requires
        is_listing(images, a),
        is_listing(images, b),
        0 <= n <= a.len(),
        n <= b.len(),
        forall|i: int| 0 <= i < n ==> a[i] == b[i],
    ensures
        a == b,
    decreases a.len() - n,
{
    if n == a.len() || n == b.len() {
        if n < a.len() {
            assert(a.contains(a[n]));
            assert(b.contains(a[n]));
            let k = choose|k: int| 0 <= k < b.len() && b[k] == a[n];
            assert(a[k] == a[n]);
        }
        if n < b.len() {
            assert(b.contains(b[n]));
            assert(a.contains(b[n]));
            let k = choose|k: int| 0 <= k < a.len() && a[k] == b[n];
            assert(b[k] == b[n]);
        }
        assert(a =~= b);
    } else {
        assert(a.contains(a[n]));
        assert(b.contains(b[n]));
        assert(b.contains(a[n]));
        assert(a.contains(b[n]));
        let i = choose|i: int| 0 <= i < b.len() && b[i] == a[n];
        let j = choose|j: int| 0 <= j < a.len() && a[j] == b[n];
        if i < n {
            assert(a[i] == a[n]);
        }
        if j < n {
            assert(b[j] == b[n]);
        }
        if i > n && j > n {
            assert(entry_less(sort_key(images, b[n]), sort_key(images, b[i])));
            assert(entry_less(sort_key(images, a[n]), sort_key(images, a[j])));
            law_entries_ordered(sort_key(images, a[n]), sort_key(images, b[n]));
        }
        assert(a[n] == b[n]);
        lemma_listing_unique(images, a, b, n + 1);
    }
}

/// Those of `ids` that are not among `images`, in the same order.
pub open spec fn fresh_ids(images: Map<ImageId, ImageModel>, ids: Seq<ImageId>) -> Seq<ImageId>
    decreases ids.len(),
{
    if ids.len() == 0 {
        ids
    } else {
        let before = fresh_ids(images, ids.drop_last());
        if images.dom().contains(ids.last()) {
            before
        } else {
            before.push(ids.last())
        }
    }
}

/// `fresh_ids` holds exactly what its name says, each ImageID as often as
/// `ids` does: once, if it has no duplicates.
pub proof fn law_fresh_ids(images: Map<ImageId, ImageModel>, ids: Seq<ImageId>)
    ensures
        forall|id: ImageId|
            fresh_ids(images, ids).contains(id) <==> ids.contains(id) && !images.dom().contains(id),
        ids.no_duplicates() ==> fresh_ids(images, ids).no_duplicates(),
        fresh_ids(images, ids).len() <= ids.len(),
    decreases ids.len(),
{
    if ids.len() > 0 {
        let front = ids.drop_last();
        let last = ids.last();
        let before = fresh_ids(images, front);
        let all = fresh_ids(images, ids);
        law_fresh_ids(images, front);
        assert forall|id: ImageId| all.contains(id) <==> ids.contains(id)
            && !images.dom().contains(id) by {
            if ids.contains(id) {
                let k = choose|k: int| 0 <= k < ids.len() && ids[k] == id;
                if k < front.len() {
                    assert(front[k] == id);
                }
            }
            if front.contains(id) {
                let k = choose|k: int| 0 <= k < front.len() && front[k] == id;
                assert(ids[k] == id);
            }
            if before.contains(id) {
                let k = choose|k: int| 0 <= k < before.len() && before[k] == id;
                assert(all[k] == id);
            }
            if all.contains(id) {
                let k = choose|k: int| 0 <= k < all.len() && all[k] == id;
                if k < before.len() {
                    assert(before[k] == id);
                }
            }
            if id == last {
                assert(ids[ids.len() - 1] == id);
                if !images.dom().contains(id) {
                    assert(all[all.len() - 1] == id);
                }
            }
        }
        if ids.no_duplicates() {
            assert(front.no_duplicates());
            assert(!front.contains(last));
        }
    }
}

/// Of the files of a directory that have the same ImageID, the first one is
/// in the catalog.
pub proof fn law_first_file_wins(files: Seq<FileModel>, filter: Option<Seq<char>>, i: int)
    requires
        0 <= i < files.len(),
        image_in(files[i], filter) is Some,
        forall|j: int|
            0 <= j < i ==> (image_in(#[trigger] files[j], filter) matches Some(other) ==> other.id
                != image_in(files[i], filter)->0.id),
    ensures
        directory_images(files, filter).dom().contains(image_in(files[i], filter)->0.id),
        directory_images(files, filter)[image_in(files[i], filter)->0.id] == image_in(
            files[i],
            filter,
        )->0,
    decreases files.len(),
{
    let front = files.drop_last();
    let image = image_in(files[i], filter)->0;
    if i < front.len() {
        assert(front[i] == files[i]);
        assert forall|j: int| 0 <= j < i implies (image_in(
            #[trigger] front[j],
            filter,
        ) matches Some(other) ==> other.id != image.id) by {
            assert(front[j] == files[j]);
        }
        law_first_file_wins(front, filter, i);
    } else {
        law_directory_images(front, filter);
        if directory_images(front, filter).dom().contains(image.id) {
            let other = directory_images(front, filter)[image.id];
            let j = choose|j: int|
                0 <= j < front.len() && file_gives(#[trigger] front[j], filter, other);
            assert(files[j] == front[j]);
        }
    }
}

/// Whether `image` is the entry that `file` gives.
pub open spec fn file_gives(file: FileModel, filter: Option<Seq<char>>, image: ImageModel) -> bool {
    image_in(file, filter) == Some(image)
}

/// The catalog of a directory holds, under its own ImageID, an image of some
/// file of the directory, and it holds one for every image file.
pub proof fn law_directory_images(files: Seq<FileModel>, filter: Option<Seq<char>>)
    ensures
        is_keyed(directory_images(files, filter)),
        forall|id: ImageId| #[trigger]
            directory_images(files, filter).dom().contains(id) ==> exists|j: int|
                0 <= j < files.len() && file_gives(
                    #[trigger] files[j],
                    filter,
                    directory_images(files, filter)[id],
                ),
        forall|j: int|
            0 <= j < files.len() ==> (image_in(#[trigger] files[j], filter) matches Some(image)
                ==> directory_images(files, filter).dom().contains(image.id)),
    decreases files.len(),
{
    if files.len() > 0 {
        let front = files.drop_last();
        let all = directory_images(files, filter);
        law_directory_images(front, filter);
        assert forall|id: ImageId| #[trigger] all.dom().contains(id) implies exists|j: int|
            0 <= j < files.len() && file_gives(#[trigger] files[j], filter, all[id]) by {
            if directory_images(front, filter).dom().contains(id) {
                let j = choose|j: int|
                    0 <= j < front.len() && file_gives(
                        #[trigger] front[j],
                        filter,
                        directory_images(front, filter)[id],
                    );
                assert(files[j] == front[j]);
                assert(file_gives(files[j], filter, all[id]));
            } else {
                assert(file_gives(files[files.len() - 1], filter, all[id]));
            }
        }
        assert forall|j: int| 0 <= j < files.len() implies (image_in(
            #[trigger] files[j],
            filter,
        ) matches Some(image) ==> all.dom().contains(image.id)) by {
            if j < front.len() {
                assert(files[j] == front[j]);
            }
        }
    }
}

impl ImageCatalog {
    /// The images as a mathematical map.
    pub open spec fn model(&self) -> Map<ImageId, ImageModel> {
        self.images@.map_values(|m: ImageMetadata| m@)
    }

    /// The order in which the images are listed.
    pub open spec fn order(&self) -> Seq<ImageId> {
        self.cached_sorted@
    }

    /// Every image stands under its own ImageID, and the order lists every
    /// image once, by file name.
    pub open spec fn wf(&self) -> bool {
        is_keyed(self.model()) && is_listing(self.model(), self.order())
    }

    /// A catalog without images.
    pub fn new_empty() -> (catalog: Self)
        ensures
            catalog.wf(),
            catalog.model() == Map::<ImageId, ImageModel>::empty(),
            catalog.order() == Seq::<ImageId>::empty(),
    {
        let catalog = ImageCatalog {
            images: HashMap::new(),
            cached_sorted: SortedIds { ids: Vec::new() },
        };
        proof {
            assert(catalog.model() =~= Map::<ImageId, ImageModel>::empty());
        }
        catalog
    }

    /// The catalog of the default image directory, whose files are given;
    /// `None` stands for a directory that cannot be read.
    pub fn new(images_dir: Option<Vec<DirFile>>) -> (catalog: Self)
        ensures
            catalog.wf(),
            match images_dir {
                Some(files) => catalog.model() == directory_images(file_models(files@), None),
                None => catalog.model() == Map::<ImageId, ImageModel>::empty(),
            },
    {
        Self::from_dir(images_dir, None)
    }

    /// The catalog of an image directory, whose files are given; `None`
    /// stands for a directory that cannot be read. Only image files whose
    /// name holds `name_contains` are taken.
    pub fn from_dir(images_dir: Option<Vec<DirFile>>, name_contains: Option<&str>) -> (catalog: Self)
        ensures
            catalog.wf(),
            match images_dir {
                Some(files) => catalog.model() == directory_images(
                    file_models(files@),
                    opt_text(name_contains),
                ),
                None => catalog.model() == Map::<ImageId, ImageModel>::empty(),
            },
    {
        let mut catalog = Self::new_empty();
        let files: Vec<DirFile> = match images_dir {
            Some(files) => files,
            None => return catalog,
        };
        let ghost models = file_models(files@);
        let ghost filter = opt_text(name_contains);
        proof {
            assert(models.take(0) =~= Seq::<FileModel>::empty());
        }
        for file in it: files
            invariant
                file_models(it.seq()) == models,
                filter == opt_text(name_contains),
                is_keyed(catalog.model()),
                catalog.model() == directory_images(models.take(it.index() as int), filter),
        {
            proof {
                assert(models[it.index() as int] == file@);
                assert(models.take(it.index() + 1).drop_last() =~= models.take(it.index() as int));
            }
            catalog.load_file(file, name_contains);
        }
        proof {
            assert(models.take(models.len() as int) =~= models);
        }
        catalog.rebuild_sorted();
        catalog
    }

    /// The file type of the file at `path` if it belongs into a catalog of
    /// files whose name holds `name_contains`. Other files need not be read.
    pub fn wanted_file(path: &str, name_contains: Option<&str>) -> (r: Option<u8>)
        ensures
            r == wanted_type(path@, opt_text(name_contains)),
            r matches Some(t) ==> t < 5,
    {
        let path = chars_of(path);
        let name = file_name(&path);
        if let Some(filter) = name_contains {
            if !contains(&to_lowered(name), &to_lowered(&chars_of(filter))) {
                return None;
            }
        }
        let ext = extension(name);
        proof {
            assert(lowered(Seq::<char>::empty()) =~= Seq::<char>::empty());
        }
        if is_word(ext, "png") {
            Some(0)
        } else if is_word(ext, "jpg") || is_word(ext, "jpeg") {
            Some(1)
        } else if is_word(ext, "webp") {
            Some(2)
        } else if is_word(ext, "bmp") {
            Some(3)
        } else if is_word(ext, "gif") {
            Some(4)
        } else {
            None
        }
    }

    /// Takes in one file of a directory. The order is not brought up to date:
    /// `rebuild_sorted` does that once all files are in.
    pub fn load_file(&mut self, file: DirFile, name_contains: Option<&str>) -> (r: Loaded)
        requires
            is_keyed(old(self).model()),
        ensures
            is_keyed(final(self).model()),
            final(self).model() == with_file(old(self).model(), file@, opt_text(name_contains)),
            final(self).order() == old(self).order(),
            r == (match image_in(file@, opt_text(name_contains)) {
                Some(image) => if old(self).model().dom().contains(image.id) {
                    Loaded::Collision(image.id)
                } else {
                    Loaded::Added(image.id)
                },
                None => Loaded::Skipped,
            }),
    {
        let file_type: u8 = match Self::wanted_file(&file.path, name_contains) {
            Some(file_type) => file_type,
            None => return Loaded::Skipped,
        };
        let content = match file.content {
            Some(content) => content,
            None => return Loaded::Skipped,
        };
        let id: u64 = compute_image_id(&content);
        if self.images.contains_key(&id) {
            return Loaded::Collision(id);
        }
        let flags: u8 = flags_from_file_type(file_type);
        let ghost bytes = content@;
        let cached_data = if content.len() <= SIZE_THRESHOLD_LARGE {
            Some(Arc::new(content))
        } else {
            None
        };
        let meta = ImageMetadata { id, flags, file_name: file.path, cached_data };
        let ghost model = meta@;
        self.images.insert(id, meta);
        proof {
            assert(model == image_of_file(file@.path, file_type, bytes));
            assert(self.model() =~= old(self).model().insert(id, model));
        }
        Loaded::Added(id)
    }

    /// Adds one image and brings the order up to date. An image whose ImageID
    /// is taken is dropped; the result then is that ImageID if `verbose`
    /// asks for it, so that the collision can be logged.
    pub fn add_image(&mut self, meta: ImageMetadata, verbose: bool) -> (collision: Option<ImageId>)
        requires
            is_keyed(old(self).model()),
        ensures
            final(self).wf(),
            final(self).model() == if old(self).model().dom().contains(meta.id) {
                old(self).model()
            } else {
                old(self).model().insert(meta.id, meta@)
            },
            collision == if verbose && old(self).model().dom().contains(meta.id) {
                Some(meta.id)
            } else {
                None
            },
    {
        let id: u64 = meta.id;
        let taken = self.images.contains_key(&id);
        if !taken {
            let ghost model = meta@;
            self.images.insert(id, meta);
            proof {
                assert(self.model() =~= old(self).model().insert(id, model));
            }
        }
        self.rebuild_sorted();
        if taken && verbose {
            Some(id)
        } else {
            None
        }
    }

    /// Brings the order up to date with the images.
    pub fn rebuild_sorted(&mut self)
        requires
            is_keyed(old(self).model()),
        ensures
            final(self).wf(),
            final(self).model() == old(self).model(),
    {
        let ids = self.list_images();
        let mut entries: Vec<Entry> = Vec::new();
        let mut i: usize = 0;
        while i < ids.len()
            invariant
                i <= ids@.len(),
                entries@.len() == i,
                ids@.no_duplicates(),
                forall|id: ImageId| ids@.contains(id) <==> self.model().dom().contains(id),
                forall|k: int|
                    0 <= k < i ==> (#[trigger] entries@[k])@ == sort_key(self.model(), ids@[k]),
            decreases ids@.len() - i,
        {
            let id: u64 = ids[i];
            proof {
                assert(ids@.contains(id));
            }
            let name = match self.images.get(&id) {
                Some(meta) => {
                    let path = chars_of(&meta.file_name);
                    let base = file_name(&path);
                    let mut name: Vec<char> = Vec::new();
                    name.extend_from_slice(base);
                    proof {
                        assert(name@ =~= base@);
                    }
                    name
                },
                None => Vec::new(),
            };
            entries.push(Entry { name, id });
            i = i + 1;
        }
        proof {
            assert forall|a: int, b: int| 0 <= a < b < entries@.len() implies entries@[a].id
                != entries@[b].id by {
                assert(entries@[a]@ == sort_key(self.model(), ids@[a]));
                assert(entries@[b]@ == sort_key(self.model(), ids@[b]));
            }
        }
        let order = sort_entries(&entries);
        let mut sorted: Vec<ImageId> = Vec::new();
        let mut k: usize = 0;
        while k < order.len()
            invariant
                k <= order@.len(),
                sorted@.len() == k,
                forall|j: int| 0 <= j < order@.len() ==> #[trigger] order@[j] < entries@.len(),
                forall|j: int| 0 <= j < k ==> sorted@[j] == entries@[order@[j] as int].id,
            decreases order@.len() - k,
        {
            sorted.push(entries[order[k]].id);
            k = k + 1;
        }
        proof {
            let model = self.model();
            assert forall|a: int, b: int| 0 <= a < b < sorted@.len() implies entry_less(
                sort_key(model, #[trigger] sorted@[a]),
                sort_key(model, #[trigger] sorted@[b]),
            ) && sorted@[a] != sorted@[b] by {
                let x = entries@[order@[a] as int]@;
                let y = entries@[order@[b] as int]@;
                assert(entry_less(x, y));
                assert(x == sort_key(model, sorted@[a]));
                assert(y == sort_key(model, sorted@[b]));
                law_entries_ordered(x, y);
            }
            assert forall|id: ImageId| sorted@.contains(id) <==> model.dom().contains(id) by {
                if sorted@.contains(id) {
                    let j = choose|j: int| 0 <= j < sorted@.len() && sorted@[j] == id;
                    let p = order@[j] as int;
                    assert(entries@[p]@ == sort_key(model, ids@[p]));
                    assert(ids@.contains(ids@[p]));
                }
                if model.dom().contains(id) {
                    assert(ids@.contains(id));
                    let p = choose|p: int| 0 <= p < ids@.len() && ids@[p] == id;
                    assert(entries@[p]@ == sort_key(model, ids@[p]));
                    assert(order@.contains(p as usize));
                    let j = choose|j: int| 0 <= j < order@.len() && order@[j] == p as usize;
                    assert(sorted@[j] == id);
                }
            }
        }
        self.cached_sorted = SortedIds { ids: sorted };
    }

    /// Takes over the images of `rescanned` that are new, brings the order up
    /// to date, and returns the ImageIDs of the new images in the order of
    /// their names. Images that are there already stay as they are.
    pub fn add_new_images(&mut self, rescanned: ImageCatalog) -> (fresh: Vec<ImageId>)
        requires
            is_keyed(old(self).model()),
            rescanned.wf(),
        ensures
            final(self).wf(),
            final(self).model() == rescanned.model().union_prefer_right(old(self).model()),
            fresh@ == fresh_ids(old(self).model(), rescanned.order()),
    {
        let mut rescanned = rescanned;
        let ghost had = self.model();
        let ghost found = rescanned.model();
        let ghost order = rescanned.order();
        let mut fresh: Vec<ImageId> = Vec::new();
        let n: usize = rescanned.cached_sorted.ids.len();
        let mut i: usize = 0;
        proof {
            assert(order.take(0) =~= Seq::<ImageId>::empty());
            assert forall|k: int| 0 <= k < n implies found.dom().contains(#[trigger] order[k]) by {
                assert(order.contains(order[k]));
            }
        }
        while i < n
            invariant
                i <= n == order.len(),
                is_keyed(had),
                is_keyed(found),
                is_listing(found, order),
                rescanned.cached_sorted@ == order,
                fresh@ == fresh_ids(had, order.take(i as int)),
                forall|id: ImageId|
                    self.model().dom().contains(id) <==> had.dom().contains(id) || order.take(
                        i as int,
                    ).contains(id),
                forall|id: ImageId| #[trigger]
                    self.model().dom().contains(id) ==> self.model()[id] == if had.dom().contains(id) {
                        had[id]
                    } else {
                        found[id]
                    },
                forall|k: int|
                    i <= k < n ==> rescanned.model().dom().contains(#[trigger] order[k])
                        && rescanned.model()[order[k]] == found[order[k]],
            decreases n - i,
        {
            let id: u64 = rescanned.cached_sorted.ids[i];
            let ghost left = rescanned.model();
            let ghost have = self.model();
            let ghost next = order.take(i + 1);
            proof {
                assert(next.drop_last() =~= order.take(i as int));
                assert(next.last() == id);
                assert(order[i as int] == id);
                assert(order.contains(id));
                assert(left.dom().contains(id));
                assert(!order.take(i as int).contains(id)) by {
                    if order.take(i as int).contains(id) {
                        let k = choose|k: int| 0 <= k < i && order.take(i as int)[k] == id;
                        assert(order[k] == order[i as int]);
                    }
                }
                assert forall|x: ImageId| next.contains(x) <==> order.take(i as int).contains(x) || x
                    == id by {
                    if order.take(i as int).contains(x) {
                        let k = choose|k: int| 0 <= k < i && order.take(i as int)[k] == x;
                        assert(next[k] == x);
                    }
                    assert(next[i as int] == id);
                    if next.contains(x) && x != id {
                        let k = choose|k: int| 0 <= k < next.len() && next[k] == x;
                        assert(order.take(i as int)[k] == x);
                    }
                }
            }
            if !self.images.contains_key(&id) {
                if let Some(meta) = rescanned.images.remove(&id) {
                    let ghost model = meta@;
                    self.images.insert(id, meta);
                    fresh.push(id);
                    proof {
                        assert(model == left[id]);
                        assert(self.model() =~= have.insert(id, model));
                        assert(rescanned.model() =~= left.remove(id));
                        assert forall|k: int| i < k < n implies order[k] != id by {
                            assert(order[i as int] == id);
                        }
                    }
                }
            }
            proof {
                assert forall|x: ImageId|
                    self.model().dom().contains(x) <==> had.dom().contains(x) || next.contains(
                        x,
                    ) by {
                    assert(have.dom().contains(x) <==> had.dom().contains(x) || order.take(
                        i as int,
                    ).contains(x));
                }
            }
            i = i + 1;
        }
        proof {
            assert(order.take(n as int) =~= order);
            assert(self.model() =~= found.union_prefer_right(had)) by {
                assert forall|id: ImageId| self.model().dom().contains(id) == (found.dom().contains(
                    id,
                ) || had.dom().contains(id)) by {
                    assert(order.contains(id) <==> found.dom().contains(id));
                }
            }
        }
        self.rebuild_sorted();
        fresh
    }

    /// The image with this ImageID.
    pub fn get_metadata(&self, id: &ImageId) -> (r: Option<&ImageMetadata>)
        ensures
            match r {
                Some(meta) => {
                    &&& self.model().dom().contains(*id)
                    &&& *meta == self.images@[*id]
                    &&& meta@ == self.model()[*id]
                },
                None => !self.model().dom().contains(*id),
            },
    {
        self.images.get(id)
    }

    /// The ImageIDs of all images, each once, in no particular order.
    pub fn list_images(&self) -> (ids: Vec<ImageId>)
        ensures
            ids@.no_duplicates(),
            forall|id: ImageId| ids@.contains(id) <==> self.model().dom().contains(id),
    {
        let mut ids: Vec<ImageId> = Vec::new();
        for id in it: self.images.keys()
            invariant
                it.seq().unref().to_set() == self.images@.dom(),
                it.seq().no_duplicates(),
                ids@ == it.seq().unref().take(it.index() as int),
                it.index() == it.seq().len() ==> ids@.to_set() == self.images@.dom(),
        {
            ids.push(*id);
            proof {
                assert(ids@ =~= it.seq().unref().take(it.index() + 1));
                assert(it.index() + 1 == it.seq().len() ==> ids@ =~= it.seq().unref());
            }
        }
        proof {
            assert forall|id: ImageId| ids@.contains(id) <==> self.model().dom().contains(id) by {
                assert(ids@.contains(id) <==> ids@.to_set().contains(id));
            }
        }
        ids
    }

    /// The ImageIDs of all images, ordered by file name.
    pub fn sorted_ids(&self) -> (ids: &[ImageId])
        ensures
            ids@ == self.order(),
    {
        &self.cached_sorted.ids
    }
}

/// The file type of a file is the one that its extension says, in any ASCII
/// case and whatever precedes it: 0 for `png`, 1 for `jpg` and `jpeg`, 2 for
/// `webp`, 3 for `bmp` and 4 for `gif`. Other files have none.
pub proof fn law_file_type_by_extension(dir: Seq<char>, stem: Seq<char>, ext: Seq<char>)
    requires
        stem.len() > 0,
        !stem.contains('/'),
        !ext.contains('/'),
        !ext.contains('.'),
        ext.len() > 0,
    ensures
        ({
            let name = stem.push('.') + ext;
            let path = dir.push('/') + name;
            let word = lowered(ext);
            &&& file_type_of(path) == file_type_of(name)
            &&& word == seq!['p', 'n', 'g'] ==> file_type_of(path) == Some(0u8)
            &&& word == seq!['j', 'p', 'g'] ==> file_type_of(path) == Some(1u8)
            &&& word == seq!['j', 'p', 'e', 'g'] ==> file_type_of(path) == Some(1u8)
            &&& word == seq!['w', 'e', 'b', 'p'] ==> file_type_of(path) == Some(2u8)
            &&& word == seq!['b', 'm', 'p'] ==> file_type_of(path) == Some(3u8)
            &&& word == seq!['g', 'i', 'f'] ==> file_type_of(path) == Some(4u8)
            &&& word != seq!['p', 'n', 'g'] && word != seq!['j', 'p', 'g'] && word != seq![
                'j',
                'p',
                'e',
                'g',
            ] && word != seq!['w', 'e', 'b', 'p'] && word != seq!['b', 'm', 'p'] && word != seq![
                'g',
                'i',
                'f',
            ] ==> file_type_of(path) is None
        }),
{
    let name = stem.push('.') + ext;
    lemma_extension_words();
    law_extension_of(stem, ext);
    assert(is_file_name(name)) by {
        if name.contains('/') {
            let i = choose|i: int| 0 <= i < name.len() && name[i] == '/';
            if i < stem.len() {
                assert(stem[i] == '/');
            } else if i > stem.len() {
                assert(ext[i - stem.len() - 1] == '/');
            }
        }
        assert(name.len() >= 3);
    }
    law_name_of(dir, name);
}

/// A file whose name has no extension has no file type.
pub proof fn law_no_extension_no_type(path: Seq<char>)
    requires
        extension_of(name_of(path)) is None,
    ensures
        file_type_of(path) is None,
{
    lemma_extension_words();
}

proof fn lemma_extension_words()
    ensures
        "png"@ == seq!['p', 'n', 'g'],
        "jpg"@ == seq!['j', 'p', 'g'],
        "jpeg"@ == seq!['j', 'p', 'e', 'g'],
        "webp"@ == seq!['w', 'e', 'b', 'p'],
        "bmp"@ == seq!['b', 'm', 'p'],
        "gif"@ == seq!['g', 'i', 'f'],
        "png"@[0] == 'p' && "png"@.len() == 3,
        "jpg"@[0] == 'j' && "jpg"@.len() == 3,
        "jpeg"@.len() == 4 && "jpeg"@[0] == 'j',
        "webp"@[0] == 'w' && "webp"@.len() == 4,
        "bmp"@[0] == 'b' && "bmp"@.len() == 3,
        "gif"@[0] == 'g' && "gif"@.len() == 3,
{
    reveal_strlit("png");
    reveal_strlit("jpg");
    reveal_strlit("jpeg");
    reveal_strlit("webp");
    reveal_strlit("bmp");
    reveal_strlit("gif");
    assert("png"@ =~= seq!['p', 'n', 'g']);
    assert("jpg"@ =~= seq!['j', 'p', 'g']);
    assert("jpeg"@ =~= seq!['j', 'p', 'e', 'g']);
    assert("webp"@ =~= seq!['w', 'e', 'b', 'p']);
    assert("bmp"@ =~= seq!['b', 'm', 'p']);
    assert("gif"@ =~= seq!['g', 'i', 'f']);
}

/// A file gives a catalog entry exactly if it can be read, its extension is
/// that of an image, and its name holds the filter in any ASCII case. The entry
/// has the file type that the extension says and no other flag, the xxHash64
/// of the content as its ImageID, and the path of the file; the content is
/// kept in memory exactly if it is no longer than 1 MiB.
pub proof fn law_entry_of_a_file(file: FileModel, filter: Option<Seq<char>>)
    ensures
        image_in(file, filter) is Some <==> file.content is Some && file_type_of(file.path) is Some
            && (filter matches Some(f) ==> exists|before: Seq<char>, after: Seq<char>|
            lowered(name_of(file.path)) == #[trigger] (before + lowered(f) + after)),
        image_in(file, filter) matches Some(image) ==> {
            let content = file.content.unwrap();
            &&& file_type_of(file.path) == Some(image.flags)
            &&& image.flags < 8
            &&& image.id == xxh64_value(content, 0)
            &&& image.file_name == file.path
            &&& content.len() <= 1024 * 1024 ==> image.cached_data == Some(content)
            &&& content.len() > 1024 * 1024 ==> image.cached_data is None
        },
{
    law_image_id_is_xxhash64(file.content.unwrap());
    if let Some(f) = filter {
        law_occurs_in(lowered(f), lowered(name_of(file.path)));
    }
}

/// A listing has every image once, none before an image whose name comes
/// first.
pub proof fn law_listing(images: Map<ImageId, ImageModel>, ids: Seq<ImageId>)
    requires
        is_listing(images, ids),
    ensures
        forall|i: int, j: int| 0 <= i < j < ids.len() ==> #[trigger] ids[i] != #[trigger] ids[j],
        forall|i: int| 0 <= i < ids.len() ==> images.dom().contains(#[trigger] ids[i]),
        forall|id: ImageId| #[trigger] images.dom().contains(id) ==> exists|i: int|
            0 <= i < ids.len() && ids[i] == id,
        forall|i: int, j: int|
            0 <= i < j < ids.len() ==> !text_less(
                name_of(images[#[trigger] ids[j]].file_name),
                name_of(images[#[trigger] ids[i]].file_name),
            ),
{
    assert forall|i: int| 0 <= i < ids.len() implies images.dom().contains(#[trigger] ids[i]) by {
        assert(ids.contains(ids[i]));
    }
    assert forall|id: ImageId| #[trigger] images.dom().contains(id) implies exists|i: int|
        0 <= i < ids.len() && ids[i] == id by {
        assert(ids.contains(id));
    }
    assert forall|i: int, j: int| 0 <= i < j < ids.len() implies !text_less(
        name_of(images[#[trigger] ids[j]].file_name),
        name_of(images[#[trigger] ids[i]].file_name),
    ) by {
        let a = sort_key(images, ids[i]);
        let b = sort_key(images, ids[j]);
        assert(entry_less(a, b));
        law_entries_ordered(a, b);
        law_entries_by_name(a, b);
        law_entries_by_name(b, a);
        if a.0 == b.0 && text_less(b.0, a.0) {
            assert(entry_less(b, a));
        }
    }
}

/// What is new in two lists one after the other is what is new in the first,
/// then what is new in the second; of one ImageID, it is that one if it is not
/// there yet.
pub proof fn law_fresh_ids_in_order(
    images: Map<ImageId, ImageModel>,
    a: Seq<ImageId>,
    b: Seq<ImageId>,
    id: ImageId,
)
    ensures
        fresh_ids(images, a + b) == fresh_ids(images, a) + fresh_ids(images, b),
        fresh_ids(images, seq![id]) == if images.dom().contains(id) {
            Seq::<ImageId>::empty()
        } else {
            seq![id]
        },
    decreases b.len(),
{
    reveal_with_fuel(fresh_ids, 2);
    assert(seq![id].drop_last() =~= Seq::<ImageId>::empty());
    assert(fresh_ids(images, seq![id]) =~= if images.dom().contains(id) {
        Seq::<ImageId>::empty()
    } else {
        seq![id]
    });
    if b.len() == 0 {
        assert(a + b =~= a);
        assert(fresh_ids(images, a) + fresh_ids(images, b) =~= fresh_ids(images, a));
    } else {
        law_fresh_ids_in_order(images, a, b.drop_last(), id);
        assert((a + b).drop_last() =~= a + b.drop_last());
        assert(fresh_ids(images, a + b) =~= fresh_ids(images, a) + fresh_ids(images, b));
    }
}

/// The models of files and images say all that they hold, and the models of
/// several files are those of each of them, in their order.
pub proof fn law_catalog_models(
    file: DirFile,
    files: Seq<DirFile>,
    meta: ImageMetadata,
    filter: Option<&str>,
)
    ensures
        file@.path == file.path@,
        file.content matches Some(content) ==> file@.content == Some(content@),
        file.content is None ==> file@.content is None,
        file_models(files).len() == files.len(),
        forall|i: int| 0 <= i < files.len() ==> #[trigger] file_models(files)[i] == files[i]@,
        meta@.id == meta.id,
        meta@.flags == meta.flags,
        meta@.file_name == meta.file_name@,
        meta.cached_data matches Some(data) ==> meta@.cached_data == Some(data@),
        meta.cached_data is None ==> meta@.cached_data is None,
        filter matches Some(text) ==> opt_text(filter) == Some(text@),
        filter is None ==> opt_text(filter) is None,
{
}

/// A well-formed catalog lists exactly the images that it holds, each under its
/// own ImageID.
pub proof fn law_well_formed(catalog: ImageCatalog, id: ImageId)
    ensures
        catalog.model().dom().contains(id) <==> catalog.images@.dom().contains(id),
        catalog.images@.dom().contains(id) ==> catalog.model()[id] == catalog.images@[id]@,
        catalog.wf() ==> is_listing(catalog.model(), catalog.order()),
        catalog.wf() && catalog.model().dom().contains(id) ==> catalog.model()[id].id == id
            && catalog.order().contains(id),
        catalog.wf() && catalog.order().contains(id) ==> catalog.model().dom().contains(id),
        catalog.order() == catalog.cached_sorted@,
{
}

/// Taking in a file changes at most what the catalog holds under the ImageID of
/// its image, and that only if nothing is there yet.
pub proof fn law_with_file(
    images: Map<ImageId, ImageModel>,
    file: FileModel,
    filter: Option<Seq<char>>,
    id: ImageId,
)
    ensures
        ({
            let after = with_file(images, file, filter);
            &&& images.dom().contains(id) ==> after.dom().contains(id) && after[id] == images[id]
            &&& !images.dom().contains(id) ==> (after.dom().contains(id) <==> (image_in(
                file,
                filter,
            ) matches Some(image) && image.id == id))
            &&& !images.dom().contains(id) && after.dom().contains(id) ==> image_in(file, filter)
                == Some(after[id])
        }),
{
}

} // verus!
