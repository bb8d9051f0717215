//! The item catalogue: the weapons, gadgets and specializations of each class,
//! per game mode.

use vello_cpu::{Pixmap, Resources};
use vstd::prelude::*;

use crate::text::{comma_pieces, split_commas, str_equals};
use crate::Gamemode;

verus! {

/// One weapon, gadget or specialization: the id of its registered image and
/// its display name.
#[derive(Clone, Copy, Debug)]
pub struct Item {
    pub image: u32,
    pub name: &'static str,
}

impl Item {
    /// The placeholder item: image 0 and an empty name.
    pub fn null() -> (item: Self)
        ensures
            item.image == 0,
            item.name@.len() == 0,
    {
        let name = "";
        proof {
            reveal_strlit("");
        }
        Item { image: 0, name }
    }
}

/// The items available to one class.
pub struct Class {
    pub weapons: Vec<Item>,
    pub gadgets: Vec<Item>,
    pub specials: Vec<Item>,
}

impl Default for Class {
    fn default() -> (class: Self)
        ensures
            class.weapons@.len() == 0,
            class.gadgets@.len() == 0,
            class.specials@.len() == 0,
    {
        Class { weapons: Vec::new(), gadgets: Vec::new(), specials: Vec::new() }
    }
}

/// The three classes (light, medium, heavy) for every game mode.
pub struct Dataset {
    classes_any: [Class; 3],
    classes_melee: [Class; 3],
    classes_shotgun: [Class; 3],
    classes_auto: [Class; 3],
    classes_semi: [Class; 3],
    classes_bombs: [Class; 3],
}

/// Three classes with no items.
pub fn empty_classes() -> (classes: [Class; 3])
    ensures
        forall|c: int|
            0 <= c < 3 ==> {
                &&& (#[trigger] classes@[c]).weapons@.len() == 0
                &&& classes@[c].gadgets@.len() == 0
                &&& classes@[c].specials@.len() == 0
            },
{
    [Class::default(), Class::default(), Class::default()]
}

impl Dataset {
    /// The classes that `mode` selects.
    pub closed spec fn classes(self, mode: Gamemode) -> [Class; 3] {
        match mode {
            Gamemode::Any => self.classes_any,
            Gamemode::Melee => self.classes_melee,
            Gamemode::Shotgun => self.classes_shotgun,
            Gamemode::Auto => self.classes_auto,
            Gamemode::Semi => self.classes_semi,
            Gamemode::Bombs => self.classes_bombs,
        }
    }

    /// A dataset whose classes hold no items, in every mode.
    pub fn empty() -> (dataset: Self)
        ensures
            forall|m: Gamemode, c: int|
                0 <= c < 3 ==> {
                    &&& (#[trigger] dataset.classes(m)@[c]).weapons@.len() == 0
                    &&& dataset.classes(m)@[c].gadgets@.len() == 0
                    &&& dataset.classes(m)@[c].specials@.len() == 0
                },
    {
        Dataset {
            classes_any: empty_classes(),
            classes_melee: empty_classes(),
            classes_shotgun: empty_classes(),
            classes_auto: empty_classes(),
            classes_semi: empty_classes(),
            classes_bombs: empty_classes(),
        }
    }

    /// The classes of `mode`.
    pub fn class(&self, mode: Gamemode) -> (classes: &[Class; 3])
        ensures
            *classes == self.classes(mode),
    {
        match mode {
            Gamemode::Any => &self.classes_any,
            Gamemode::Melee => &self.classes_melee,
            Gamemode::Shotgun => &self.classes_shotgun,
            Gamemode::Auto => &self.classes_auto,
            Gamemode::Semi => &self.classes_semi,
            Gamemode::Bombs => &self.classes_bombs,
        }
    }

    /// The classes of `mode`, for changing them; the other modes stay as they are.
    pub fn class_mut(&mut self, mode: Gamemode) -> (classes: &mut [Class; 3])
        ensures
            *classes == old(self).classes(mode),
            final(self).classes(mode) == *final(classes),
            forall|m: Gamemode| m != mode ==> final(self).classes(m) == old(self).classes(m),
    {
        match mode {
            Gamemode::Any => &mut self.classes_any,
            Gamemode::Melee => &mut self.classes_melee,
            Gamemode::Shotgun => &mut self.classes_shotgun,
            Gamemode::Auto => &mut self.classes_auto,
            Gamemode::Semi => &mut self.classes_semi,
            Gamemode::Bombs => &mut self.classes_bombs,
        }
    }
}

/// The three classes.
#[derive(Clone, Copy, PartialEq, Eq, Structural, Debug)]
pub enum ClassKind {
    Light,
    Medium,
    Heavy,
}

impl ClassKind {
    /// The class's index into a `[Class; 3]`.
    pub open spec fn spec_id(self) -> int {
        match self {
            ClassKind::Light => 0,
            ClassKind::Medium => 1,
            ClassKind::Heavy => 2,
        }
    }

    pub fn id(self) -> (id: usize)
        ensures
            id == self.spec_id(),
            id < 3,
    {
        match self {
            ClassKind::Light => 0,
            ClassKind::Medium => 1,
            ClassKind::Heavy => 2,
        }
    }
}

#[verifier::external_type_specification]
#[verifier::external_body]
pub struct ExResources(Resources);

#[verifier::external_type_specification]
#[verifier::external_body]
pub struct ExPixmap(Pixmap);

/// The pictures that a `Resources` registry holds, by image id.
pub uninterp spec fn registered_pictures(resources: Resources) -> Map<u32, Pixmap>;

/// The ids of the pictures that a registry holds.
pub open spec fn registered_images(resources: Resources) -> Set<u32> {
    registered_pictures(resources).dom()
}

/// The id that the registry gives to the next image registered.
pub uninterp spec fn next_image_id(resources: Resources) -> u32;

/// The first id the registry keeps for its own glyph atlas pages; ordinary
/// images must stay below it.
pub const IMAGE_ID_LIMIT: u32 = 0x7fff_ffff;

/// Calls `Resources::new`. Claimed: the registry holds no image and its next
/// id is 0 (its image registry starts from `Default`: an empty map and a zero
/// counter).
#[verifier::external_body]
pub fn new_resources() -> (resources: Resources)
    ensures
        registered_pictures(resources).dom() == Set::<u32>::empty(),
        next_image_id(resources) == 0,
{
    Resources::new()
}

/// Calls `Resources::register_image` with the pixmap behind an `Arc` and gives
/// back the raw value of the `ImageId`. Claimed: the id is the registry's next
/// id, the registry now holds the given picture under it (and all others as
/// before), and its next id is one more (the registry panics once the counter
/// reaches `IMAGE_ID_LIMIT`, so that is excluded).
#[verifier::external_body]
fn register_image(resources: &mut Resources, pixmap: Pixmap) -> (id: u32)
    requires
        next_image_id(*old(resources)) < IMAGE_ID_LIMIT,
    ensures
        id == next_image_id(*old(resources)),
        next_image_id(*final(resources)) == id + 1,
        registered_pictures(*final(resources)) == registered_pictures(*old(resources)).insert(id, pixmap),
{
    resources.register_image(std::sync::Arc::new(pixmap)).as_u32()
}

/// The picture of an item: not loaded yet, loaded, or registered under an id.
pub enum LoadedImage {
    Missing,
    Image(Pixmap),
    Id(u32),
}

/// The picture that the PNG file `data` decodes to, or `None` where it does
/// not decode.
pub uninterp spec fn png_picture(data: Seq<u8>) -> Option<Pixmap>;

/// Whether `data` is a PNG file that decodes to a picture.
pub open spec fn png_decodes(data: Seq<u8>) -> bool {
    png_picture(data) is Some
}

/// Calls `Pixmap::from_png` on the bytes and keeps the picture when decoding
/// succeeds. Claimed: the result is `png_picture(data)`, a function of the
/// bytes alone (decoding reads nothing else); what the picture holds is not
/// stated.
#[verifier::external_body]
fn decode_png(data: &[u8]) -> (pixmap: Option<Pixmap>)
    ensures
        pixmap == png_picture(data@),
{
    Pixmap::from_png(std::io::Cursor::new(data)).ok()
}

/// The loaded picture of an item from the bytes of its PNG file, if they
/// decode.
pub fn load_entry_image(data: &[u8]) -> (loaded: Option<LoadedImage>)
    ensures
        loaded is Some <==> png_decodes(data@),
        loaded == (match png_picture(data@) {
            Option::Some(p) => Option::Some(LoadedImage::Image(p)),
            Option::None => Option::None,
        }),
{
    match decode_png(data) {
        Some(pixmap) => Some(LoadedImage::Image(pixmap)),
        None => None,
    }
}

/// The part of `url` after its last slash (all of it without a slash).
pub open spec fn last_slash_piece(url: Seq<char>) -> Seq<char>
    decreases url.len(),
{
    if url.len() == 0 {
        Seq::empty()
    } else if url.last() == '/' {
        Seq::empty()
    } else {
        last_slash_piece(url.drop_last()).push(url.last())
    }
}

/// The name under which an item's picture is cached: the part of its URL
/// after the last slash.
pub fn cache_file_name(url: &str) -> (name: &str)
    ensures
        name@ == last_slash_piece(url@),
{
    let n = url.unicode_len();
    let mut start: usize = n;
    assert(url@.subrange(n as int, n as int) =~= Seq::<char>::empty());
    assert(url@.take(n as int) =~= url@);
    assert(last_slash_piece(url@) + url@.subrange(n as int, n as int) =~= last_slash_piece(url@));
    while start > 0 && url.get_char(start - 1) != '/'
        invariant
            n == url@.len(),
            start <= n,
            forall|j: int| start <= j < n ==> url@[j] != '/',
            last_slash_piece(url@) == last_slash_piece(url@.take(start as int)) + url@.subrange(start as int, n as int),
        decreases start,
    {
        let ghost t = url@.take(start as int);
        assert(t.drop_last() =~= url@.take(start - 1));
        assert(t.last() == url@[start - 1]);
        assert(url@.subrange(start - 1, n as int) =~= seq![url@[start - 1]] + url@.subrange(start as int, n as int));
        assert(last_slash_piece(t) == last_slash_piece(url@.take(start - 1)).push(url@[start - 1]));
        assert(last_slash_piece(url@.take(start - 1)).push(url@[start - 1]) + url@.subrange(start as int, n as int)
            =~= last_slash_piece(url@.take(start - 1)) + url@.subrange(start - 1, n as int));
        start = start - 1;
    }
    proof {
        let t = url@.take(start as int);
        if start > 0 {
            assert(t.last() == '/');
        } else {
            assert(t =~= Seq::<char>::empty());
        }
        assert(last_slash_piece(t) =~= Seq::<char>::empty());
        assert(last_slash_piece(url@) =~= url@.subrange(start as int, n as int));
    }
    url.substring_char(start, n)
}

/// One item as the catalogue file describes it.
pub struct EntryDesc {
    pub hr_img_url: &'static str,
    pub kind: Gamemode,
    pub loaded: LoadedImage,
}

/// The items of one or more classes as the catalogue file describes them,
/// each with its name.
pub struct ClassDesc {
    pub weapons: Vec<(&'static str, EntryDesc)>,
    pub gadgets: Vec<(&'static str, EntryDesc)>,
    pub specializations: Vec<(&'static str, EntryDesc)>,
}

/// An item of kind `kind` belongs to the classes built with `filter`: every
/// item without a filter, else the items of that kind.
pub open spec fn passes(filter: Option<Gamemode>, kind: Gamemode) -> bool {
    match filter {
        Option::None => true,
        Option::Some(f) => f == kind,
    }
}

/// How many of the entries that pass `filter` still hold a loaded picture,
/// i.e. need an id.
pub open spec fn image_count(entries: Seq<(&'static str, EntryDesc)>, filter: Option<Gamemode>) -> int
    decreases entries.len(),
{
    if entries.len() == 0 {
        0
    } else {
        let e = entries.last().1;
        image_count(entries.drop_last(), filter) + if passes(filter, e.kind) && e.loaded is Image {
            1int
        } else {
            0int
        }
    }
}

/// Entry `k` after building with `filter` when the registry's next id was
/// `next`: an entry that passes gets its id, the one it had or, for a loaded
/// picture, the next id after those of the loaded pictures before it; the
/// others stay as they are.
pub open spec fn built_entry(entries: Seq<(&'static str, EntryDesc)>, filter: Option<Gamemode>, k: int, next: int) -> (&'static str, EntryDesc) {
    let (name, e) = entries[k];
    if passes(filter, e.kind) {
        let id = match e.loaded {
            LoadedImage::Id(i) => i,
            _ => (next + image_count(entries.take(k), filter)) as u32,
        };
        (name, EntryDesc { hr_img_url: e.hr_img_url, kind: e.kind, loaded: LoadedImage::Id(id) })
    } else {
        (name, e)
    }
}

/// All entries after building with `filter` from the next id `next`.
pub open spec fn built(entries: Seq<(&'static str, EntryDesc)>, filter: Option<Gamemode>, next: int) -> Seq<(&'static str, EntryDesc)> {
    Seq::new(entries.len(), |k: int| built_entry(entries, filter, k, next))
}

/// The items that registered entries passing `filter` make, in order.
pub open spec fn listed(entries: Seq<(&'static str, EntryDesc)>, filter: Option<Gamemode>) -> Seq<Item>
    decreases entries.len(),
{
    if entries.len() == 0 {
        Seq::empty()
    } else {
        let (name, e) = entries.last();
        let rest = listed(entries.drop_last(), filter);
        match e.loaded {
            LoadedImage::Id(id) => if passes(filter, e.kind) {
                rest.push(Item { image: id, name })
            } else {
                rest
            },
            _ => rest,
        }
    }
}

/// No entry that passes `filter` is without a picture.
pub open spec fn all_loaded(entries: Seq<(&'static str, EntryDesc)>, filter: Option<Gamemode>) -> bool {
    forall|k: int| 0 <= k < entries.len() && passes(filter, (#[trigger] entries[k]).1.kind) ==> !(entries[k].1.loaded is Missing)
}

proof fn lemma_image_count_step(entries: Seq<(&'static str, EntryDesc)>, filter: Option<Gamemode>, k: int)
    requires
        0 <= k < entries.len(),
    ensures
        image_count(entries.take(k + 1), filter) == image_count(entries.take(k), filter) + if passes(filter, entries[k].1.kind)
            && entries[k].1.loaded is Image {
            1int
        } else {
            0int
        },
        image_count(entries.take(k), filter) >= 0,
{
    assert(entries.take(k + 1).drop_last() =~= entries.take(k));
    lemma_image_count_nonneg(entries.take(k), filter);
}

proof fn lemma_image_count_nonneg(entries: Seq<(&'static str, EntryDesc)>, filter: Option<Gamemode>)
    ensures
        image_count(entries, filter) >= 0,
    decreases entries.len(),
{
    if entries.len() > 0 {
        lemma_image_count_nonneg(entries.drop_last(), filter);
    }
}

/// The ids `next`, `next + 1`, ..., `next + count - 1`.
pub open spec fn id_range(next: int, count: int) -> Set<u32> {
    Set::new(|i: u32| next <= i < next + count)
}

/// Two adjacent ranges of ids make one.
pub proof fn lemma_id_range_join(next: int, a: int, b: int)
    requires
        0 <= a,
        0 <= b,
    ensures
        id_range(next, a).union(id_range(next + a, b)) == id_range(next, a + b),
        id_range(next, 0) == Set::<u32>::empty(),
{
    assert(id_range(next, a).union(id_range(next + a, b)) =~= id_range(next, a + b));
    assert(id_range(next, 0) =~= Set::<u32>::empty());
}

/// An entry whose picture was loaded before and that has an id after shows
/// that picture: the registry holds it under the id, which is below `bound`.
pub open spec fn entry_shows(before: EntryDesc, after: EntryDesc, pictures: Map<u32, Pixmap>, bound: int) -> bool {
    match (before.loaded, after.loaded) {
        (LoadedImage::Image(p), LoadedImage::Id(id)) => id < bound && pictures.contains_key(id) && pictures[id] == p,
        _ => true,
    }
}

/// Every entry shows the picture it had loaded (see `entry_shows`).
pub open spec fn shows_pictures(
    before: Seq<(&'static str, EntryDesc)>,
    after: Seq<(&'static str, EntryDesc)>,
    pictures: Map<u32, Pixmap>,
    bound: int,
) -> bool {
    forall|k: int| 0 <= k < before.len() && k < after.len() ==> #[trigger] entry_shows(before[k].1, after[k].1, pictures, bound)
}

/// The pictures under the ids below `bound` stay as they were.
pub open spec fn keeps_below(before: Map<u32, Pixmap>, after: Map<u32, Pixmap>, bound: int) -> bool {
    forall|i: u32| i < bound && #[trigger] before.contains_key(i) ==> after.contains_key(i) && after[i] == before[i]
}

/// Pictures kept below a bound stay shown.
pub proof fn lemma_shows_carry(
    before: Seq<(&'static str, EntryDesc)>,
    after: Seq<(&'static str, EntryDesc)>,
    m1: Map<u32, Pixmap>,
    m2: Map<u32, Pixmap>,
    b1: int,
    b2: int,
)
    requires
        shows_pictures(before, after, m1, b1),
        keeps_below(m1, m2, b1),
        b1 <= b2,
    ensures
        shows_pictures(before, after, m2, b2),
{
    assert forall|k: int| 0 <= k < before.len() && k < after.len() implies #[trigger] entry_shows(before[k].1, after[k].1, m2, b2) by {
        assert(entry_shows(before[k].1, after[k].1, m1, b1));
        match (before[k].1.loaded, after[k].1.loaded) {
            (LoadedImage::Image(p), LoadedImage::Id(id)) => {
                assert(m1.contains_key(id));
            },
            _ => {},
        }
    }
}

/// Every entry of each category shows the picture it had loaded.
pub open spec fn desc_shows(before: ClassDesc, after: ClassDesc, pictures: Map<u32, Pixmap>, bound: int) -> bool {
    &&& shows_pictures(before.weapons@, after.weapons@, pictures, bound)
    &&& shows_pictures(before.gadgets@, after.gadgets@, pictures, bound)
    &&& shows_pictures(before.specializations@, after.specializations@, pictures, bound)
}

/// Pictures kept below a bound stay shown, for a whole description.
pub proof fn lemma_desc_shows_carry(
    before: ClassDesc,
    after: ClassDesc,
    m1: Map<u32, Pixmap>,
    m2: Map<u32, Pixmap>,
    b1: int,
    b2: int,
)
    requires
        desc_shows(before, after, m1, b1),
        keeps_below(m1, m2, b1),
        b1 <= b2,
    ensures
        desc_shows(before, after, m2, b2),
{
    lemma_shows_carry(before.weapons@, after.weapons@, m1, m2, b1, b2);
    lemma_shows_carry(before.gadgets@, after.gadgets@, m1, m2, b1, b2);
    lemma_shows_carry(before.specializations@, after.specializations@, m1, m2, b1, b2);
}

/// Keeping pictures below bounds composes.
pub proof fn lemma_keeps_trans(m1: Map<u32, Pixmap>, m2: Map<u32, Pixmap>, m3: Map<u32, Pixmap>, b1: int, b2: int)
    requires
        keeps_below(m1, m2, b1),
        keeps_below(m2, m3, b2),
        b1 <= b2,
    ensures
        keeps_below(m1, m3, b1),
{
    assert forall|i: u32| i < b1 && #[trigger] m1.contains_key(i) implies m3.contains_key(i) && m3[i] == m1[i] by {
        assert(m2.contains_key(i));
    }
}

/// Builds one category: every entry that passes `filter` gets its picture
/// registered (once) and its item appended to `items`.
fn build_category(
    items: &mut Vec<Item>,
    entries: &mut Vec<(&'static str, EntryDesc)>,
    resources: &mut Resources,
    filter: Option<Gamemode>,
)
    requires
        all_loaded(old(entries)@, filter),
        next_image_id(*old(resources)) + image_count(old(entries)@, filter) <= IMAGE_ID_LIMIT,
    ensures
        final(entries)@ == built(old(entries)@, filter, next_image_id(*old(resources)) as int),
        final(items)@ == old(items)@ + listed(final(entries)@, filter),
        next_image_id(*final(resources)) == next_image_id(*old(resources)) + image_count(old(entries)@, filter),
        registered_images(*final(resources)) == registered_images(*old(resources)).union(
            id_range(next_image_id(*old(resources)) as int, image_count(old(entries)@, filter)),
        ),
        shows_pictures(old(entries)@, final(entries)@, registered_pictures(*final(resources)), next_image_id(*final(resources)) as int),
        keeps_below(registered_pictures(*old(resources)), registered_pictures(*final(resources)), next_image_id(*old(resources)) as int),
{
    let ghost next0 = next_image_id(*resources) as int;
    let ghost held0 = registered_images(*resources);
    let ghost pics0 = registered_pictures(*resources);
    let ghost old_entries = entries@;
    let ghost items0 = items@;
    let mut pending: Vec<(&'static str, EntryDesc)> = Vec::new();
    std::mem::swap(entries, &mut pending);
    let mut k: usize = 0;
    let n = pending.len();
    assert(old_entries.skip(0) =~= old_entries);
    assert(old_entries.take(0) =~= Seq::<(&'static str, EntryDesc)>::empty());
    while k < n
        invariant
            n == old_entries.len(),
            k <= n,
            pending@ == old_entries.skip(k as int),
            all_loaded(old_entries, filter),
            entries@ == built(old_entries, filter, next0).take(k as int),
            items@ == items0 + listed(entries@, filter),
            next_image_id(*resources) == next0 + image_count(old_entries.take(k as int), filter),
            registered_images(*resources) == held0.union(id_range(next0, image_count(old_entries.take(k as int), filter))),
            next0 + image_count(old_entries, filter) <= IMAGE_ID_LIMIT,
            shows_pictures(old_entries.take(k as int), entries@, registered_pictures(*resources), next_image_id(*resources) as int),
            keeps_below(pics0, registered_pictures(*resources), next0),
            next0 <= next_image_id(*resources),
        decreases n - k,
    {
        let ghost pics_before = registered_pictures(*resources);
        let ghost next_before = next_image_id(*resources) as int;
        let ghost entries_before = entries@;
        proof {
            lemma_image_count_step(old_entries, filter, k as int);
            lemma_image_count_prefix(old_entries, filter, k + 1);
            let c = image_count(old_entries.take(k as int), filter);
            assert(held0.union(id_range(next0, c)).insert((next0 + c) as u32) =~= held0.union(id_range(next0, c + 1)));
            assert(id_range(next0, c) =~= id_range(next0, c + 0));
        }
        let (name, mut item) = pending.remove(0);
        assert(old_entries.skip(k as int).remove(0) =~= old_entries.skip(k + 1));
        assert(name == old_entries[k as int].0);
        let ghost e = item;
        if match filter {
            Option::Some(f) => f == item.kind,
            Option::None => true,
        } {
            let mut swapped_item = LoadedImage::Missing;
            std::mem::swap(&mut swapped_item, &mut item.loaded);
            assert(swapped_item == e.loaded);
            let item_id = match swapped_item {
                LoadedImage::Image(pixmap) => {
                    let id = register_image(resources, pixmap);
                    assert(entry_shows(e, EntryDesc { hr_img_url: e.hr_img_url, kind: e.kind, loaded: LoadedImage::Id(id) }, registered_pictures(*resources), next_image_id(*resources) as int));
                    id
                },
                LoadedImage::Id(index) => index,
                LoadedImage::Missing => {
                    assert(false);
                    0
                },
            };
            item.loaded = LoadedImage::Id(item_id);
            entries.push((name, item));
            items.push(Item { image: item_id, name });
            assert(entries@.drop_last() =~= built(old_entries, filter, next0).take(k as int));
        } else {
            entries.push((name, item));
            assert(entries@.drop_last() =~= built(old_entries, filter, next0).take(k as int));
        }
        assert(entries@ =~= built(old_entries, filter, next0).take(k + 1));
        proof {
            let pics_after = registered_pictures(*resources);
            let next_after = next_image_id(*resources) as int;
            assert(keeps_below(pics_before, pics_after, next_before)) by {
                assert forall|i: u32| i < next_before && #[trigger] pics_before.contains_key(i) implies pics_after.contains_key(i)
                    && pics_after[i] == pics_before[i] by {}
            }
            lemma_keeps_trans(pics0, pics_before, pics_after, next0, next_before);
            lemma_shows_carry(old_entries.take(k as int), entries_before, pics_before, pics_after, next_before, next_after);
            let t = old_entries.take(k + 1);
            assert(t[k as int] == old_entries[k as int]);
            assert(old_entries[k as int].1 == e);
            assert forall|j: int| 0 <= j < t.len() && j < entries@.len() implies #[trigger] entry_shows(t[j].1, entries@[j].1, pics_after, next_after) by {
                if j < k {
                    assert(t[j] == old_entries.take(k as int)[j]);
                    assert(entries@[j] == entries_before[j]);
                    assert(entry_shows(old_entries.take(k as int)[j].1, entries_before[j].1, pics_after, next_after));
                }
            }
        }
        k = k + 1;
    }
    assert(old_entries.take(n as int) =~= old_entries);
    assert(built(old_entries, filter, next0).take(n as int) =~= built(old_entries, filter, next0));
}


proof fn lemma_image_count_prefix(entries: Seq<(&'static str, EntryDesc)>, filter: Option<Gamemode>, k: int)
    requires
        0 <= k <= entries.len(),
    ensures
        image_count(entries.take(k), filter) <= image_count(entries, filter),
    decreases entries.len(),
{
    if k == entries.len() {
        assert(entries.take(k) =~= entries);
    } else {
        lemma_image_count_prefix(entries.drop_last(), filter, k);
        assert(entries.drop_last().take(k) =~= entries.take(k));
        let e = entries.last().1;
        assert(image_count(entries, filter) >= image_count(entries.drop_last(), filter));
    }
}

/// Every entry has its picture registered.
pub open spec fn registered(entries: Seq<(&'static str, EntryDesc)>) -> bool {
    forall|k: int| 0 <= k < entries.len() ==> (#[trigger] entries[k]).1.loaded is Id
}

/// After building, the entries that pass hold ids; without a filter all do.
pub proof fn lemma_built_registers(entries: Seq<(&'static str, EntryDesc)>, filter: Option<Gamemode>, next: int)
    ensures
        forall|k: int|
            0 <= k < entries.len() && passes(filter, entries[k].1.kind) ==> (#[trigger] built(entries, filter, next)[k]).1.loaded is Id,
        filter is None ==> registered(built(entries, filter, next)),
{
}

/// The entries that pass `filter` all have ids.
pub open spec fn passing_registered(entries: Seq<(&'static str, EntryDesc)>, filter: Option<Gamemode>) -> bool {
    forall|k: int|
        0 <= k < entries.len() && passes(filter, (#[trigger] entries[k]).1.kind) ==> entries[k].1.loaded is Id
}

/// Building entries whose passing ones all have ids changes nothing and
/// registers nothing.
pub proof fn lemma_build_registered(entries: Seq<(&'static str, EntryDesc)>, filter: Option<Gamemode>, next: int)
    requires
        passing_registered(entries, filter),
    ensures
        built(entries, filter, next) == entries,
        image_count(entries, filter) == 0,
        all_loaded(entries, filter),
    decreases entries.len(),
{
    if entries.len() > 0 {
        assert(passing_registered(entries.drop_last(), filter)) by {
            assert forall|k: int|
                0 <= k < entries.drop_last().len() && passes(filter, (#[trigger] entries.drop_last()[k]).1.kind) implies entries.drop_last()[k].1.loaded is Id by {
                assert(entries.drop_last()[k] == entries[k]);
            }
        }
        lemma_build_registered(entries.drop_last(), filter, next);
    }
    assert(built(entries, filter, next) =~= entries);
}

/// Building entries whose passing ones all have ids changes nothing, from
/// whatever next id.
pub proof fn lemma_build_registered_any(entries: Seq<(&'static str, EntryDesc)>, filter: Option<Gamemode>)
    requires
        passing_registered(entries, filter),
    ensures
        forall|m: int| #[trigger] built(entries, filter, m) == entries,
        image_count(entries, filter) == 0,
        all_loaded(entries, filter),
{
    lemma_build_registered(entries, filter, 0);
    assert forall|m: int| #[trigger] built(entries, filter, m) == entries by {
        lemma_build_registered(entries, filter, m);
    }
}

/// Building twice with the same filter is building once.
pub proof fn lemma_build_twice(entries: Seq<(&'static str, EntryDesc)>, filter: Option<Gamemode>, next: int, later: int)
    ensures
        built(built(entries, filter, next), filter, later) == built(entries, filter, next),
        image_count(built(entries, filter, next), filter) == 0,
        all_loaded(built(entries, filter, next), filter),
{
    lemma_built_registers(entries, filter, next);
    lemma_build_registered(built(entries, filter, next), filter, later);
}

/// How many pictures building a class description with `filter` registers.
pub open spec fn desc_image_count(d: ClassDesc, filter: Option<Gamemode>) -> int {
    image_count(d.weapons@, filter) + image_count(d.gadgets@, filter) + image_count(d.specializations@, filter)
}

/// No entry of the description that passes `filter` lacks its picture.
pub open spec fn desc_loaded(d: ClassDesc, filter: Option<Gamemode>) -> bool {
    &&& all_loaded(d.weapons@, filter)
    &&& all_loaded(d.gadgets@, filter)
    &&& all_loaded(d.specializations@, filter)
}

/// Every entry of the description has its picture registered.
pub open spec fn desc_registered(d: ClassDesc) -> bool {
    &&& registered(d.weapons@)
    &&& registered(d.gadgets@)
    &&& registered(d.specializations@)
}

/// The description after building with `filter` from the next id `next`:
/// weapons first, then gadgets, then specializations.
pub open spec fn desc_built(before: ClassDesc, after: ClassDesc, filter: Option<Gamemode>, next: int) -> bool {
    let nw = image_count(before.weapons@, filter);
    let ng = image_count(before.gadgets@, filter);
    &&& after.weapons@ == built(before.weapons@, filter, next)
    &&& after.gadgets@ == built(before.gadgets@, filter, next + nw)
    &&& after.specializations@ == built(before.specializations@, filter, next + nw + ng)
}

/// `class` gained the items that the description `d` lists for `filter`,
/// `times` times over, after those of `before`.
pub open spec fn class_gained(before: Class, class: Class, d: ClassDesc, filter: Option<Gamemode>, times: int) -> bool {
    &&& class.weapons@ == before.weapons@ + repeat(listed(d.weapons@, filter), times)
    &&& class.gadgets@ == before.gadgets@ + repeat(listed(d.gadgets@, filter), times)
    &&& class.specials@ == before.specials@ + repeat(listed(d.specializations@, filter), times)
}

/// `s` repeated `n` times.
pub open spec fn repeat<A>(s: Seq<A>, n: int) -> Seq<A>
    decreases n,
{
    if n <= 0 {
        Seq::empty()
    } else {
        repeat(s, n - 1) + s
    }
}

proof fn lemma_repeat_one<A>(s: Seq<A>)
    ensures
        repeat(s, 1) == s,
{
    assert(repeat(s, 0) =~= Seq::<A>::empty());
    assert(repeat(s, 1) =~= s);
}

/// Adds the items of the description `contents` that pass `filter` to
/// `class`, registering every picture not registered yet.
pub fn build_class(
    class: &mut Class,
    contents: &mut ClassDesc,
    resources: &mut Resources,
    filter: Option<Gamemode>,
)
    requires
        desc_loaded(*old(contents), filter),
        next_image_id(*old(resources)) + desc_image_count(*old(contents), filter) <= IMAGE_ID_LIMIT,
    ensures
        desc_built(*old(contents), *final(contents), filter, next_image_id(*old(resources)) as int),
        class_gained(*old(class), *final(class), *final(contents), filter, 1),
        next_image_id(*final(resources)) == next_image_id(*old(resources)) + desc_image_count(*old(contents), filter),
        registered_images(*final(resources)) == registered_images(*old(resources)).union(
            id_range(next_image_id(*old(resources)) as int, desc_image_count(*old(contents), filter)),
        ),
        desc_shows(*old(contents), *final(contents), registered_pictures(*final(resources)), next_image_id(*final(resources)) as int),
        keeps_below(registered_pictures(*old(resources)), registered_pictures(*final(resources)), next_image_id(*old(resources)) as int),
{
    let ghost next0 = next_image_id(*resources) as int;
    let ghost held0 = registered_images(*resources);
    let ghost c0 = *contents;
    let ghost nw = image_count(contents.weapons@, filter);
    let ghost ng = image_count(contents.gadgets@, filter);
    let ghost ns = image_count(contents.specializations@, filter);
    proof {
        lemma_image_count_nonneg(contents.weapons@, filter);
        lemma_image_count_nonneg(contents.gadgets@, filter);
        lemma_image_count_nonneg(contents.specializations@, filter);
    }
    let ghost p0 = registered_pictures(*resources);
    build_category(&mut class.weapons, &mut contents.weapons, resources, filter);
    let ghost p1 = registered_pictures(*resources);
    build_category(&mut class.gadgets, &mut contents.gadgets, resources, filter);
    let ghost p2 = registered_pictures(*resources);
    build_category(&mut class.specials, &mut contents.specializations, resources, filter);
    proof {
        let p3 = registered_pictures(*resources);
        lemma_shows_carry(c0.weapons@, contents.weapons@, p1, p2, next0 + nw, next0 + nw + ng);
        lemma_shows_carry(c0.weapons@, contents.weapons@, p2, p3, next0 + nw + ng, next0 + nw + ng + ns);
        lemma_shows_carry(c0.gadgets@, contents.gadgets@, p2, p3, next0 + nw + ng, next0 + nw + ng + ns);
        lemma_keeps_trans(p0, p1, p2, next0, next0 + nw);
        lemma_keeps_trans(p0, p2, p3, next0, next0 + nw + ng);
        lemma_id_range_join(next0, nw, ng);
        lemma_id_range_join(next0, nw + ng, ns);
        assert(held0.union(id_range(next0, nw)).union(id_range(next0 + nw, ng)).union(id_range(next0 + nw + ng, ns))
            =~= held0.union(id_range(next0, nw + ng + ns)));
        reveal_with_fuel(repeat, 2);
        assert(repeat(listed(contents.weapons@, filter), 1) =~= listed(contents.weapons@, filter));
        assert(repeat(listed(contents.gadgets@, filter), 1) =~= listed(contents.gadgets@, filter));
        assert(repeat(listed(contents.specializations@, filter), 1) =~= listed(contents.specializations@, filter));
    }
}

/// The classes a name in the catalogue file stands for, by index; a name
/// that stands for none is not valid.
pub open spec fn names_class(name: Seq<char>, c: int) -> bool {
    ||| name == "All"@
    ||| c == 0 && name == "Light"@
    ||| c == 1 && name == "Medium"@
    ||| c == 2 && name == "Heavy"@
}

/// A valid class name: "Light", "Medium", "Heavy" or "All".
pub open spec fn valid_class_name(name: Seq<char>) -> bool {
    name == "Light"@ || name == "Medium"@ || name == "Heavy"@ || name == "All"@
}

/// Every comma separated name of `names` is valid.
pub open spec fn valid_class_names(names: Seq<char>) -> bool {
    forall|i: int| 0 <= i < comma_pieces(names).len() ==> valid_class_name(#[trigger] comma_pieces(names)[i])
}

/// How many of the names stand for class `c`.
pub open spec fn class_mentions(pieces: Seq<Seq<char>>, c: int) -> int
    decreases pieces.len(),
{
    if pieces.len() == 0 {
        0
    } else {
        class_mentions(pieces.drop_last(), c) + if names_class(pieces.last(), c) {
            1int
        } else {
            0int
        }
    }
}

/// A name mentioned by some of the pieces is mentioned by all of them.
proof fn lemma_class_mentions_prefix(pieces: Seq<Seq<char>>, c: int, k: int)
    requires
        0 <= k <= pieces.len(),
    ensures
        class_mentions(pieces.take(k), c) <= class_mentions(pieces, c),
    decreases pieces.len(),
{
    if k == pieces.len() {
        assert(pieces.take(k) =~= pieces);
    } else {
        lemma_class_mentions_prefix(pieces.drop_last(), c, k);
        assert(pieces.drop_last().take(k) =~= pieces.take(k));
    }
}

/// Each description names each class at most once.
pub open spec fn names_each_class_once(descs: Seq<(&'static str, ClassDesc)>) -> bool {
    forall|i: int, c: int|
        0 <= i < descs.len() && 0 <= c < 3 ==> #[trigger] class_mentions(comma_pieces(descs[i].0@), c) <= 1
}

/// Whether the comma separated `names` stand for each class at most once.
fn mentions_each_once(names: &str) -> (once: bool)
    ensures
        once == forall|c: int| 0 <= c < 3 ==> #[trigger] class_mentions(comma_pieces(names@), c) <= 1,
{
    let pieces = split_commas(names);
    let ghost all = comma_pieces(names@);
    let mut light: u8 = 0;
    let mut medium: u8 = 0;
    let mut heavy: u8 = 0;
    let mut i: usize = 0;
    assert(all.take(0) =~= Seq::<Seq<char>>::empty());
    while i < pieces.len()
        invariant
            pieces@.len() == all.len(),
            all == comma_pieces(names@),
            forall|j: int| 0 <= j < pieces@.len() ==> (#[trigger] pieces@[j])@ == all[j],
            i <= pieces@.len(),
            light == class_mentions(all.take(i as int), 0),
            medium == class_mentions(all.take(i as int), 1),
            heavy == class_mentions(all.take(i as int), 2),
            light <= 1 && medium <= 1 && heavy <= 1,
        decreases pieces@.len() - i,
    {
        let p = pieces[i];
        let every = str_equals(p, "All");
        if every || str_equals(p, "Light") {
            light = light + 1;
        }
        if every || str_equals(p, "Medium") {
            medium = medium + 1;
        }
        if every || str_equals(p, "Heavy") {
            heavy = heavy + 1;
        }
        proof {
            assert(all.take(i + 1).drop_last() =~= all.take(i as int));
            assert(all.take(i + 1).last() == all[i as int]);
        }
        if light > 1 || medium > 1 || heavy > 1 {
            proof {
                lemma_class_mentions_prefix(all, 0, i + 1);
                lemma_class_mentions_prefix(all, 1, i + 1);
                lemma_class_mentions_prefix(all, 2, i + 1);
                assert(class_mentions(all, 0) > 1 || class_mentions(all, 1) > 1 || class_mentions(all, 2) > 1);
            }
            return false;
        }
        i = i + 1;
    }
    assert(all.take(all.len() as int) =~= all);
    true
}

/// Whether each description names each class at most once.
pub fn classes_named_once(descs: &Vec<(&'static str, ClassDesc)>) -> (once: bool)
    ensures
        once == names_each_class_once(descs@),
{
    let mut k: usize = 0;
    while k < descs.len()
        invariant
            k <= descs@.len(),
            forall|i: int, c: int|
                0 <= i < k && 0 <= c < 3 ==> #[trigger] class_mentions(comma_pieces(descs@[i].0@), c) <= 1,
        decreases descs@.len() - k,
    {
        if !mentions_each_once(descs[k].0) {
            proof {
                let c = choose|c: int| 0 <= c < 3 && !(#[trigger] class_mentions(comma_pieces(descs@[k as int].0@), c) <= 1);
                assert(!(class_mentions(comma_pieces(descs@[k as int].0@), c) <= 1));
            }
            return false;
        }
        k = k + 1;
    }
    true
}

/// The four class names differ.
proof fn lemma_class_names_distinct()
    ensures
        "Light"@ != "Medium"@,
        "Light"@ != "Heavy"@,
        "Light"@ != "All"@,
        "Medium"@ != "Heavy"@,
        "Medium"@ != "All"@,
        "Heavy"@ != "All"@,
{
    reveal_strlit("Light");
    reveal_strlit("Medium");
    reveal_strlit("Heavy");
    reveal_strlit("All");
    assert("Light"@.len() != "Medium"@.len());
    assert("Light"@[0] != "Heavy"@[0]);
    assert("Light"@.len() != "All"@.len());
    assert("Medium"@.len() != "Heavy"@.len());
    assert("Medium"@.len() != "All"@.len());
    assert("Heavy"@.len() != "All"@.len());
}

/// The class kinds a valid name stands for.
fn class_kinds(name: &str) -> (kinds: Vec<ClassKind>)
    requires
        valid_class_name(name@),
    ensures
        forall|c: int| 0 <= c < 3 ==> (names_class(name@, c) <==> exists|j: int| 0 <= j < kinds@.len() && (#[trigger] kinds@[j]).spec_id() == c),
        forall|j: int, k: int| 0 <= j < k < kinds@.len() ==> kinds@[j] != kinds@[k],
        kinds@.len() >= 1,
{
    proof {
        lemma_class_names_distinct();
    }
    if str_equals(name, "Light") {
        let v = vec![ClassKind::Light];
        assert(v@[0].spec_id() == 0);
        v
    } else if str_equals(name, "Medium") {
        let v = vec![ClassKind::Medium];
        assert(v@[0].spec_id() == 1);
        v
    } else if str_equals(name, "Heavy") {
        let v = vec![ClassKind::Heavy];
        assert(v@[0].spec_id() == 2);
        v
    } else {
        let v = vec![ClassKind::Light, ClassKind::Medium, ClassKind::Heavy];
        assert(v@[0].spec_id() == 0 && v@[1].spec_id() == 1 && v@[2].spec_id() == 2);
        v
    }
}

/// How many of `kinds` are class `c`.
pub open spec fn kinds_count(kinds: Seq<ClassKind>, c: int) -> int
    decreases kinds.len(),
{
    if kinds.len() == 0 {
        0
    } else {
        kinds_count(kinds.drop_last(), c) + if kinds.last().spec_id() == c {
            1int
        } else {
            0int
        }
    }
}

proof fn lemma_kinds_count_nonneg(kinds: Seq<ClassKind>, c: int)
    ensures
        kinds_count(kinds, c) >= 0,
    decreases kinds.len(),
{
    if kinds.len() > 0 {
        lemma_kinds_count_nonneg(kinds.drop_last(), c);
    }
}

proof fn lemma_class_mentions_nonneg(pieces: Seq<Seq<char>>, c: int)
    ensures
        class_mentions(pieces, c) >= 0,
    decreases pieces.len(),
{
    if pieces.len() > 0 {
        lemma_class_mentions_nonneg(pieces.drop_last(), c);
    }
}

proof fn lemma_kinds_count_distinct(kinds: Seq<ClassKind>, c: int)
    requires
        forall|j: int, k: int| 0 <= j < k < kinds.len() ==> kinds[j] != kinds[k],
    ensures
        kinds_count(kinds, c) == if exists|j: int| 0 <= j < kinds.len() && (#[trigger] kinds[j]).spec_id() == c {
            1int
        } else {
            0int
        },
    decreases kinds.len(),
{
    if kinds.len() > 0 {
        let d = kinds.drop_last();
        assert forall|j: int, k: int| 0 <= j < k < d.len() implies d[j] != d[k] by {
            assert(d[j] == kinds[j] && d[k] == kinds[k]);
        }
        lemma_kinds_count_distinct(d, c);
        if exists|j: int| 0 <= j < d.len() && (#[trigger] d[j]).spec_id() == c {
            let j = choose|j: int| 0 <= j < d.len() && (#[trigger] d[j]).spec_id() == c;
            assert(kinds[j] == d[j]);
            if kinds.last().spec_id() == c {
                assert(kinds[j] != kinds[kinds.len() - 1]);
            }
        } else {
            assert forall|j: int| 0 <= j < kinds.len() - 1 implies (#[trigger] kinds[j]).spec_id() != c by {
                assert(kinds[j] == d[j]);
            }
        }
    }
}

/// Adds the items of `contents` that pass `filter` to every class that the
/// comma separated `names` stand for (once per mention), registering every
/// picture not registered yet.
pub fn build_any_class(
    names: &str,
    contents: &mut ClassDesc,
    resources: &mut Resources,
    classes: &mut [Class; 3],
    filter: Option<Gamemode>,
)
    requires
        valid_class_names(names@),
        desc_loaded(*old(contents), filter),
        next_image_id(*old(resources)) + desc_image_count(*old(contents), filter) <= IMAGE_ID_LIMIT,
    ensures
        desc_built(*old(contents), *final(contents), filter, next_image_id(*old(resources)) as int),
        next_image_id(*final(resources)) == next_image_id(*old(resources)) + desc_image_count(*old(contents), filter),
        registered_images(*final(resources)) == registered_images(*old(resources)).union(
            id_range(next_image_id(*old(resources)) as int, desc_image_count(*old(contents), filter)),
        ),
        desc_shows(*old(contents), *final(contents), registered_pictures(*final(resources)), next_image_id(*final(resources)) as int),
        keeps_below(registered_pictures(*old(resources)), registered_pictures(*final(resources)), next_image_id(*old(resources)) as int),
        forall|c: int|
            0 <= c < 3 ==> #[trigger] class_gained(
                old(classes)@[c],
                final(classes)@[c],
                *final(contents),
                filter,
                class_mentions(comma_pieces(names@), c),
            ),
{
    let ghost next0 = next_image_id(*resources) as int;
    let ghost held0 = registered_images(*resources);
    let ghost pics0 = registered_pictures(*resources);
    let ghost c0 = *contents;
    let ghost classes0 = classes@;
    let ghost nw = image_count(c0.weapons@, filter);
    let ghost ng = image_count(c0.gadgets@, filter);
    let ghost bw = built(c0.weapons@, filter, next0);
    let ghost bg = built(c0.gadgets@, filter, next0 + nw);
    let ghost bs = built(c0.specializations@, filter, next0 + nw + ng);
    let ghost total = desc_image_count(c0, filter);
    proof {
        lemma_build_twice(c0.weapons@, filter, next0, 0);
        lemma_build_twice(c0.gadgets@, filter, next0 + nw, 0);
        lemma_build_twice(c0.specializations@, filter, next0 + nw + ng, 0);
        lemma_image_count_nonneg(c0.weapons@, filter);
        lemma_image_count_nonneg(c0.gadgets@, filter);
        lemma_image_count_nonneg(c0.specializations@, filter);
        crate::text::lemma_comma_pieces_nonempty(names@);
    }
    let pieces = split_commas(names);
    let ghost all = comma_pieces(names@);
    let ghost mut built_yet = false;
    let mut i: usize = 0;
    assert(all.take(0) =~= Seq::<Seq<char>>::empty());
    while i < pieces.len()
        invariant
            pieces@.len() == all.len(),
            all.len() >= 1,
            all == comma_pieces(names@),
            forall|j: int| 0 <= j < pieces@.len() ==> (#[trigger] pieces@[j])@ == all[j],
            valid_class_names(names@),
            i <= pieces@.len(),
            i > 0 ==> built_yet,
            desc_loaded(c0, filter),
            next0 + total <= IMAGE_ID_LIMIT,
            total == nw + ng + image_count(c0.specializations@, filter),
            nw >= 0,
            ng >= 0,
            image_count(c0.specializations@, filter) >= 0,
            bw == built(c0.weapons@, filter, next0),
            bg == built(c0.gadgets@, filter, next0 + nw),
            bs == built(c0.specializations@, filter, next0 + nw + ng),
            image_count(bw, filter) == 0 && image_count(bg, filter) == 0 && image_count(bs, filter) == 0,
            all_loaded(bw, filter) && all_loaded(bg, filter) && all_loaded(bs, filter),
            forall|m: int| built(bw, filter, m) == bw,
            forall|m: int| built(bg, filter, m) == bg,
            forall|m: int| built(bs, filter, m) == bs,
            nw == image_count(c0.weapons@, filter),
            ng == image_count(c0.gadgets@, filter),
            built_yet ==> contents.weapons@ == bw && contents.gadgets@ == bg && contents.specializations@ == bs
                && next_image_id(*resources) == next0 + total
                && registered_images(*resources) == held0.union(id_range(next0, total)),
            !built_yet ==> *contents == c0 && next_image_id(*resources) == next0 && registered_images(*resources) == held0,
            built_yet ==> desc_shows(c0, *contents, registered_pictures(*resources), next_image_id(*resources) as int),
            keeps_below(pics0, registered_pictures(*resources), next0),
            next0 <= next_image_id(*resources),
            forall|c: int|
                0 <= c < 3 ==> {
                    &&& (#[trigger] classes@[c]).weapons@ == classes0[c].weapons@ + repeat(listed(bw, filter), class_mentions(all.take(i as int), c))
                    &&& classes@[c].gadgets@ == classes0[c].gadgets@ + repeat(listed(bg, filter), class_mentions(all.take(i as int), c))
                    &&& classes@[c].specials@ == classes0[c].specials@ + repeat(listed(bs, filter), class_mentions(all.take(i as int), c))
                },
        decreases pieces@.len() - i,
    {
        assert(valid_class_name(all[i as int]));
        let kinds = class_kinds(pieces[i]);
        proof {
            assert(all.take(i + 1).drop_last() =~= all.take(i as int));
            assert(all.take(i + 1).last() == all[i as int]);
        }
        let mut j: usize = 0;
        assert(kinds@.take(0) =~= Seq::<ClassKind>::empty());
        proof {
            assert forall|c: int| 0 <= c < 3 implies #[trigger] class_mentions(all.take(i as int), c) >= 0 by {
                lemma_class_mentions_nonneg(all.take(i as int), c);
            }
        }
        while j < kinds.len()
            invariant
                j <= kinds@.len(),
                kinds@.len() >= 1,
                forall|a: int, b: int| 0 <= a < b < kinds@.len() ==> kinds@[a] != kinds@[b],
                i > 0 || j > 0 ==> built_yet,
                desc_loaded(c0, filter),
                next0 + total <= IMAGE_ID_LIMIT,
                total == nw + ng + image_count(c0.specializations@, filter),
                nw >= 0,
                ng >= 0,
                image_count(c0.specializations@, filter) >= 0,
                bw == built(c0.weapons@, filter, next0),
                bg == built(c0.gadgets@, filter, next0 + nw),
                bs == built(c0.specializations@, filter, next0 + nw + ng),
                image_count(bw, filter) == 0 && image_count(bg, filter) == 0 && image_count(bs, filter) == 0,
                all_loaded(bw, filter) && all_loaded(bg, filter) && all_loaded(bs, filter),
                forall|m: int| built(bw, filter, m) == bw,
                forall|m: int| built(bg, filter, m) == bg,
                forall|m: int| built(bs, filter, m) == bs,
                nw == image_count(c0.weapons@, filter),
                ng == image_count(c0.gadgets@, filter),
                built_yet ==> contents.weapons@ == bw && contents.gadgets@ == bg && contents.specializations@
                    == bs && next_image_id(*resources) == next0 + total
                    && registered_images(*resources) == held0.union(id_range(next0, total)),
                !built_yet ==> *contents == c0 && next_image_id(*resources) == next0 && registered_images(*resources)
                    == held0,
                built_yet ==> desc_shows(c0, *contents, registered_pictures(*resources), next_image_id(*resources) as int),
                keeps_below(pics0, registered_pictures(*resources), next0),
                next0 <= next_image_id(*resources),
                forall|c: int|
                    0 <= c < 3 ==> {
                        &&& (#[trigger] classes@[c]).weapons@ == classes0[c].weapons@ + repeat(listed(bw, filter), class_mentions(all.take(i as int), c) + kinds_count(kinds@.take(j as int), c))
                        &&& classes@[c].gadgets@ == classes0[c].gadgets@ + repeat(listed(bg, filter), class_mentions(all.take(i as int), c) + kinds_count(kinds@.take(j as int), c))
                        &&& classes@[c].specials@ == classes0[c].specials@ + repeat(listed(bs, filter), class_mentions(all.take(i as int), c) + kinds_count(kinds@.take(j as int), c))
                    },
                forall|c: int| 0 <= c < 3 ==> #[trigger] class_mentions(all.take(i as int), c) >= 0,
                forall|c: int| 0 <= c < 3 ==> #[trigger] kinds_count(kinds@.take(j as int), c) >= 0,
            decreases kinds@.len() - j,
        {
            let id = kinds[j].id();
            let ghost before = classes@;
            let ghost was_built = built_yet;
            let ghost contents_before = *contents;
            let ghost pics_before = registered_pictures(*resources);
            let ghost next_before = next_image_id(*resources) as int;
            build_class(&mut classes[id], contents, resources, filter);
            proof {
                lemma_keeps_trans(pics0, pics_before, registered_pictures(*resources), next0, next_before);
                if was_built {
                    lemma_desc_shows_carry(c0, contents_before, pics_before, registered_pictures(*resources), next_before, next_image_id(*resources) as int);
                    assert(desc_same(contents_before, *contents));
                }
                lemma_id_range_join(next0 + total, 0, 0);
                assert(held0.union(id_range(next0, total)).union(Set::<u32>::empty()) =~= held0.union(id_range(next0, total)));
                built_yet = true;
                assert(kinds@.take(j + 1).drop_last() =~= kinds@.take(j as int));
                assert(kinds@.take(j + 1).last() == kinds@[j as int]);
                assert forall|c: int| 0 <= c < 3 implies #[trigger] kinds_count(kinds@.take(j + 1), c) >= 0 by {
                    lemma_kinds_count_nonneg(kinds@.take(j + 1), c);
                }
                assert forall|c: int|
                    0 <= c < 3 implies {
                        &&& (#[trigger] classes@[c]).weapons@ == classes0[c].weapons@ + repeat(listed(bw, filter), class_mentions(all.take(i as int), c) + kinds_count(kinds@.take(j + 1), c))
                        &&& classes@[c].gadgets@ == classes0[c].gadgets@ + repeat(listed(bg, filter), class_mentions(all.take(i as int), c) + kinds_count(kinds@.take(j + 1), c))
                        &&& classes@[c].specials@ == classes0[c].specials@ + repeat(listed(bs, filter), class_mentions(all.take(i as int), c) + kinds_count(kinds@.take(j + 1), c))
                    } by {
                    if c == id {
                        assert(contents.weapons@ == bw);
                        assert(contents.gadgets@ == bg);
                        assert(contents.specializations@ == bs);
                        lemma_repeat_one(listed(bw, filter));
                        lemma_repeat_one(listed(bg, filter));
                        lemma_repeat_one(listed(bs, filter));
                        let n = class_mentions(all.take(i as int), c) + kinds_count(kinds@.take(j as int), c);
                        assert(repeat(listed(bw, filter), n + 1) == repeat(listed(bw, filter), n) + listed(bw, filter));
                        assert(repeat(listed(bg, filter), n + 1) == repeat(listed(bg, filter), n) + listed(bg, filter));
                        assert(repeat(listed(bs, filter), n + 1) == repeat(listed(bs, filter), n) + listed(bs, filter));
                        assert(classes@[c].weapons@ =~= classes0[c].weapons@ + repeat(listed(bw, filter), n + 1));
                        assert(classes@[c].gadgets@ =~= classes0[c].gadgets@ + repeat(listed(bg, filter), n + 1));
                        assert(classes@[c].specials@ =~= classes0[c].specials@ + repeat(listed(bs, filter), n + 1));
                    } else {
                        assert(classes@[c] == before[c]);
                    }
                }
            }
            j = j + 1;
        }
        proof {
            assert(kinds@.take(kinds@.len() as int) =~= kinds@);
            assert forall|c: int| 0 <= c < 3 implies kinds_count(kinds@, c) == (if names_class(all[i as int], c) { 1int } else { 0int }) by {
                lemma_kinds_count_distinct(kinds@, c);
            }
        }
        i = i + 1;
    }
    assert(all.take(all.len() as int) =~= all);
}

/// One category of a description: 0 weapons, 1 gadgets, 2 specializations.
pub open spec fn desc_cat(d: ClassDesc, k: int) -> Seq<(&'static str, EntryDesc)> {
    if k == 0 {
        d.weapons@
    } else if k == 1 {
        d.gadgets@
    } else {
        d.specializations@
    }
}

/// The same category of a class: 0 weapons, 1 gadgets, 2 specializations.
pub open spec fn class_cat(c: Class, k: int) -> Seq<Item> {
    if k == 0 {
        c.weapons@
    } else if k == 1 {
        c.gadgets@
    } else {
        c.specials@
    }
}

/// The same entries in every category.
pub open spec fn desc_same(a: ClassDesc, b: ClassDesc) -> bool {
    &&& a.weapons@ == b.weapons@
    &&& a.gadgets@ == b.gadgets@
    &&& a.specializations@ == b.specializations@
}

/// The pictures that building all descriptions without a filter registers.
pub open spec fn total_images(descs: Seq<(&'static str, ClassDesc)>) -> int
    decreases descs.len(),
{
    if descs.len() == 0 {
        0
    } else {
        total_images(descs.drop_last()) + desc_image_count(descs.last().1, Option::None)
    }
}

/// Category `k` of class `c` for `filter`: the items of every description in
/// order, each as often as its names mention `c`.
pub open spec fn gathered(descs: Seq<(&'static str, ClassDesc)>, filter: Option<Gamemode>, c: int, k: int) -> Seq<Item>
    decreases descs.len(),
{
    if descs.len() == 0 {
        Seq::empty()
    } else {
        let (names, d) = descs.last();
        gathered(descs.drop_last(), filter, c, k) + repeat(listed(desc_cat(d, k), filter), class_mentions(comma_pieces(names@), c))
    }
}

/// The filter that builds the classes of `mode`.
pub open spec fn filter_of(mode: Gamemode) -> Option<Gamemode> {
    if mode == Gamemode::Any {
        Option::None
    } else {
        Option::Some(mode)
    }
}

/// The order in which the modes are built: the unrestricted classes first.
pub open spec fn round_of(mode: Gamemode) -> int {
    match mode {
        Gamemode::Any => 0,
        Gamemode::Melee => 1,
        Gamemode::Shotgun => 2,
        Gamemode::Auto => 3,
        Gamemode::Semi => 4,
        Gamemode::Bombs => 5,
    }
}

/// The descriptions can be built: valid class names, every picture loaded,
/// and, as in the catalogue file's maps, no key twice.
pub open spec fn descs_buildable(descs: Seq<(&'static str, ClassDesc)>) -> bool {
    &&& forall|i: int|
        0 <= i < descs.len() ==> valid_class_names((#[trigger] descs[i]).0@) && desc_loaded(descs[i].1, Option::None)
    &&& keys_unique(descs)
}

/// No two entries have the same name.
pub open spec fn entry_names_unique(entries: Seq<(&'static str, EntryDesc)>) -> bool {
    forall|i: int, j: int| 0 <= i < j < entries.len() ==> entries[i].0@ != entries[j].0@
}

/// No two descriptions have the same class names, and within each category
/// of a description no two entries have the same name.
pub open spec fn keys_unique(descs: Seq<(&'static str, ClassDesc)>) -> bool {
    &&& forall|i: int, j: int| 0 <= i < j < descs.len() ==> descs[i].0@ != descs[j].0@
    &&& forall|i: int|
        0 <= i < descs.len() ==> {
            &&& entry_names_unique((#[trigger] descs[i]).1.weapons@)
            &&& entry_names_unique(descs[i].1.gadgets@)
            &&& entry_names_unique(descs[i].1.specializations@)
        }
}

/// Whether no two of `names` are the same.
fn strs_unique(names: &Vec<&str>) -> (unique: bool)
    ensures
        unique == forall|i: int, j: int| 0 <= i < j < names@.len() ==> names@[i]@ != names@[j]@,
{
    let n = names.len();
    let mut i: usize = 0;
    while i < n
        invariant
            n == names@.len(),
            i <= n,
            forall|a: int, b: int| 0 <= a < b < n && a < i ==> names@[a]@ != names@[b]@,
        decreases n - i,
    {
        let mut j: usize = i + 1;
        while j < n
            invariant
                n == names@.len(),
                i < n,
                i + 1 <= j <= n,
                forall|a: int, b: int| 0 <= a < b < n && a < i ==> names@[a]@ != names@[b]@,
                forall|b: int| i < b < j ==> names@[i as int]@ != names@[b]@,
            decreases n - j,
        {
            if str_equals(names[i], names[j]) {
                return false;
            }
            j = j + 1;
        }
        i = i + 1;
    }
    true
}

/// Whether no two entries have the same name.
fn entries_unique(entries: &Vec<(&'static str, EntryDesc)>) -> (unique: bool)
    ensures
        unique == entry_names_unique(entries@),
{
    let mut names: Vec<&str> = Vec::new();
    let mut k: usize = 0;
    while k < entries.len()
        invariant
            k <= entries@.len(),
            names@.len() == k,
            forall|j: int| 0 <= j < k ==> names@[j] == entries@[j].0,
        decreases entries@.len() - k,
    {
        names.push(entries[k].0);
        k = k + 1;
    }
    let unique = strs_unique(&names);
    proof {
        assert(names@.len() == entries@.len());
        if unique {
            assert forall|i: int, j: int| 0 <= i < j < entries@.len() implies entries@[i].0@ != entries@[j].0@ by {
                assert(names@[i] == entries@[i].0 && names@[j] == entries@[j].0);
            }
        } else {
            let (i, j) = choose|i: int, j: int| 0 <= i < j < names@.len() && names@[i]@ == names@[j]@;
            assert(names@[i] == entries@[i].0 && names@[j] == entries@[j].0);
        }
    }
    unique
}

/// Whether the descriptions have no key twice (see `keys_unique`).
pub fn catalogue_keys_unique(descs: &Vec<(&'static str, ClassDesc)>) -> (unique: bool)
    ensures
        unique == keys_unique(descs@),
{
    let mut names: Vec<&str> = Vec::new();
    let mut k: usize = 0;
    while k < descs.len()
        invariant
            k <= descs@.len(),
            names@.len() == k,
            forall|j: int| 0 <= j < k ==> names@[j] == descs@[j].0,
            forall|j: int|
                0 <= j < k ==> {
                    &&& entry_names_unique((#[trigger] descs@[j]).1.weapons@)
                    &&& entry_names_unique(descs@[j].1.gadgets@)
                    &&& entry_names_unique(descs@[j].1.specializations@)
                },
        decreases descs@.len() - k,
    {
        let d = &descs[k].1;
        if !(entries_unique(&d.weapons) && entries_unique(&d.gadgets) && entries_unique(&d.specializations)) {
            return false;
        }
        names.push(descs[k].0);
        k = k + 1;
    }
    let unique = strs_unique(&names);
    proof {
        assert(names@.len() == descs@.len());
        if unique {
            assert forall|i: int, j: int| 0 <= i < j < descs@.len() implies descs@[i].0@ != descs@[j].0@ by {
                assert(names@[i] == descs@[i].0 && names@[j] == descs@[j].0);
            }
        } else {
            let (i, j) = choose|i: int, j: int| 0 <= i < j < names@.len() && names@[i]@ == names@[j]@;
            assert(names@[i] == descs@[i].0 && names@[j] == descs@[j].0);
        }
    }
    unique
}

proof fn lemma_total_images_step(descs: Seq<(&'static str, ClassDesc)>, i: int)
    requires
        0 <= i < descs.len(),
    ensures
        total_images(descs.take(i + 1)) == total_images(descs.take(i)) + desc_image_count(descs[i].1, Option::None),
        total_images(descs.take(i)) >= 0,
        total_images(descs.take(i + 1)) <= total_images(descs),
{
    assert(descs.take(i + 1).drop_last() =~= descs.take(i));
    lemma_total_images_prefix(descs, i);
    lemma_total_images_prefix(descs, i + 1);
}

proof fn lemma_total_images_prefix(descs: Seq<(&'static str, ClassDesc)>, n: int)
    requires
        0 <= n <= descs.len(),
    ensures
        0 <= total_images(descs.take(n)) <= total_images(descs),
    decreases descs.len(),
{
    if descs.len() > 0 {
        let d = descs.last().1;
        lemma_image_count_nonneg(d.weapons@, Option::None);
        lemma_image_count_nonneg(d.gadgets@, Option::None);
        lemma_image_count_nonneg(d.specializations@, Option::None);
        if n == descs.len() {
            assert(descs.take(n) =~= descs);
            lemma_total_images_prefix(descs.drop_last(), n - 1);
            assert(descs.drop_last().take(n - 1) =~= descs.drop_last());
        } else {
            lemma_total_images_prefix(descs.drop_last(), n);
            assert(descs.drop_last().take(n) =~= descs.take(n));
        }
    } else {
        assert(descs.take(n) =~= descs);
    }
}

/// The classes of every mode from the descriptions in the order given: the
/// unrestricted classes get every item, each mode's classes the items of that
/// mode; a description's items go to every class its names mention. Every
/// picture is registered once, in the order of the descriptions.
pub fn build_dataset(classes: &mut Vec<(&'static str, ClassDesc)>, resources: &mut Resources) -> (dataset: Dataset)
    requires
        descs_buildable(old(classes)@),
        next_image_id(*old(resources)) + total_images(old(classes)@) <= IMAGE_ID_LIMIT,
    ensures
        final(classes)@.len() == old(classes)@.len(),
        forall|i: int|
            0 <= i < old(classes)@.len() ==> (#[trigger] final(classes)@[i]).0 == old(classes)@[i].0 && desc_built(
                old(classes)@[i].1,
                final(classes)@[i].1,
                Option::None,
                next_image_id(*old(resources)) + total_images(old(classes)@.take(i)),
            ),
        next_image_id(*final(resources)) == next_image_id(*old(resources)) + total_images(old(classes)@),
        registered_images(*final(resources)) == registered_images(*old(resources)).union(
            id_range(next_image_id(*old(resources)) as int, total_images(old(classes)@)),
        ),
        forall|i: int|
            0 <= i < old(classes)@.len() ==> desc_shows(
                old(classes)@[i].1,
                (#[trigger] final(classes)@[i]).1,
                registered_pictures(*final(resources)),
                next_image_id(*final(resources)) as int,
            ),
        keeps_below(registered_pictures(*old(resources)), registered_pictures(*final(resources)), next_image_id(*old(resources)) as int),
        forall|m: Gamemode, c: int, k: int|
            0 <= c < 3 && 0 <= k < 3 ==> #[trigger] class_cat(dataset.classes(m)@[c], k) == gathered(
                final(classes)@,
                filter_of(m),
                c,
                k,
            ),
{
    let ghost old_descs = classes@;
    let ghost next0 = next_image_id(*resources) as int;
    let ghost held0 = registered_images(*resources);
    let ghost pics0 = registered_pictures(*resources);
    let ghost total = total_images(old_descs);
    let mut dataset = Dataset::empty();
    let filters = vec![
        Option::None,
        Option::Some(Gamemode::Melee),
        Option::Some(Gamemode::Shotgun),
        Option::Some(Gamemode::Auto),
        Option::Some(Gamemode::Semi),
        Option::Some(Gamemode::Bombs),
    ];
    let n = classes.len();
    proof {
        lemma_total_images_prefix(old_descs, 0);
        assert(old_descs.take(0) =~= Seq::<(&'static str, ClassDesc)>::empty());
    }
    let mut r: usize = 0;
    while r < 6
        invariant
            filters@ == seq![
                Option::None,
                Option::Some(Gamemode::Melee),
                Option::Some(Gamemode::Shotgun),
                Option::Some(Gamemode::Auto),
                Option::Some(Gamemode::Semi),
                Option::Some(Gamemode::Bombs),
            ],
            r <= 6,
            n == old_descs.len(),
            classes@.len() == n,
            descs_buildable(old_descs),
            next0 + total <= IMAGE_ID_LIMIT,
            total == total_images(old_descs),
            total >= 0,
            forall|i: int| 0 <= i < n ==> (#[trigger] classes@[i]).0 == old_descs[i].0,
            r == 0 ==> classes@ == old_descs && next_image_id(*resources) == next0 && registered_images(*resources)
                == held0,
            r > 0 ==> next_image_id(*resources) == next0 + total,
            r > 0 ==> registered_images(*resources) == held0.union(id_range(next0, total)),
            r > 0 ==> forall|i: int|
                0 <= i < n ==> desc_built(
                    old_descs[i].1,
                    (#[trigger] classes@[i]).1,
                    Option::None,
                    next0 + total_images(old_descs.take(i)),
                ) && desc_registered(classes@[i].1),
            r > 0 ==> forall|i: int|
                0 <= i < n ==> desc_shows(
                    old_descs[i].1,
                    (#[trigger] classes@[i]).1,
                    registered_pictures(*resources),
                    next_image_id(*resources) as int,
                ),
            keeps_below(pics0, registered_pictures(*resources), next0),
            next0 <= next_image_id(*resources),
            forall|m: Gamemode, c: int, k: int|
                0 <= c < 3 && 0 <= k < 3 && round_of(m) < r ==> #[trigger] class_cat(dataset.classes(m)@[c], k)
                    == gathered(classes@, filter_of(m), c, k),
            forall|m: Gamemode, c: int, k: int|
                0 <= c < 3 && 0 <= k < 3 && round_of(m) >= r ==> #[trigger] class_cat(dataset.classes(m)@[c], k)
                    == Seq::<Item>::empty(),
        decreases 6 - r,
    {
        let filter = filters[r];
        let mode = match filter {
            Option::Some(m) => m,
            Option::None => Gamemode::Any,
        };
        assert(filter == filter_of(mode) && round_of(mode) == r);
        let ghost round_start = classes@;
        let mut i: usize = 0;
        assert(classes@.take(0) =~= Seq::<(&'static str, ClassDesc)>::empty());
        while i < n
            invariant
                r < 6,
                filter == filter_of(mode),
                round_of(mode) == r,
                n == old_descs.len(),
                classes@.len() == n,
                descs_buildable(old_descs),
                next0 + total <= IMAGE_ID_LIMIT,
                total == total_images(old_descs),
                total >= 0,
                i <= n,
                forall|j: int| 0 <= j < n ==> (#[trigger] classes@[j]).0 == old_descs[j].0,
                r == 0 ==> round_start == old_descs,
                r == 0 ==> next_image_id(*resources) == next0 + total_images(old_descs.take(i as int)),
                r == 0 ==> registered_images(*resources) == held0.union(id_range(next0, total_images(old_descs.take(i as int)))),
                r > 0 ==> registered_images(*resources) == held0.union(id_range(next0, total)),
                r == 0 ==> forall|j: int| i <= j < n ==> #[trigger] classes@[j] == old_descs[j],
                r == 0 ==> forall|j: int|
                    0 <= j < i ==> desc_built(
                        old_descs[j].1,
                        (#[trigger] classes@[j]).1,
                        Option::None,
                        next0 + total_images(old_descs.take(j)),
                    ) && desc_registered(classes@[j].1),
                r > 0 ==> next_image_id(*resources) == next0 + total,
                r > 0 ==> forall|j: int|
                    0 <= j < n ==> desc_built(
                        old_descs[j].1,
                        (#[trigger] classes@[j]).1,
                        Option::None,
                        next0 + total_images(old_descs.take(j)),
                    ) && desc_registered(classes@[j].1),
                r == 0 ==> forall|j: int|
                    0 <= j < i ==> desc_shows(
                        old_descs[j].1,
                        (#[trigger] classes@[j]).1,
                        registered_pictures(*resources),
                        next_image_id(*resources) as int,
                    ),
                r > 0 ==> forall|j: int|
                    0 <= j < n ==> desc_shows(
                        old_descs[j].1,
                        (#[trigger] classes@[j]).1,
                        registered_pictures(*resources),
                        next_image_id(*resources) as int,
                    ),
                keeps_below(pics0, registered_pictures(*resources), next0),
                next0 <= next_image_id(*resources),
                r > 0 ==> forall|j: int| 0 <= j < n ==> desc_same((#[trigger] classes@[j]).1, round_start[j].1),
                r > 0 ==> round_start.len() == n,
                forall|m: Gamemode, c: int, k: int|
                    0 <= c < 3 && 0 <= k < 3 && round_of(m) < r ==> #[trigger] class_cat(dataset.classes(m)@[c], k)
                        == gathered(round_start, filter_of(m), c, k),
                forall|c: int, k: int|
                    0 <= c < 3 && 0 <= k < 3 ==> #[trigger] class_cat(dataset.classes(mode)@[c], k)
                        == gathered(classes@.take(i as int), filter, c, k),
                forall|m: Gamemode, c: int, k: int|
                    0 <= c < 3 && 0 <= k < 3 && round_of(m) > r ==> #[trigger] class_cat(dataset.classes(m)@[c], k)
                        == Seq::<Item>::empty(),
            decreases n - i,
        {
            assert(valid_class_names(old_descs[i as int].0@) && desc_loaded(old_descs[i as int].1, Option::None));
            let ghost d_before = classes@[i as int].1;
            proof {
                lemma_total_images_step(old_descs, i as int);
                lemma_image_count_nonneg(d_before.weapons@, filter);
                lemma_image_count_nonneg(d_before.gadgets@, filter);
                lemma_image_count_nonneg(d_before.specializations@, filter);
                if r > 0 {
                    lemma_build_registered_any(d_before.weapons@, filter);
                    lemma_build_registered_any(d_before.gadgets@, filter);
                    lemma_build_registered_any(d_before.specializations@, filter);
                }
            }
            let ghost data_before = dataset;
            let ghost classes_before = classes@;
            let ghost pics_before = registered_pictures(*resources);
            let ghost next_before = next_image_id(*resources) as int;
            let entry = &mut classes[i];
            build_any_class(entry.0, &mut entry.1, resources, dataset.class_mut(mode), filter);
            proof {
                let pics_after = registered_pictures(*resources);
                let next_after = next_image_id(*resources) as int;
                lemma_keeps_trans(pics0, pics_before, pics_after, next0, next_before);
                assert forall|j: int| 0 <= j < n && (r > 0 || j <= i) implies desc_shows(
                    old_descs[j].1,
                    (#[trigger] classes@[j]).1,
                    pics_after,
                    next_after,
                ) by {
                    if j != i {
                        assert(classes@[j] == classes_before[j]);
                        lemma_desc_shows_carry(old_descs[j].1, classes@[j].1, pics_before, pics_after, next_before, next_after);
                    } else if r > 0 {
                        lemma_desc_shows_carry(old_descs[j].1, classes_before[j].1, pics_before, pics_after, next_before, next_after);
                        assert(desc_same(classes_before[j].1, classes@[j].1));
                    }
                }
                let d_after = classes@[i as int].1;
                let ti = total_images(old_descs.take(i as int));
                lemma_image_count_nonneg(d_before.weapons@, filter);
                lemma_id_range_join(next0, ti, desc_image_count(d_before, filter));
                lemma_id_range_join(next0 + total, 0, 0);
                if r == 0 {
                    assert(held0.union(id_range(next0, ti)).union(id_range(next0 + ti, desc_image_count(d_before, filter)))
                        =~= held0.union(id_range(next0, total_images(old_descs.take(i + 1)))));
                } else {
                    assert(held0.union(id_range(next0, total)).union(id_range(next0 + total, 0)) =~= held0.union(
                        id_range(next0, total),
                    ));
                }
                if r == 0 {
                    lemma_built_registers(d_before.weapons@, filter, next0 + total_images(old_descs.take(i as int)));
                    lemma_built_registers(d_before.gadgets@, filter, 0);
                    lemma_built_registers(d_before.specializations@, filter, 0);
                    assert(desc_registered(d_after)) by {
                        let nw = image_count(d_before.weapons@, filter);
                        let ng = image_count(d_before.gadgets@, filter);
                        lemma_built_registers(d_before.gadgets@, filter, next0 + total_images(old_descs.take(i as int)) + nw);
                        lemma_built_registers(d_before.specializations@, filter, next0 + total_images(old_descs.take(i as int)) + nw + ng);
                    }
                } else {
                    assert(desc_same(d_after, d_before));
                }
                assert(classes@.take(i as int) =~= classes_before.take(i as int));
                assert(classes@.take(i + 1).drop_last() =~= classes@.take(i as int));
                assert(classes@.take(i + 1).last() == classes@[i as int]);
                assert forall|c: int, k: int|
                    0 <= c < 3 && 0 <= k < 3 implies #[trigger] class_cat(dataset.classes(mode)@[c], k)
                        == gathered(classes@.take(i + 1), filter, c, k) by {
                    let ms = class_mentions(comma_pieces(old_descs[i as int].0@), c);
                    assert(class_gained(data_before.classes(mode)@[c], dataset.classes(mode)@[c], d_after, filter, ms));
                    assert(classes@[i as int].0 == old_descs[i as int].0);
                    assert(gathered(classes@.take(i + 1), filter, c, k) == gathered(classes@.take(i as int), filter, c, k)
                        + repeat(listed(desc_cat(d_after, k), filter), ms));
                    assert(class_cat(data_before.classes(mode)@[c], k) == gathered(classes_before.take(i as int), filter, c, k));
                    if k == 0 {
                        assert(class_cat(dataset.classes(mode)@[c], k) == dataset.classes(mode)@[c].weapons@);
                    } else if k == 1 {
                        assert(class_cat(dataset.classes(mode)@[c], k) == dataset.classes(mode)@[c].gadgets@);
                    } else {
                        assert(class_cat(dataset.classes(mode)@[c], k) == dataset.classes(mode)@[c].specials@);
                    }
                }
                assert forall|m: Gamemode, c: int, k: int|
                    0 <= c < 3 && 0 <= k < 3 && m != mode implies #[trigger] class_cat(dataset.classes(m)@[c], k)
                        == class_cat(data_before.classes(m)@[c], k) by {}
            }
            i = i + 1;
        }
        proof {
            assert(classes@.take(n as int) =~= classes@);
            assert(old_descs.take(n as int) =~= old_descs);
            if r > 0 {
                assert forall|m: Gamemode, c: int, k: int|
                    0 <= c < 3 && 0 <= k < 3 && round_of(m) < r implies gathered(round_start, filter_of(m), c, k)
                        == gathered(classes@, filter_of(m), c, k) by {
                    lemma_gathered_same(round_start, classes@, filter_of(m), c, k);
                }
            }
        }
        r = r + 1;
    }
    dataset
}

/// Descriptions with the same names and entries gather the same items.
proof fn lemma_gathered_same(a: Seq<(&'static str, ClassDesc)>, b: Seq<(&'static str, ClassDesc)>, filter: Option<Gamemode>, c: int, k: int)
    requires
        a.len() == b.len(),
        forall|j: int| 0 <= j < a.len() ==> (#[trigger] a[j]).0 == b[j].0 && desc_same(a[j].1, b[j].1),
    ensures
        gathered(a, filter, c, k) == gathered(b, filter, c, k),
    decreases a.len(),
{
    if a.len() > 0 {
        lemma_gathered_same(a.drop_last(), b.drop_last(), filter, c, k);
        assert(a.last() == a[a.len() - 1]);
        assert(b.last() == b[b.len() - 1]);
    }
}

/// Whether every comma separated name of `names` is a class name.
pub fn class_names_valid(names: &str) -> (valid: bool)
    ensures
        valid == valid_class_names(names@),
{
    proof {
        reveal_strlit("Light");
        reveal_strlit("Medium");
        reveal_strlit("Heavy");
        reveal_strlit("All");
    }
    let pieces = split_commas(names);
    let mut i: usize = 0;
    while i < pieces.len()
        invariant
            pieces@.len() == comma_pieces(names@).len(),
            forall|j: int| 0 <= j < pieces@.len() ==> (#[trigger] pieces@[j])@ == comma_pieces(names@)[j],
            i <= pieces@.len(),
            forall|j: int| 0 <= j < i ==> valid_class_name(#[trigger] comma_pieces(names@)[j]),
        decreases pieces@.len() - i,
    {
        let p = pieces[i];
        if !(str_equals(p, "Light") || str_equals(p, "Medium") || str_equals(p, "Heavy") || str_equals(p, "All")) {
            return false;
        }
        i = i + 1;
    }
    true
}

/// Builds the classes of every mode into a new image registry (see
/// `build_dataset`), which it hands back with the dataset.
pub fn build_dataset_with_new_resources(classes: &mut Vec<(&'static str, ClassDesc)>) -> (built: (Dataset, Resources))
    requires
        descs_buildable(old(classes)@),
        total_images(old(classes)@) <= IMAGE_ID_LIMIT,
    ensures
        final(classes)@.len() == old(classes)@.len(),
        forall|i: int|
            0 <= i < old(classes)@.len() ==> (#[trigger] final(classes)@[i]).0 == old(classes)@[i].0 && desc_built(
                old(classes)@[i].1,
                final(classes)@[i].1,
                Option::None,
                total_images(old(classes)@.take(i)),
            ),
        next_image_id(built.1) == total_images(old(classes)@),
        registered_images(built.1) == id_range(0, total_images(old(classes)@)),
        forall|i: int|
            0 <= i < old(classes)@.len() ==> desc_shows(
                old(classes)@[i].1,
                (#[trigger] final(classes)@[i]).1,
                registered_pictures(built.1),
                next_image_id(built.1) as int,
            ),
        forall|m: Gamemode, c: int, k: int|
            0 <= c < 3 && 0 <= k < 3 ==> #[trigger] class_cat(built.0.classes(m)@[c], k) == gathered(
                final(classes)@,
                filter_of(m),
                c,
                k,
            ),
{
    let mut resources = new_resources();
    let dataset = build_dataset(classes, &mut resources);
    assert(Set::<u32>::empty().union(id_range(0, total_images(old(classes)@))) =~= id_range(0, total_images(old(classes)@)));
    (dataset, resources)
}

/// Every entry still holds its loaded picture.
pub open spec fn all_unregistered(entries: Seq<(&'static str, EntryDesc)>) -> bool {
    forall|k: int| 0 <= k < entries.len() ==> (#[trigger] entries[k]).1.loaded is Image
}

proof fn lemma_image_count_all(entries: Seq<(&'static str, EntryDesc)>)
    requires
        all_unregistered(entries),
    ensures
        image_count(entries, Option::None) == entries.len(),
    decreases entries.len(),
{
    if entries.len() > 0 {
        assert(all_unregistered(entries.drop_last())) by {
            assert forall|k: int| 0 <= k < entries.drop_last().len() implies (#[trigger] entries.drop_last()[k]).1.loaded is Image by {
                assert(entries.drop_last()[k] == entries[k]);
            }
        }
        lemma_image_count_all(entries.drop_last());
    }
}

/// Building loaded entries without a filter registers each picture under its
/// own id: the `k`-th entry gets id `next + k`, so no two share one.
pub proof fn lemma_fresh_ids(entries: Seq<(&'static str, EntryDesc)>, next: int)
    requires
        all_unregistered(entries),
        0 <= next,
        next + entries.len() <= IMAGE_ID_LIMIT,
    ensures
        forall|k: int|
            0 <= k < entries.len() ==> (#[trigger] built(entries, Option::None, next)[k]).1.loaded == LoadedImage::Id((next + k) as u32),
        forall|j: int, k: int|
            0 <= j < k < entries.len() ==> built(entries, Option::None, next)[j].1.loaded != built(entries, Option::None, next)[k].1.loaded,
{
    assert forall|k: int| 0 <= k < entries.len() implies (#[trigger] built(entries, Option::None, next)[k]).1.loaded == LoadedImage::Id((next + k) as u32) by {
        assert(all_unregistered(entries.take(k))) by {
            assert forall|j: int| 0 <= j < entries.take(k).len() implies (#[trigger] entries.take(k)[j]).1.loaded is Image by {
                assert(entries.take(k)[j] == entries[j]);
            }
        }
        lemma_image_count_all(entries.take(k));
    }
}

/// Every entry of the description still holds its loaded picture.
pub open spec fn desc_fresh(d: ClassDesc) -> bool {
    &&& all_unregistered(d.weapons@)
    &&& all_unregistered(d.gadgets@)
    &&& all_unregistered(d.specializations@)
}

/// The entries hold the ids `next`, `next + 1`, ... in order.
pub open spec fn consecutive_ids(entries: Seq<(&'static str, EntryDesc)>, next: int) -> bool {
    forall|j: int| 0 <= j < entries.len() ==> (#[trigger] entries[j]).1.loaded == LoadedImage::Id((next + j) as u32)
}

/// The items' images rise strictly, so no two are the same.
pub open spec fn increasing_images(items: Seq<Item>) -> bool {
    forall|i: int, j: int| 0 <= i < j < items.len() ==> items[i].image < items[j].image
}

/// Every item's image lies in `lo..hi`.
pub open spec fn images_within(items: Seq<Item>, lo: int, hi: int) -> bool {
    forall|i: int| 0 <= i < items.len() ==> lo <= (#[trigger] items[i]).image < hi
}

proof fn lemma_listed_consecutive(entries: Seq<(&'static str, EntryDesc)>, filter: Option<Gamemode>, next: int)
    requires
        consecutive_ids(entries, next),
        0 <= next,
        next + entries.len() <= IMAGE_ID_LIMIT,
    ensures
        increasing_images(listed(entries, filter)),
        images_within(listed(entries, filter), next, next + entries.len()),
    decreases entries.len(),
{
    if entries.len() > 0 {
        let d = entries.drop_last();
        assert(consecutive_ids(d, next)) by {
            assert forall|j: int| 0 <= j < d.len() implies (#[trigger] d[j]).1.loaded == LoadedImage::Id((next + j) as u32) by {
                assert(d[j] == entries[j]);
            }
        }
        lemma_listed_consecutive(d, filter, next);
        assert(entries.last() == entries[entries.len() - 1]);
    }
}

proof fn lemma_fresh_built_consecutive(entries: Seq<(&'static str, EntryDesc)>, next: int)
    requires
        all_unregistered(entries),
        0 <= next,
        next + entries.len() <= IMAGE_ID_LIMIT,
    ensures
        consecutive_ids(built(entries, Option::None, next), next),
        image_count(entries, Option::None) == entries.len(),
{
    lemma_fresh_ids(entries, next);
    lemma_image_count_all(entries);
}

/// Increasing items in `lo..mid` followed by increasing items in `mid..hi`
/// are increasing items in `lo..hi`.
proof fn lemma_concat_increasing(a: Seq<Item>, b: Seq<Item>, lo: int, mid: int, hi: int)
    requires
        increasing_images(a),
        increasing_images(b),
        images_within(a, lo, mid),
        images_within(b, mid, hi),
        lo <= mid <= hi,
    ensures
        increasing_images(a + b),
        images_within(a + b, lo, hi),
{
    assert forall|i: int, j: int| 0 <= i < j < (a + b).len() implies (a + b)[i].image < (a + b)[j].image by {
        if j < a.len() {
        } else if i < a.len() {
            assert(a[i].image < mid);
            assert(mid <= b[j - a.len()].image);
        } else {
        }
    }
    assert forall|i: int| 0 <= i < (a + b).len() implies lo <= (#[trigger] (a + b)[i]).image < hi by {
        if i < a.len() {
            assert((a + b)[i] == a[i]);
        } else {
            assert((a + b)[i] == b[i - a.len()]);
        }
    }
}

/// A category of a built class holds each picture once: when every
/// description was freshly loaded and names the class at most once, the
/// images of the category's items rise strictly, description after
/// description, so no two items share a picture.
pub proof fn lemma_gathered_distinct(
    before: Seq<(&'static str, ClassDesc)>,
    after: Seq<(&'static str, ClassDesc)>,
    next: int,
    filter: Option<Gamemode>,
    c: int,
    k: int,
)
    requires
        before.len() == after.len(),
        forall|i: int|
            0 <= i < before.len() ==> (#[trigger] after[i]).0 == before[i].0 && desc_built(
                before[i].1,
                after[i].1,
                Option::None,
                next + total_images(before.take(i)),
            ),
        forall|i: int| 0 <= i < before.len() ==> desc_fresh((#[trigger] before[i]).1),
        forall|i: int| 0 <= i < before.len() ==> class_mentions(comma_pieces((#[trigger] before[i]).0@), c) <= 1,
        0 <= next,
        next + total_images(before) <= IMAGE_ID_LIMIT,
        0 <= k < 3,
    ensures
        increasing_images(gathered(after, filter, c, k)),
{
    lemma_gathered_prefix_distinct(before, after, next, filter, c, k, before.len() as int);
    assert(after.take(after.len() as int) =~= after);
}

proof fn lemma_gathered_prefix_distinct(
    before: Seq<(&'static str, ClassDesc)>,
    after: Seq<(&'static str, ClassDesc)>,
    next: int,
    filter: Option<Gamemode>,
    c: int,
    k: int,
    n: int,
)
    requires
        before.len() == after.len(),
        forall|i: int|
            0 <= i < before.len() ==> (#[trigger] after[i]).0 == before[i].0 && desc_built(
                before[i].1,
                after[i].1,
                Option::None,
                next + total_images(before.take(i)),
            ),
        forall|i: int| 0 <= i < before.len() ==> desc_fresh((#[trigger] before[i]).1),
        forall|i: int| 0 <= i < before.len() ==> class_mentions(comma_pieces((#[trigger] before[i]).0@), c) <= 1,
        0 <= next,
        next + total_images(before) <= IMAGE_ID_LIMIT,
        0 <= k < 3,
        0 <= n <= before.len(),
    ensures
        increasing_images(gathered(after.take(n), filter, c, k)),
        images_within(gathered(after.take(n), filter, c, k), next, next + total_images(before.take(n))),
    decreases n,
{
    if n == 0 {
        assert(after.take(0) =~= Seq::<(&'static str, ClassDesc)>::empty());
    } else {
        let i = n - 1;
        lemma_gathered_prefix_distinct(before, after, next, filter, c, k, i);
        lemma_total_images_step(before, i);
        let d = before[i].1;
        let e = after[i].1;
        let base = next + total_images(before.take(i));
        let lw = d.weapons@.len() as int;
        let lg = d.gadgets@.len() as int;
        let ls = d.specializations@.len() as int;
        assert(desc_fresh(d));
        assert(desc_built(d, e, Option::None, base));
        lemma_image_count_all(d.weapons@);
        lemma_image_count_all(d.gadgets@);
        lemma_image_count_all(d.specializations@);
        assert(total_images(before.take(n)) == total_images(before.take(i)) + lw + lg + ls);
        lemma_fresh_built_consecutive(d.weapons@, base);
        lemma_fresh_built_consecutive(d.gadgets@, base + lw);
        lemma_fresh_built_consecutive(d.specializations@, base + lw + lg);
        let (lo, len) = if k == 0 {
            (base, lw)
        } else if k == 1 {
            (base + lw, lg)
        } else {
            (base + lw + lg, ls)
        };
        assert(consecutive_ids(desc_cat(e, k), lo));
        assert(desc_cat(e, k).len() == len);
        lemma_listed_consecutive(desc_cat(e, k), filter, lo);
        let items = listed(desc_cat(e, k), filter);
        assert(after.take(n).drop_last() =~= after.take(i));
        assert(after.take(n).last() == after[i]);
        let m = class_mentions(comma_pieces(before[i].0@), c);
        lemma_class_mentions_nonneg(comma_pieces(before[i].0@), c);
        let rep = repeat(items, m);
        if m == 0 {
            assert(rep =~= Seq::<Item>::empty());
        } else {
            lemma_repeat_one(items);
        }
        assert(images_within(rep, base, next + total_images(before.take(n))));
        lemma_concat_increasing(gathered(after.take(i), filter, c, k), rep, next, base, next + total_images(before.take(n)));
    }
}

/// In a dataset built from freshly loaded descriptions that each name a
/// class at most once, no class of any mode has two gadgets with the same
/// picture, so by `lemma_no_duplicate_gadgets` no loadout drawn from it
/// repeats a gadget.
pub proof fn lemma_dataset_gadgets_distinct(
    dataset: Dataset,
    before: Seq<(&'static str, ClassDesc)>,
    after: Seq<(&'static str, ClassDesc)>,
    next: int,
)
    requires
        before.len() == after.len(),
        forall|i: int|
            0 <= i < before.len() ==> (#[trigger] after[i]).0 == before[i].0 && desc_built(
                before[i].1,
                after[i].1,
                Option::None,
                next + total_images(before.take(i)),
            ),
        forall|m: Gamemode, c: int, k: int|
            0 <= c < 3 && 0 <= k < 3 ==> #[trigger] class_cat(dataset.classes(m)@[c], k) == gathered(after, filter_of(m), c, k),
        forall|i: int| 0 <= i < before.len() ==> desc_fresh((#[trigger] before[i]).1),
        names_each_class_once(before),
        0 <= next,
        next + total_images(before) <= IMAGE_ID_LIMIT,
    ensures
        forall|m: Gamemode, c: int| 0 <= c < 3 ==> #[trigger] crate::loadout::gadget_images_distinct(dataset.classes(m)@[c]),
{
    assert forall|m: Gamemode, c: int| 0 <= c < 3 implies #[trigger] crate::loadout::gadget_images_distinct(dataset.classes(m)@[c]) by {
        assert forall|i: int| 0 <= i < before.len() implies class_mentions(comma_pieces((#[trigger] before[i]).0@), c) <= 1 by {
            assert(class_mentions(comma_pieces(before[i].0@), c) <= 1);
        }
        lemma_gathered_distinct(before, after, next, filter_of(m), c, 1);
        assert(class_cat(dataset.classes(m)@[c], 1) == gathered(after, filter_of(m), c, 1));
        let g = dataset.classes(m)@[c].gadgets@;
        assert forall|i: int, j: int| 0 <= i < g.len() && 0 <= j < g.len() && i != j implies g[i].image != g[j].image by {
            if i < j {
                assert(g[i].image < g[j].image);
            } else {
                assert(g[j].image < g[i].image);
            }
        }
    }
}

} // verus!
