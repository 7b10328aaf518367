//! Embedded images: which archive entries are images, what their transcoded
//! files are called, their descriptors, and how a relationship id leads to one.
use vstd::prelude::*;
use crate::decimal::lit;
use crate::bytes::{ends_with, eq_bytes, eq_lit, copied, ends_with_lit};
use crate::walker::{XmlEvent, attr_views};

verus! {

/// What the image decoder makes of `data`, its format guessed from the
/// leading bytes: width, height and the pixels as 8-bit RGB, or `None` where
/// no built-in format matches or decoding fails.
pub uninterp spec fn decoded_rgb(data: Seq<u8>) -> Option<(u32, u32, Seq<u8>)>;

/// Relies on `image::guess_format` to pick a built-in format from the magic
/// bytes (a fixed table), then on `image::load_from_memory_with_format`,
/// which decodes with that built-in format and consults no registered hook;
/// `GenericImageView::dimensions` gives the size and `DynamicImage::to_rgb8`
/// the pixels. The result depends on the bytes alone.
#[verifier::external_body]
fn decode_rgb(data: &[u8]) -> (r: Option<(u32, u32, Vec<u8>)>)
    ensures
        match r {
            Some((w, h, px)) => decoded_rgb(data@) == Some((w, h, px@)),
            None => decoded_rgb(data@) is None,
        },
{
    match image::guess_format(data) {
        Ok(format) => match image::load_from_memory_with_format(data, format) {
            Ok(img) => {
                let (w, h) = image::GenericImageView::dimensions(&img);
                Some((w, h, img.to_rgb8().into_raw()))
            },
            Err(_) => None,
        },
        Err(_) => None,
    }
}

pub open spec fn starts_with(s: Seq<u8>, prefix: Seq<u8>) -> bool {
    s.len() >= prefix.len() && s.subrange(0, prefix.len() as int) == prefix
}

/// An entry of the media directory with a raster extension.
pub open spec fn image_entry(name: Seq<u8>) -> bool {
    &&& starts_with(name, lit("word/media/"))
    &&& {
        ||| ends_with(name, lit(".png"))
        ||| ends_with(name, lit(".bmp"))
        ||| ends_with(name, lit(".gif"))
        ||| ends_with(name, lit(".jpeg"))
        ||| ends_with(name, lit(".jpg"))
    }
}

/// `s` without `prefix`, where it starts with it.
pub open spec fn strip_prefix(s: Seq<u8>, prefix: Seq<u8>) -> Seq<u8> {
    if starts_with(s, prefix) {
        s.subrange(prefix.len() as int, s.len() as int)
    } else {
        s
    }
}

/// Index just past the last `/`, or 0.
pub open spec fn name_start(s: Seq<u8>) -> int
    decreases s.len(),
{
    if s.len() == 0 {
        0
    } else if s.last() == 47u8 {
        s.len() as int
    } else {
        name_start(s.drop_last())
    }
}

/// Index of the last `.` in `s` at or after `from`.
pub open spec fn last_dot(s: Seq<u8>, from: int) -> Option<int>
    decreases s.len(),
{
    if s.len() == 0 || s.len() <= from {
        None
    } else if s.last() == 46u8 {
        Some(s.len() - 1)
    } else {
        last_dot(s.drop_last(), from)
    }
}

proof fn lemma_last_dot_bounds(s: Seq<u8>, from: int)
    ensures
        last_dot(s, from) is Some ==> from <= last_dot(s, from)->Some_0 < s.len() && 0 <= last_dot(s, from)->Some_0 && s[last_dot(s, from)->Some_0] == 46u8,
    decreases s.len(),
{
    if s.len() > 0 && s.len() > from && s.last() != 46u8 {
        lemma_last_dot_bounds(s.drop_last(), from);
        if last_dot(s.drop_last(), from) is Some {
            let d = last_dot(s.drop_last(), from)->Some_0;
            assert(0 <= d < s.drop_last().len());
            assert(s.drop_last()[d] == s[d]);
        }
    }
}

/// `s` with the extension of its last component replaced by `jpg`; a
/// component with no dot, or whose only dot leads it, gets `.jpg` added.
pub open spec fn with_jpg_extension(s: Seq<u8>) -> Seq<u8> {
    match last_dot(s, name_start(s) + 1) {
        Some(d) => s.take(d) + lit(".jpg"),
        None => s + lit(".jpg"),
    }
}

/// The name of the transcoded file for an archive entry: the media
/// directory dropped, the extension made `jpg`.
pub open spec fn jpg_name(path: Seq<u8>) -> Seq<u8> {
    with_jpg_extension(strip_prefix(path, lit("word/media/")))
}

/// The archive path a relationship target names, relative to the document's
/// directory; a leading `../` is dropped.
pub open spec fn part_path(target: Seq<u8>) -> Seq<u8> {
    lit("word/") + strip_prefix(target, lit("../"))
}

fn starts_with_lit(s: &[u8], p: &str) -> (r: bool)
    ensures
        r == starts_with(s@, lit(p)),
{
    let b = p.as_bytes();
    if s.len() < b.len() {
        return false;
    }
    let mut i: usize = 0;
    while i < b.len()
        invariant
            b@ == lit(p),
            b@.len() <= s@.len(),
            i <= b@.len(),
            forall|j: int| 0 <= j < i ==> s@[j] == b@[j],
        decreases b@.len() - i,
    {
        if s[i] != b[i] {
            assert(s@.subrange(0, b@.len() as int)[i as int] != b@[i as int]);
            return false;
        }
        i = i + 1;
    }
    assert(s@.subrange(0, b@.len() as int) =~= b@);
    true
}

fn strip_lit(s: &[u8], p: &str) -> (r: Vec<u8>)
    ensures
        r@ == strip_prefix(s@, lit(p)),
{
    let mut r: Vec<u8> = Vec::new();
    let mut i: usize = if starts_with_lit(s, p) {
        p.as_bytes().len()
    } else {
        0
    };
    let ghost from = i;
    while i < s.len()
        invariant
            from <= i <= s@.len(),
            r@ == s@.subrange(from as int, i as int),
        decreases s@.len() - i,
    {
        r.push(s[i]);
        assert(r@ =~= s@.subrange(from as int, i + 1));
        i = i + 1;
    }
    r
}

/// Whether an archive entry is an image to transcode.
pub fn is_image_entry(name: &[u8]) -> (r: bool)
    ensures
        r == image_entry(name@),
{
    starts_with_lit(name, "word/media/") && (ends_with_lit(name, ".png") || ends_with_lit(name, ".bmp")
        || ends_with_lit(name, ".gif") || ends_with_lit(name, ".jpeg") || ends_with_lit(name, ".jpg"))
}

/// The archive path that a relationship target names.
pub fn zip_path_for_target(target: &[u8]) -> (r: Vec<u8>)
    ensures
        r@ == part_path(target@),
{
    let rest = strip_lit(target, "../");
    let mut r: Vec<u8> = Vec::new();
    crate::decimal::push_lit(&mut r, "word/");
    r.extend_from_slice(rest.as_slice());
    r
}

fn find_name_start(s: &[u8]) -> (r: usize)
    ensures
        r == name_start(s@),
{
    let mut j: usize = s.len();
    assert(s@.take(j as int) =~= s@);
    while j > 0 && s[j - 1] != 47u8
        invariant
            j <= s@.len(),
            name_start(s@) == name_start(s@.take(j as int)),
        decreases j,
    {
        assert(s@.take(j as int).drop_last() =~= s@.take(j - 1));
        j = j - 1;
    }
    j
}

fn find_last_dot(s: &[u8], from: usize) -> (r: Option<usize>)
    ensures
        match r {
            Some(d) => last_dot(s@, from as int) == Some(d as int),
            None => last_dot(s@, from as int) is None,
        },
{
    let mut j: usize = s.len();
    assert(s@.take(j as int) =~= s@);
    while j > from
        invariant
            j <= s@.len(),
            last_dot(s@, from as int) == last_dot(s@.take(j as int), from as int),
        decreases j,
    {
        if s[j - 1] == 46u8 {
            return Some(j - 1);
        }
        assert(s@.take(j as int).drop_last() =~= s@.take(j - 1));
        j = j - 1;
    }
    None
}

/// The name of the transcoded file for the archive entry `path`.
pub fn temp_file_name(path: &[u8]) -> (r: Vec<u8>)
    ensures
        r@ == jpg_name(path@),
{
    let s = strip_lit(path, "word/media/");
    let start = find_name_start(s.as_slice());
    let mut r: Vec<u8> = Vec::new();
    let found = if start < s.len() {
        find_last_dot(s.as_slice(), start + 1)
    } else {
        None
    };
    let end = match found {
        Some(d) => d,
        None => s.len(),
    };
    assert(r@ =~= s@.take(0));
    proof {
        lemma_last_dot_bounds(s@, name_start(s@) + 1);
    }
    let mut i: usize = 0;
    while i < end
        invariant
            end <= s@.len(),
            i <= end,
            r@ == s@.take(i as int),
        decreases end - i,
    {
        r.push(s[i]);
        assert(r@ =~= s@.take(i + 1));
        i = i + 1;
    }
    assert(s@.take(s@.len() as int) =~= s@);
    crate::decimal::push_lit(&mut r, ".jpg");
    r
}

/// The value of the last entry under `key`.
pub open spec fn find_last<V>(entries: Seq<(Seq<u8>, V)>, key: Seq<u8>) -> Option<V>
    decreases entries.len(),
{
    if entries.len() == 0 {
        None
    } else if entries.last().0 == key {
        Some(entries.last().1)
    } else {
        find_last(entries.drop_last(), key)
    }
}

/// What the transcoder knows of one image.
pub struct ImageParams {
    pub w: u32,
    pub h: u32,
    /// Length of the transcoded JPEG, in bytes.
    pub len: usize,
    /// Name of the transcoded file in the run's temporary directory.
    pub path: Vec<u8>,
}

impl View for ImageParams {
    type V = (u32, u32, usize, Seq<u8>);

    open spec fn view(&self) -> (u32, u32, usize, Seq<u8>) {
        (self.w, self.h, self.len, self.path@)
    }
}

impl ImageParams {
    pub fn copy(&self) -> (r: ImageParams)
        ensures
            r@ == self@,
    {
        ImageParams { w: self.w, h: self.h, len: self.len, path: copied(self.path.as_slice()) }
    }
}

/// A decoded source image waiting for the JPEG encoder.
pub struct DecodedImage {
    pub w: u32,
    pub h: u32,
    /// The pixels as 8-bit RGB, row by row.
    pub pixels: Vec<u8>,
    /// Name of the transcoded file in the run's temporary directory.
    pub path: Vec<u8>,
}

/// What decoding the source bytes `data` of the entry `path` gives: width,
/// height, RGB pixels and the transcoded file's name, or nothing where
/// decoding fails.
pub open spec fn described(data: Seq<u8>, path: Seq<u8>, r: Option<(u32, u32, Seq<u8>, Seq<u8>)>) -> bool {
    match decoded_rgb(data) {
        Some((w, h, px)) => r == Some((w, h, px, jpg_name(path))),
        None => r is None,
    }
}

/// Decodes the source image `data` of archive entry `path`, ready for the
/// JPEG encoder. JPEG sources are decoded too: every image is re-encoded.
pub fn process_single_image(data: &[u8], path: &[u8]) -> (r: Option<DecodedImage>)
    ensures
        described(data@, path@, match r {
            Some(d) => Some((d.w, d.h, d.pixels@, d.path@)),
            None => None,
        }),
{
    match decode_rgb(data) {
        Some((w, h, px)) => Some(DecodedImage { w, h, pixels: px, path: temp_file_name(path) }),
        None => None,
    }
}

impl DecodedImage {
    /// The descriptor of this image once encoded as `jpeg`: its size, the
    /// encoded byte length and the transcoded file's name.
    pub fn describe(&self, jpeg: &[u8]) -> (r: ImageParams)
        ensures
            r@ == (self.w, self.h, jpeg@.len() as usize, self.path@),
    {
        ImageParams { w: self.w, h: self.h, len: jpeg.len(), path: copied(self.path.as_slice()) }
    }
}

/// Decoding the same bytes twice gives the same width, height and pixels,
/// whatever the entries are called; so equal encodings of them give equal
/// descriptors but for the file name.
pub proof fn lemma_descriptor_depends_on_bytes(
    data: Seq<u8>,
    path1: Seq<u8>,
    path2: Seq<u8>,
    r1: Option<(u32, u32, Seq<u8>, Seq<u8>)>,
    r2: Option<(u32, u32, Seq<u8>, Seq<u8>)>,
)
    requires
        described(data, path1, r1),
        described(data, path2, r2),
    ensures
        r1 is Some == r2 is Some,
        r1 is Some ==> {
            let (a, b) = (r1->Some_0, r2->Some_0);
            a.0 == b.0 && a.1 == b.1 && a.2 == b.2
        },
{
}

/// The descriptors that were made, in order, with the entries whose
/// decoding failed left out.
pub open spec fn kept(outcomes: Seq<(Seq<u8>, Option<(u32, u32, usize, Seq<u8>)>)>) -> Seq<(Seq<u8>, (u32, u32, usize, Seq<u8>))>
    decreases outcomes.len(),
{
    if outcomes.len() == 0 {
        seq![]
    } else {
        match outcomes.last().1 {
            Some(p) => kept(outcomes.drop_last()).push((outcomes.last().0, p)),
            None => kept(outcomes.drop_last()),
        }
    }
}

pub open spec fn outcome_views(outcomes: Seq<(Vec<u8>, Option<ImageParams>)>) -> Seq<(Seq<u8>, Option<(u32, u32, usize, Seq<u8>)>)> {
    outcomes.map_values(|o: (Vec<u8>, Option<ImageParams>)| (o.0@, match o.1 {
        Some(p) => Some(p@),
        None => None,
    }))
}

/// An entry whose every outcome failed is absent from the mapping.
pub proof fn lemma_failed_absent(outcomes: Seq<(Seq<u8>, Option<(u32, u32, usize, Seq<u8>)>)>, key: Seq<u8>)
    requires
        forall|i: int| 0 <= i < outcomes.len() && (#[trigger] outcomes[i]).0 == key ==> outcomes[i].1 is None,
    ensures
        find_last(kept(outcomes), key) is None,
    decreases outcomes.len(),
{
    if outcomes.len() > 0 {
        let front = outcomes.drop_last();
        assert forall|i: int| 0 <= i < front.len() && (#[trigger] front[i]).0 == key implies front[i].1 is None by {
            assert(front[i] == outcomes[i]);
        }
        lemma_failed_absent(front, key);
        assert(outcomes.last() == outcomes[outcomes.len() - 1]);
        if let Some(p) = outcomes.last().1 {
            let x = (outcomes.last().0, p);
            assert(kept(front).push(x).drop_last() =~= kept(front));
        }
    }
}

/// Descriptors of the transcoded images, by archive path.
pub struct ImageMap {
    pub entries: Vec<(Vec<u8>, ImageParams)>,
}

impl View for ImageMap {
    type V = Seq<(Seq<u8>, (u32, u32, usize, Seq<u8>))>;

    open spec fn view(&self) -> Seq<(Seq<u8>, (u32, u32, usize, Seq<u8>))> {
        self.entries@.map_values(|e: (Vec<u8>, ImageParams)| (e.0@, e.1@))
    }
}

impl ImageMap {
    /// The mapping made of the per-image outcomes: the failed ones are dropped.
    pub fn from_outcomes(outcomes: Vec<(Vec<u8>, Option<ImageParams>)>) -> (r: ImageMap)
        ensures
            r@ == kept(outcome_views(outcomes@)),
    {
        let ghost ov = outcome_views(outcomes@);
        let mut entries: Vec<(Vec<u8>, ImageParams)> = Vec::new();
        let mut i: usize = 0;
        while i < outcomes.len()
            invariant
                i <= outcomes@.len(),
                ov == outcome_views(outcomes@),
                entries@.map_values(|e: (Vec<u8>, ImageParams)| (e.0@, e.1@)) == kept(ov.take(i as int)),
            decreases outcomes@.len() - i,
        {
            let ghost before = entries@;
            assert(ov.take(i + 1).drop_last() =~= ov.take(i as int));
            assert(ov.take(i + 1).last() == ov[i as int]);
            match &outcomes[i].1 {
                Some(p) => {
                    entries.push((copied(outcomes[i].0.as_slice()), p.copy()));
                    assert(entries@.map_values(|e: (Vec<u8>, ImageParams)| (e.0@, e.1@)) =~= before.map_values(
                        |e: (Vec<u8>, ImageParams)| (e.0@, e.1@),
                    ).push((outcomes@[i as int].0@, p@)));
                },
                None => {},
            }
            i = i + 1;
        }
        assert(ov.take(ov.len() as int) =~= ov);
        ImageMap { entries }
    }

    /// The descriptor of the image at archive path `key`.
    pub fn get(&self, key: &[u8]) -> (r: Option<ImageParams>)
        ensures
            match r {
                Some(p) => find_last(self@, key@) == Some(p@),
                None => find_last(self@, key@) is None,
            },
    {
        let mut j: usize = self.entries.len();
        assert(self@.take(j as int) =~= self@);
        while j > 0
            invariant
                j <= self.entries@.len(),
                find_last(self@, key@) == find_last(self@.take(j as int), key@),
            decreases j,
        {
            assert(self@.take(j as int).last() == self@[j - 1]);
            if eq_bytes(self.entries[j - 1].0.as_slice(), key) {
                return Some(self.entries[j - 1].1.copy());
            }
            assert(self@.take(j as int).drop_last() =~= self@.take(j - 1));
            j = j - 1;
        }
        None
    }
}

/// The value of the last attribute named exactly `key`.
pub open spec fn attr_last(attrs: Seq<(Seq<u8>, Seq<u8>)>, key: Seq<u8>) -> Option<Seq<u8>> {
    find_last(attrs, key)
}

fn attr_value(attrs: &Vec<(Vec<u8>, Vec<u8>)>, key: &str) -> (r: Option<Vec<u8>>)
    ensures
        match r {
            Some(v) => attr_last(attr_views(attrs@), lit(key)) == Some(v@),
            None => attr_last(attr_views(attrs@), lit(key)) is None,
        },
{
    let ghost v = attr_views(attrs@);
    let mut j: usize = attrs.len();
    assert(v.take(j as int) =~= v);
    while j > 0
        invariant
            j <= attrs@.len(),
            v == attr_views(attrs@),
            attr_last(v, lit(key)) == find_last(v.take(j as int), lit(key)),
        decreases j,
    {
        assert(v.take(j as int).last() == v[j - 1]);
        if eq_lit(attrs[j - 1].0.as_slice(), key) {
            return Some(copied(attrs[j - 1].1.as_slice()));
        }
        assert(v.take(j as int).drop_last() =~= v.take(j - 1));
        j = j - 1;
    }
    None
}

/// Relationship ids and their targets, as the relationships part lists them.
pub struct RelMap {
    pub entries: Vec<(Vec<u8>, Vec<u8>)>,
}

impl View for RelMap {
    type V = Seq<(Seq<u8>, Seq<u8>)>;

    open spec fn view(&self) -> Seq<(Seq<u8>, Seq<u8>)> {
        self.entries@.map_values(|e: (Vec<u8>, Vec<u8>)| (e.0@, e.1@))
    }
}

impl RelMap {
    pub fn new() -> (r: RelMap)
        ensures
            r@ == Seq::<(Seq<u8>, Seq<u8>)>::empty(),
    {
        RelMap { entries: Vec::new() }
    }

    /// Takes in one event of the relationships part: a relationship element
    /// with both an `Id` and a `Target` adds that pair.
    pub fn handle_event(&mut self, ev: &XmlEvent)
        ensures
            match ev {
                XmlEvent::Start { name, attrs } | XmlEvent::Empty { name, attrs } => {
                    let id = attr_last(attr_views(attrs@), lit("Id"));
                    let target = attr_last(attr_views(attrs@), lit("Target"));
                    if ends_with(name@, lit("Relationship")) && id is Some && target is Some {
                        final(self)@ == old(self)@.push((id->Some_0, target->Some_0))
                    } else {
                        final(self)@ == old(self)@
                    }
                },
                _ => final(self)@ == old(self)@,
            },
    {
        match ev {
            XmlEvent::Start { name, attrs } | XmlEvent::Empty { name, attrs } => {
                if ends_with_lit(name.as_slice(), "Relationship") {
                    let id = attr_value(attrs, "Id");
                    let target = attr_value(attrs, "Target");
                    match (id, target) {
                        (Some(i), Some(t)) => {
                            let ghost before = self@;
                            self.entries.push((i, t));
                            assert(self@ =~= before.push((i@, t@)));
                        },
                        _ => {},
                    }
                }
            },
            _ => {},
        }
    }

    /// The target of relationship `rid`.
    pub fn get(&self, rid: &[u8]) -> (r: Option<Vec<u8>>)
        ensures
            match r {
                Some(t) => find_last(self@, rid@) == Some(t@),
                None => find_last(self@, rid@) is None,
            },
    {
        let mut j: usize = self.entries.len();
        assert(self@.take(j as int) =~= self@);
        while j > 0
            invariant
                j <= self.entries@.len(),
                find_last(self@, rid@) == find_last(self@.take(j as int), rid@),
            decreases j,
        {
            assert(self@.take(j as int).last() == self@[j - 1]);
            if eq_bytes(self.entries[j - 1].0.as_slice(), rid) {
                return Some(copied(self.entries[j - 1].1.as_slice()));
            }
            assert(self@.take(j as int).drop_last() =~= self@.take(j - 1));
            j = j - 1;
        }
        None
    }
}

/// The descriptor of the image that relationship `rid` points at, if the
/// relationship exists and that image was transcoded.
pub open spec fn resolved(rels: Seq<(Seq<u8>, Seq<u8>)>, images: Seq<(Seq<u8>, (u32, u32, usize, Seq<u8>))>, rid: Seq<u8>) -> Option<(u32, u32, usize, Seq<u8>)> {
    match find_last(rels, rid) {
        Some(t) => find_last(images, part_path(t)),
        None => None,
    }
}

/// Follows relationship `rid` to the descriptor of its image.
pub fn media_lookup(rels: &RelMap, images: &ImageMap, rid: &[u8]) -> (r: Option<ImageParams>)
    ensures
        match r {
            Some(p) => resolved(rels@, images@, rid@) == Some(p@),
            None => resolved(rels@, images@, rid@) is None,
        },
{
    match rels.get(rid) {
        Some(t) => {
            let path = zip_path_for_target(t.as_slice());
            images.get(path.as_slice())
        },
        None => None,
    }
}

/// The archive entries to transcode, each with its index in the archive.
pub open spec fn image_entries(names: Seq<Seq<u8>>) -> Seq<(usize, Seq<u8>)>
    decreases names.len(),
{
    if names.len() == 0 {
        seq![]
    } else if image_entry(names.last()) {
        image_entries(names.drop_last()).push(((names.len() - 1) as usize, names.last()))
    } else {
        image_entries(names.drop_last())
    }
}

/// Picks, from the archive's entry names in index order, the images to transcode.
pub fn select_image_entries(names: &Vec<Vec<u8>>) -> (r: Vec<(usize, Vec<u8>)>)
    ensures
        r@.map_values(|e: (usize, Vec<u8>)| (e.0, e.1@)) == image_entries(names@.map_values(|n: Vec<u8>| n@)),
{
    let ghost ns = names@.map_values(|n: Vec<u8>| n@);
    let mut r: Vec<(usize, Vec<u8>)> = Vec::new();
    let mut i: usize = 0;
    while i < names.len()
        invariant
            i <= names@.len(),
            ns == names@.map_values(|n: Vec<u8>| n@),
            r@.map_values(|e: (usize, Vec<u8>)| (e.0, e.1@)) == image_entries(ns.take(i as int)),
        decreases names@.len() - i,
    {
        assert(ns.take(i + 1).drop_last() =~= ns.take(i as int));
        assert(ns.take(i + 1).last() == ns[i as int]);
        let ghost before = r@;
        if is_image_entry(names[i].as_slice()) {
            r.push((i, copied(names[i].as_slice())));
            assert(r@.map_values(|e: (usize, Vec<u8>)| (e.0, e.1@)) =~= before.map_values(
                |e: (usize, Vec<u8>)| (e.0, e.1@),
            ).push((i, ns[i as int])));
        }
        i = i + 1;
    }
    assert(ns.take(ns.len() as int) =~= ns);
    r
}

} // verus!
