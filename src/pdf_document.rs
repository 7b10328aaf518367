//! Text streams, images, pages and the document's root objects, written
//! through a `PdfStreamWriter`.
use vstd::prelude::*;
use crate::decimal::{digits, lit, push_digits, push_lit, lemma_digits_injective};
use crate::pdf_stream_writer::{PdfStreamWriter, WriterError, framed, frame_fits, closing_bytes, joined, lemma_literal_lengths};

verus! {

/// `text` with every parenthesis preceded by a backslash.
pub open spec fn escape_parens(text: Seq<u8>) -> Seq<u8>
    decreases text.len(),
{
    if text.len() == 0 {
        seq![]
    } else {
        let c = text.last();
        escape_parens(text.drop_last()) + if c == 40u8 || c == 41u8 {
            seq![92u8, c]
        } else {
            seq![c]
        }
    }
}

/// A stream object's dictionary and data: `<< /Length n >>`, then the data between
/// `stream` and `endstream`.
pub open spec fn stream_of(data: Seq<u8>) -> Seq<u8> {
    lit("<< /Length ") + digits(data.len()) + lit(" >>\nstream\n") + data + lit("\nendstream")
}

/// Painting instructions that show `text` near the top of the page.
pub open spec fn text_content(text: Seq<u8>) -> Seq<u8> {
    lit("BT /F1 12 Tf 0 720 Td (") + escape_parens(text) + lit(") Tj ET")
}

/// The body of the text object for `text`.
pub open spec fn text_body(text: Seq<u8>) -> Seq<u8> {
    stream_of(text_content(text)) + lit("\n")
}

/// The body of an image object holding JPEG `data` of the given size.
pub open spec fn image_body(data: Seq<u8>, w: u32, h: u32) -> Seq<u8> {
    lit("<< /Type /XObject /Subtype /Image /Width ") + digits(w as nat) + lit(" /Height ") + digits(h as nat)
        + lit(" /ColorSpace /DeviceRGB /BitsPerComponent 8 /Filter /DCTDecode /Length ")
        + digits(data.len()) + lit(" >>\nstream\n") + data + lit("\nendstream")
}

/// The name under which a page's resources list image object `id`.
pub open spec fn resource_name(id: u32) -> Seq<u8> {
    lit("Im") + digits(id as nat)
}

/// Instructions that draw image object `id` on a fixed square.
pub open spec fn draw_content(id: u32) -> Seq<u8> {
    lit("q\n500 0 0 500 0 0 cm\n/") + resource_name(id) + lit(" Do\nQ\n")
}

/// `id 0 R`: a reference to object `id`.
pub open spec fn obj_ref(id: u32) -> Seq<u8> {
    digits(id as nat) + lit(" 0 R")
}

/// References to `ids`, separated by single spaces.
pub open spec fn refs_joined(ids: Seq<u32>) -> Seq<u8>
    decreases ids.len(),
{
    if ids.len() == 0 {
        seq![]
    } else if ids.len() == 1 {
        obj_ref(ids[0])
    } else {
        refs_joined(ids.drop_last()) + lit(" ") + obj_ref(ids.last())
    }
}

/// `/ImN N 0 R ` for each image object of the page.
pub open spec fn xobject_entries(imgs: Seq<(u32, u32)>) -> Seq<u8>
    decreases imgs.len(),
{
    if imgs.len() == 0 {
        seq![]
    } else {
        xobject_entries(imgs.drop_last()) + lit("/") + resource_name(imgs.last().0) + lit(" ")
            + obj_ref(imgs.last().0) + lit(" ")
    }
}

/// The page's resource entry: empty for a page without images.
pub open spec fn resources(imgs: Seq<(u32, u32)>) -> Seq<u8> {
    if imgs.len() == 0 {
        seq![]
    } else {
        lit("/Resources << /XObject << ") + xobject_entries(imgs) + lit(">> >>")
    }
}

/// The content streams of a page in painting order: its text streams, then the
/// streams that draw its images.
pub open spec fn page_contents(texts: Seq<u32>, imgs: Seq<(u32, u32)>) -> Seq<u32> {
    texts + imgs.map_values(|p: (u32, u32)| p.1)
}

/// The dictionary of a page whose parent is `parent`.
pub open spec fn page_body(parent: u32, texts: Seq<u32>, imgs: Seq<(u32, u32)>) -> Seq<u8> {
    lit("<< /Type /Page /Parent ") + obj_ref(parent) + lit(" /MediaBox [0 0 595 842] ") + resources(imgs)
        + lit(" /Contents [") + refs_joined(page_contents(texts, imgs)) + lit("] >>")
}

/// `id 0 R ` for each page.
pub open spec fn kids(ids: Seq<u32>) -> Seq<u8>
    decreases ids.len(),
{
    if ids.len() == 0 {
        seq![]
    } else {
        kids(ids.drop_last()) + obj_ref(ids.last()) + lit(" ")
    }
}

/// The dictionary of the pages root.
pub open spec fn pages_body(ids: Seq<u32>) -> Seq<u8> {
    lit("<< /Type /Pages /Count ") + digits(ids.len()) + lit(" /Kids [") + kids(ids) + lit("] >>")
}

/// The dictionary of the catalog.
pub open spec fn catalog_body(pages: u32) -> Seq<u8> {
    lit("<< /Type /Catalog /Pages ") + obj_ref(pages) + lit(" >>")
}

/// Distinct image objects get distinct resource names, so the names on one
/// page never collide.
pub proof fn lemma_resource_names_distinct(a: u32, b: u32)
    requires
        a != b,
    ensures
        resource_name(a) != resource_name(b),
{
    if resource_name(a) == resource_name(b) {
        let p = lit("Im");
        assert(digits(a as nat) =~= resource_name(a).subrange(p.len() as int, resource_name(a).len() as int));
        assert(digits(b as nat) =~= resource_name(b).subrange(p.len() as int, resource_name(b).len() as int));
        lemma_digits_injective(a as nat, b as nat);
    }
}

fn push_ref(out: &mut Vec<u8>, id: u32)
    ensures
        final(out)@ == old(out)@ + obj_ref(id),
{
    let ghost start = out@;
    push_digits(out, id as u64);
    push_lit(out, " 0 R");
    assert(out@ =~= start + obj_ref(id));
}

fn escaped(text: &[u8]) -> (r: Vec<u8>)
    ensures
        r@ == escape_parens(text@),
{
    let mut r: Vec<u8> = Vec::new();
    let mut i: usize = 0;
    while i < text.len()
        invariant
            i <= text@.len(),
            r@ == escape_parens(text@.take(i as int)),
        decreases text@.len() - i,
    {
        let c = text[i];
        if c == 40u8 || c == 41u8 {
            r.push(92u8);
        }
        r.push(c);
        assert(text@.take(i + 1).drop_last() =~= text@.take(i as int));
        assert(r@ =~= escape_parens(text@.take(i + 1)));
        i = i + 1;
    }
    assert(text@.take(text@.len() as int) =~= text@);
    r
}

/// Appends `stream_of(data)`.
fn push_stream(out: &mut Vec<u8>, data: &[u8])
    ensures
        final(out)@ == old(out)@ + stream_of(data@),
{
    let ghost start = out@;
    push_lit(out, "<< /Length ");
    push_digits(out, data.len() as u64);
    push_lit(out, " >>\nstream\n");
    out.extend_from_slice(data);
    push_lit(out, "\nendstream");
    assert(out@ =~= start + stream_of(data@));
}

/// The text object's body for `text`.
fn text_object_body(text: &[u8]) -> (r: Vec<u8>)
    ensures
        r@ == text_body(text@),
{
    let esc = escaped(text);
    let mut content: Vec<u8> = Vec::new();
    push_lit(&mut content, "BT /F1 12 Tf 0 720 Td (");
    content.extend_from_slice(esc.as_slice());
    push_lit(&mut content, ") Tj ET");
    assert(content@ =~= text_content(text@));
    let mut r: Vec<u8> = Vec::new();
    push_stream(&mut r, content.as_slice());
    push_lit(&mut r, "\n");
    r
}

fn image_object_body(data: &[u8], w: u32, h: u32) -> (r: Vec<u8>)
    ensures
        r@ == image_body(data@, w, h),
{
    let mut r: Vec<u8> = Vec::new();
    push_lit(&mut r, "<< /Type /XObject /Subtype /Image /Width ");
    push_digits(&mut r, w as u64);
    push_lit(&mut r, " /Height ");
    push_digits(&mut r, h as u64);
    push_lit(&mut r, " /ColorSpace /DeviceRGB /BitsPerComponent 8 /Filter /DCTDecode /Length ");
    push_digits(&mut r, data.len() as u64);
    push_lit(&mut r, " >>\nstream\n");
    r.extend_from_slice(data);
    push_lit(&mut r, "\nendstream");
    assert(r@ =~= image_body(data@, w, h));
    r
}

fn draw_object_body(id: u32) -> (r: Vec<u8>)
    ensures
        r@ == stream_of(draw_content(id)),
{
    let mut content: Vec<u8> = Vec::new();
    push_lit(&mut content, "q\n500 0 0 500 0 0 cm\n/");
    push_lit(&mut content, "Im");
    push_digits(&mut content, id as u64);
    push_lit(&mut content, " Do\nQ\n");
    assert(content@ =~= draw_content(id));
    let mut r: Vec<u8> = Vec::new();
    push_stream(&mut r, content.as_slice());
    r
}

fn push_refs_joined(out: &mut Vec<u8>, ids: &Vec<u32>)
    ensures
        final(out)@ == old(out)@ + refs_joined(ids@),
{
    let ghost start = out@;
    let mut i: usize = 0;
    while i < ids.len()
        invariant
            i <= ids@.len(),
            out@ == start + refs_joined(ids@.take(i as int)),
        decreases ids@.len() - i,
    {
        assert(ids@.take(i + 1).drop_last() =~= ids@.take(i as int));
        if i > 0 {
            push_lit(out, " ");
        }
        push_ref(out, ids[i]);
        assert(out@ =~= start + refs_joined(ids@.take(i + 1)));
        i = i + 1;
    }
    assert(ids@.take(ids@.len() as int) =~= ids@);
}

fn page_object_body(parent: u32, texts: &[u32], imgs: &[(u32, u32)]) -> (r: Vec<u8>)
    ensures
        r@ == page_body(parent, texts@, imgs@),
{
    let mut contents: Vec<u32> = Vec::new();
    contents.extend_from_slice(texts);
    let mut entries: Vec<u8> = Vec::new();
    let mut i: usize = 0;
    while i < imgs.len()
        invariant
            i <= imgs@.len(),
            contents@ == page_contents(texts@, imgs@.take(i as int)),
            entries@ == xobject_entries(imgs@.take(i as int)),
        decreases imgs@.len() - i,
    {
        let (img, draw) = imgs[i];
        contents.push(draw);
        push_lit(&mut entries, "/");
        push_lit(&mut entries, "Im");
        push_digits(&mut entries, img as u64);
        push_lit(&mut entries, " ");
        push_ref(&mut entries, img);
        push_lit(&mut entries, " ");
        assert(imgs@.take(i + 1).drop_last() =~= imgs@.take(i as int));
        assert(entries@ =~= xobject_entries(imgs@.take(i + 1)));
        assert(contents@ =~= page_contents(texts@, imgs@.take(i + 1)));
        i = i + 1;
    }
    assert(imgs@.take(imgs@.len() as int) =~= imgs@);
    let mut r: Vec<u8> = Vec::new();
    push_lit(&mut r, "<< /Type /Page /Parent ");
    push_ref(&mut r, parent);
    push_lit(&mut r, " /MediaBox [0 0 595 842] ");
    if imgs.len() > 0 {
        push_lit(&mut r, "/Resources << /XObject << ");
        r.extend_from_slice(entries.as_slice());
        push_lit(&mut r, ">> >>");
    }
    push_lit(&mut r, " /Contents [");
    push_refs_joined(&mut r, &contents);
    push_lit(&mut r, "] >>");
    assert(r@ =~= page_body(parent, texts@, imgs@));
    r
}

fn pages_object_body(ids: &Vec<u32>) -> (r: Vec<u8>)
    ensures
        r@ == pages_body(ids@),
{
    let mut r: Vec<u8> = Vec::new();
    push_lit(&mut r, "<< /Type /Pages /Count ");
    push_digits(&mut r, ids.len() as u64);
    push_lit(&mut r, " /Kids [");
    let ghost start = r@;
    let mut i: usize = 0;
    while i < ids.len()
        invariant
            i <= ids@.len(),
            r@ == start + kids(ids@.take(i as int)),
        decreases ids@.len() - i,
    {
        assert(ids@.take(i + 1).drop_last() =~= ids@.take(i as int));
        push_ref(&mut r, ids[i]);
        push_lit(&mut r, " ");
        assert(r@ =~= start + kids(ids@.take(i + 1)));
        i = i + 1;
    }
    assert(ids@.take(ids@.len() as int) =~= ids@);
    push_lit(&mut r, "] >>");
    assert(r@ =~= pages_body(ids@));
    r
}

fn catalog_object_body(pages: u32) -> (r: Vec<u8>)
    ensures
        r@ == catalog_body(pages),
{
    let mut r: Vec<u8> = Vec::new();
    push_lit(&mut r, "<< /Type /Catalog /Pages ");
    push_ref(&mut r, pages);
    push_lit(&mut r, " >>");
    assert(r@ =~= catalog_body(pages));
    r
}

pub struct PdfDocument {
    writer: PdfStreamWriter,
    pages_id: u32,
    page_ids: Vec<u32>,
    texts: Ghost<nat>,
    images: Ghost<nat>,
}

impl PdfDocument {
    /// Every byte produced so far, taken or not.
    pub closed spec fn output(&self) -> Seq<u8> {
        self.writer.output()
    }

    pub closed spec fn taken(&self) -> nat {
        self.writer.taken()
    }

    /// One entry per issued object number: its offset, or `None` while unwritten.
    pub closed spec fn slots(&self) -> Seq<Option<u64>> {
        self.writer.slots()
    }

    pub closed spec fn next_id(&self) -> nat {
        self.writer.next_id()
    }

    /// The pages written so far, in order.
    pub closed spec fn pages(&self) -> Seq<u32> {
        self.page_ids@
    }

    /// The number reserved for the pages root.
    pub closed spec fn pages_root(&self) -> u32 {
        self.pages_id
    }

    /// How many text objects were written.
    pub closed spec fn text_count(&self) -> nat {
        self.texts@
    }

    /// How many images were written, each as an image object and a drawing stream.
    pub closed spec fn image_count(&self) -> nat {
        self.images@
    }

    pub closed spec fn wf(&self) -> bool {
        &&& self.writer.wf()
        &&& self.pages_id == 1
        &&& self.writer.slots().len() >= 1
        &&& self.writer.slots()[0] is None
        &&& forall|i: int| 1 <= i < self.writer.slots().len() ==> (#[trigger] self.writer.slots()[i]) is Some
        &&& self.writer.next_id() == 2 + self.texts@ + 2 * self.images@ + self.page_ids@.len()
    }

    /// Every issued number but the reserved pages root already has a body, and
    /// the numbers issued are the pages root, the text objects, two per image
    /// and the pages.
    pub proof fn lemma_issued(&self)
        requires
            self.wf(),
        ensures
            self.pages_root() == 1,
            self.slots().len() == 1 + self.text_count() + 2 * self.image_count() + self.pages().len(),
            self.next_id() == self.slots().len() + 1,
            self.slots()[0] is None,
            forall|i: int| 1 <= i < self.slots().len() ==> (#[trigger] self.slots()[i]) is Some,
    {
        self.writer.lemma_bookkeeping();
    }

    /// Every written object's recorded offset points at its own opening line,
    /// no two share an offset, and all numbers stay within `u32`.
    pub proof fn lemma_markers(&self)
        requires
            self.wf(),
        ensures
            crate::pdf_stream_writer::markers_resolve(self.output(), self.slots()),
            crate::pdf_stream_writer::offsets_distinct(self.slots()),
            self.next_id() <= u32::MAX,
            forall|i: int|
                0 <= i < self.slots().len() && (#[trigger] self.slots()[i]) is Some ==> self.slots()[i]->Some_0
                    < self.output().len(),
    {
        self.writer.lemma_bookkeeping();
    }

    /// The output once `finish_document` has written the pages root under
    /// number 1 and then the catalog.
    pub open spec fn finished_output(&self) -> Seq<u8> {
        self.output() + framed(1, pages_body(self.pages())) + framed(self.next_id(), catalog_body(1))
    }

    /// The slots once `finish_document` has written the pages root and the catalog.
    pub open spec fn finished_slots(&self) -> Seq<Option<u64>> {
        self.slots().update(0, Some(self.output().len() as u64)).push(
            Some((self.output() + framed(1, pages_body(self.pages()))).len() as u64),
        )
    }

    /// Reading a finished document back: for every number from 1 (the pages
    /// root, written into its reserved number) to the catalog's, row `id` of
    /// the cross-reference table that `finish_document` appends names, in ten
    /// digits, an offset at which the file carries the opening line of object
    /// `id`. Rows are of fixed width only while the file stays below ten
    /// billion bytes.
    pub proof fn lemma_finished_xref_resolves(&self, id: int)
        requires
            self.wf(),
            self.finished_output().len() < 10_000_000_000,
            1 <= id <= self.finished_slots().len(),
        ensures
            ({
                let out = self.finished_output();
                let slots = self.finished_slots();
                let file = out + closing_bytes(slots, self.next_id(), out.len());
                let row = out.len() + crate::pdf_stream_writer::xref_head((slots.len() + 1) as nat).len() + 20 * (id - 1);
                let off = slots[id - 1]->Some_0 as int;
                &&& file.subrange(row, row + 10) == crate::decimal::zero_pad10(off as nat)
                &&& file.subrange(off, off + crate::pdf_stream_writer::obj_open(id as nat).len())
                    == crate::pdf_stream_writer::obj_open(id as nat)
            }),
    {
        self.lemma_markers();
        self.lemma_issued();
        let out0 = self.output();
        let slots0 = self.slots();
        let out1 = out0 + framed(1, pages_body(self.pages()));
        let out2 = self.finished_output();
        let slots2 = self.finished_slots();
        let cat = self.next_id();
        assert forall|i: int| 0 <= i < slots2.len() implies (#[trigger] slots2[i]) is Some by {
            if 1 <= i < slots0.len() {
                assert(slots2[i] == slots0[i]);
            }
        }
        assert forall|i: int|
            0 <= i < slots2.len() && (#[trigger] slots2[i]) is Some implies slots2[i]->Some_0 < out2.len() by {
            if 1 <= i < slots0.len() {
                assert(slots2[i] == slots0[i]);
            }
        }
        assert forall|i: int|
            0 <= i < slots2.len() && (#[trigger] slots2[i]) is Some implies {
                let off = slots2[i]->Some_0 as int;
                let m = crate::pdf_stream_writer::obj_open((i + 1) as nat);
                &&& off + m.len() <= out2.len()
                &&& out2.subrange(off, off + m.len()) == m
            } by {
            let m = crate::pdf_stream_writer::obj_open((i + 1) as nat);
            if i == 0 {
                assert(out2.subrange(out0.len() as int, (out0.len() + m.len()) as int) =~= m);
            } else if i < slots0.len() {
                assert(slots2[i] == slots0[i]);
                let off = slots0[i]->Some_0 as int;
                assert(out2.subrange(off, off + m.len()) =~= out0.subrange(off, off + m.len()));
            } else {
                assert(i + 1 == cat);
                assert(out2.subrange(out1.len() as int, (out1.len() + m.len()) as int) =~= m);
            }
        }
        crate::pdf_stream_writer::lemma_table_resolves(out2, slots2, cat, id);
    }

    /// Starts a document: writes the file header and reserves number 1 for the pages root.
    pub fn new() -> (r: PdfDocument)
        ensures
            r.wf(),
            r.output() == crate::pdf_stream_writer::file_header(),
            r.taken() == 0,
            r.pages() == Seq::<u32>::empty(),
            r.pages_root() == 1,
            r.text_count() == 0,
            r.image_count() == 0,
    {
        let mut writer = PdfStreamWriter::new();
        let pages_id = match writer.reserve_object() {
            Ok(id) => id,
            Err(_) => 1,
        };
        PdfDocument { writer, pages_id, page_ids: Vec::new(), texts: Ghost(0), images: Ghost(0) }
    }

    /// The number reserved for the pages root.
    pub fn pages_id(&self) -> (r: u32)
        requires
            self.wf(),
        ensures
            r == self.pages_root(),
    {
        self.pages_id
    }

    /// Hands over the bytes produced since the last call.
    pub fn take_output(&mut self) -> (r: Vec<u8>)
        requires
            old(self).wf(),
        ensures
            final(self).wf(),
            final(self).output() == old(self).output(),
            final(self).slots() == old(self).slots(),
            final(self).next_id() == old(self).next_id(),
            final(self).pages() == old(self).pages(),
            final(self).text_count() == old(self).text_count(),
            final(self).image_count() == old(self).image_count(),
            final(self).taken() == old(self).output().len(),
            r@ == old(self).output().subrange(old(self).taken() as int, old(self).output().len() as int),
    {
        self.writer.take_output()
    }

    /// Writes a text stream that shows `text` at the top of the page, and returns its number.
    pub fn new_text_obj(&mut self, text: &[u8]) -> (r: Result<u32, WriterError>)
        requires
            old(self).wf(),
        ensures
            final(self).wf(),
            final(self).taken() == old(self).taken(),
            final(self).pages() == old(self).pages(),
            final(self).image_count() == old(self).image_count(),
            match r {
                Ok(id) => {
                    &&& id == old(self).next_id()
                    &&& final(self).output() == old(self).output() + framed(id as nat, text_body(text@))
                    &&& final(self).slots() == old(self).slots().push(Some(old(self).output().len() as u64))
                    &&& final(self).text_count() == old(self).text_count() + 1
                },
                Err(e) => {
                    &&& final(self).output() == old(self).output()
                    &&& final(self).slots() == old(self).slots()
                    &&& final(self).text_count() == old(self).text_count()
                    &&& (e == WriterError::IdSpaceExhausted || e == WriterError::OutputTooLarge)
                    &&& (e == WriterError::IdSpaceExhausted) == (old(self).next_id() == u32::MAX)
                    &&& (e == WriterError::OutputTooLarge) == (old(self).next_id() < u32::MAX
                        && !frame_fits(old(self).output().len(), old(self).next_id(), text_body(text@).len()))
                },
            },
            r is Ok <==> old(self).next_id() < u32::MAX && frame_fits(
                old(self).output().len(),
                old(self).next_id(),
                text_body(text@).len(),
            ),
    {
        let body = text_object_body(text);
        let r = self.writer.write_object(body.as_slice());
        if r.is_ok() {
            self.texts = Ghost(self.texts@ + 1);
        }
        proof {
            self.writer.lemma_bookkeeping();
        }
        r
    }

    /// Writes JPEG `data` as an image object of the given size, and a stream that
    /// draws it; returns the two numbers. Nothing is written unless both fit.
    pub fn new_img_obj(&mut self, data: &[u8], w: u32, h: u32) -> (r: Result<(u32, u32), WriterError>)
        requires
            old(self).wf(),
        ensures
            final(self).wf(),
            final(self).taken() == old(self).taken(),
            final(self).pages() == old(self).pages(),
            final(self).text_count() == old(self).text_count(),
            ({
                let img = old(self).next_id();
                let out1 = old(self).output() + framed(img, image_body(data@, w, h));
                let fits = img + 1 < u32::MAX && frame_fits(old(self).output().len(), img, image_body(data@, w, h).len())
                    && frame_fits(out1.len(), img + 1, stream_of(draw_content(img as u32)).len());
                match r {
                    Ok((i, d)) => {
                        &&& fits
                        &&& i == img && d == img + 1
                        &&& final(self).output() == out1 + framed(img + 1, stream_of(draw_content(i)))
                        &&& final(self).slots() == old(self).slots().push(Some(old(self).output().len() as u64)).push(
                            Some(out1.len() as u64))
                        &&& final(self).image_count() == old(self).image_count() + 1
                    },
                    Err(e) => {
                        &&& !fits
                        &&& final(self).output() == old(self).output()
                        &&& final(self).slots() == old(self).slots()
                        &&& final(self).image_count() == old(self).image_count()
                        &&& (e == WriterError::IdSpaceExhausted) == (img + 1 >= u32::MAX)
                        &&& (e == WriterError::OutputTooLarge) == (img + 1 < u32::MAX)
                    },
                }
            }),
    {
        proof {
            self.writer.lemma_bookkeeping();
        }
        let img = self.writer.next_obj_id();
        if img >= u32::MAX - 1 {
            return Err(WriterError::IdSpaceExhausted);
        }
        let body = image_object_body(data, w, h);
        let draw = draw_object_body(img);
        if !self.writer.fits(img, body.len()) {
            return Err(WriterError::OutputTooLarge);
        }
        proof {
            lemma_literal_lengths();
        }
        assert(framed(img as nat, body@).len() == framed(img as nat, Seq::<u8>::empty()).len() + body@.len());
        let total_ok = self.fits_after(img, body.len(), draw.len());
        if !total_ok {
            return Err(WriterError::OutputTooLarge);
        }
        let i = match self.writer.write_object(body.as_slice()) {
            Ok(i) => i,
            Err(e) => {
                return Err(e);
            },
        };
        let d = match self.writer.write_object(draw.as_slice()) {
            Ok(d) => d,
            Err(e) => {
                return Err(e);
            },
        };
        self.images = Ghost(self.images@ + 1);
        proof {
            self.writer.lemma_bookkeeping();
        }
        Ok((i, d))
    }

    /// Writes a page whose contents are the text streams `texts`, then the
    /// drawing streams of `imgs`, each image listed among its resources under
    /// its own name; returns the page's number.
    pub fn new_page_obj(&mut self, texts: &[u32], imgs: &[(u32, u32)]) -> (r: Result<u32, WriterError>)
        requires
            old(self).wf(),
        ensures
            final(self).wf(),
            final(self).taken() == old(self).taken(),
            final(self).text_count() == old(self).text_count(),
            final(self).image_count() == old(self).image_count(),
            match r {
                Ok(id) => {
                    &&& id == old(self).next_id()
                    &&& final(self).output() == old(self).output() + framed(
                        id as nat,
                        page_body(old(self).pages_root(), texts@, imgs@),
                    )
                    &&& final(self).slots() == old(self).slots().push(Some(old(self).output().len() as u64))
                    &&& final(self).pages() == old(self).pages().push(id)
                },
                Err(e) => {
                    &&& final(self).output() == old(self).output()
                    &&& final(self).slots() == old(self).slots()
                    &&& final(self).pages() == old(self).pages()
                    &&& (e == WriterError::IdSpaceExhausted || e == WriterError::OutputTooLarge)
                    &&& (e == WriterError::IdSpaceExhausted) == (old(self).next_id() == u32::MAX)
                },
            },
            r is Ok <==> old(self).next_id() < u32::MAX && frame_fits(
                old(self).output().len(),
                old(self).next_id(),
                page_body(old(self).pages_root(), texts@, imgs@).len(),
            ),
    {
        let body = page_object_body(self.pages_id, texts, imgs);
        let r = self.writer.write_object(body.as_slice());
        if let Ok(id) = r {
            self.page_ids.push(id);
        }
        proof {
            self.writer.lemma_bookkeeping();
        }
        r
    }

    /// Completes the document: writes the pages root under its reserved
    /// number, then the catalog, then the cross-reference table with the
    /// catalog as root. Returns every byte not yet taken.
    pub fn finish_document(self) -> (r: Result<Vec<u8>, WriterError>)
        requires
            self.wf(),
        ensures
            ({
                let out0 = self.output();
                let out1 = out0 + framed(1, pages_body(self.pages()));
                let cat = self.next_id();
                let out2 = out1 + framed(cat, catalog_body(1));
                let slots = self.slots().update(0, Some(out0.len() as u64)).push(Some(out1.len() as u64));
                let fits1 = frame_fits(out0.len(), 1, pages_body(self.pages()).len());
                let fits2 = frame_fits(out1.len(), cat, catalog_body(1).len());
                &&& r is Ok <==> fits1 && cat < u32::MAX && fits2
                &&& match r {
                    Ok(b) => {
                        &&& b@ == out2.subrange(self.taken() as int, out2.len() as int) + closing_bytes(
                            slots,
                            cat,
                            out2.len(),
                        )
                        &&& slots.len() == 2 + self.text_count() + 2 * self.image_count() + self.pages().len()
                    },
                    Err(e) => e == WriterError::IdSpaceExhausted || e == WriterError::OutputTooLarge,
                }
            }),
    {
        proof {
            self.writer.lemma_bookkeeping();
        }
        let mut writer = self.writer;
        let pages = pages_object_body(&self.page_ids);
        let ghost out0 = writer.output();
        let ghost slots0 = writer.slots();
        let pieces: Vec<Vec<u8>> = vec![pages];
        assert(pieces@.map_values(|p: Vec<u8>| p@) =~= seq![pages@]);
        assert(joined(pieces@) == pages@) by {
            seq![pages@].lemma_flatten_one_element();
        }
        match writer.write_object_with_reserved_id(self.pages_id, &pieces) {
            Ok(()) => {},
            Err(e) => {
                return Err(e);
            },
        }
        let catalog = catalog_object_body(self.pages_id);
        let cat = match writer.write_object(catalog.as_slice()) {
            Ok(c) => c,
            Err(e) => {
                return Err(e);
            },
        };
        let ghost slots = writer.slots();
        assert(slots == slots0.update(0, Some(out0.len() as u64)).push(Some((out0 + framed(1, pages@)).len() as u64)));
        assert forall|i: int| 0 <= i < slots.len() implies (#[trigger] slots[i]) is Some by {
            if i == 0 {
            } else if i < slots0.len() {
                assert(slots[i] == slots0[i]);
            }
        }
        match writer.finish(cat) {
            Ok(b) => Ok(b),
            Err(e) => {
                proof {
                    let k = choose|k: nat| crate::pdf_stream_writer::first_unwritten(slots, k);
                    assert(slots[k - 1] is Some);
                }
                Err(e)
            },
        }
    }

    /// Whether, after an object `id` with a body of `len1` bytes, the object
    /// `id + 1` with a body of `len2` bytes still fits.
    fn fits_after(&self, id: u32, len1: usize, len2: usize) -> (r: bool)
        requires
            self.wf(),
            id < u32::MAX - 1,
            frame_fits(self.output().len(), id as nat, len1 as nat),
        ensures
            r == frame_fits(
                (self.output().len() + framed(id as nat, Seq::<u8>::empty()).len() + len1) as nat,
                (id + 1) as nat,
                len2 as nat,
            ),
    {
        proof {
            lemma_literal_lengths();
        }
        let pos = self.writer.position();
        let first: u64 = crate::decimal::digit_count(id as u64) as u64 + 15 + len1 as u64;
        let fixed: u64 = crate::decimal::digit_count((id + 1) as u64) as u64 + 15;
        if first > u64::MAX - pos || fixed > u64::MAX - pos - first {
            false
        } else {
            (len2 as u64) <= u64::MAX - pos - first - fixed
        }
    }
}

/// A big-endian 16-bit value.
pub open spec fn be16(hi: u8, lo: u8) -> nat {
    hi as nat * 256 + lo as nat
}

/// Whether a JPEG marker starts a frame, whose header gives the image size.
pub open spec fn is_frame_marker(m: u8) -> bool {
    (0xC0 <= m <= 0xC3) || (0xC5 <= m <= 0xC7)
}

/// The (width, height) that the first frame header at or after `i` gives,
/// skipping bytes until a marker and then whole segments by their length.
pub open spec fn jpeg_size_from(buf: Seq<u8>, i: nat) -> Option<(u32, u32)>
    decreases (if i < buf.len() { buf.len() - i } else { 0 }),
{
    let j = i as int;
    if i + 9 >= buf.len() {
        None
    } else if buf[j] != 0xFF {
        jpeg_size_from(buf, i + 1)
    } else if is_frame_marker(buf[j + 1]) {
        Some((be16(buf[j + 7], buf[j + 8]) as u32, be16(buf[j + 5], buf[j + 6]) as u32))
    } else {
        jpeg_size_from(buf, i + 2 + be16(buf[j + 2], buf[j + 3]))
    }
}

/// Reads the pixel size of a JPEG image from its first frame header.
pub fn parse_jpeg_size(buf: &[u8]) -> (r: Option<(u32, u32)>)
    ensures
        r == jpeg_size_from(buf@, 2),
{
    let mut i: usize = 2;
    if buf.len() < 2 {
        return None;
    }
    while i < buf.len() && buf.len() - i > 9
        invariant
            2 <= i <= buf@.len(),
            jpeg_size_from(buf@, 2) == jpeg_size_from(buf@, i as nat),
        decreases buf@.len() - i,
    {
        if buf[i] != 0xFF {
            i = i + 1;
        } else {
            let marker = buf[i + 1];
            if (0xC0 <= marker && marker <= 0xC3) || (0xC5 <= marker && marker <= 0xC7) {
                let h = buf[i + 5] as u32 * 256 + buf[i + 6] as u32;
                let w = buf[i + 7] as u32 * 256 + buf[i + 8] as u32;
                return Some((w, h));
            }
            let segment_len = buf[i + 2] as usize * 256 + buf[i + 3] as usize;
            if segment_len > buf.len() - i - 2 {
                assert(jpeg_size_from(buf@, (i + 2 + segment_len) as nat) is None);
                return None;
            }
            i = i + 2 + segment_len;
        }
    }
    None
}

} // verus!
