//! The document walk: a state machine fed one markup event at a time, which
//! decides when paragraphs, images and pages begin and end.
use vstd::prelude::*;
use crate::decimal::lit;
use crate::bytes::{ends_with, trim, eq_lit, ends_with_lit, eq_bytes, trimmed, copied};
use crate::pdf_document::{PdfDocument, text_body, page_body, image_body, stream_of, draw_content, resource_name, lemma_resource_names_distinct};
use crate::pdf_stream_writer::{WriterError, framed, frame_fits};

verus! {

/// One event of the markup parser, as plain bytes.
pub enum XmlEvent {
    /// An element's start tag, with its attributes as (key, value) pairs.
    Start { name: Vec<u8>, attrs: Vec<(Vec<u8>, Vec<u8>)> },
    /// A self-closing element.
    Empty { name: Vec<u8>, attrs: Vec<(Vec<u8>, Vec<u8>)> },
    /// An element's end tag.
    End { name: Vec<u8> },
    /// Character data, already unescaped.
    Text { text: Vec<u8> },
    /// Anything else (comments, declarations, processing instructions).
    Other,
}

pub open spec fn attr_views(attrs: Seq<(Vec<u8>, Vec<u8>)>) -> Seq<(Seq<u8>, Seq<u8>)> {
    attrs.map_values(|a: (Vec<u8>, Vec<u8>)| (a.0@, a.1@))
}

/// Whether some attribute is `w:type="page"`.
pub open spec fn has_page_type(attrs: Seq<(Seq<u8>, Seq<u8>)>) -> bool {
    exists|i: int| 0 <= i < attrs.len() && (#[trigger] attrs[i]).0 == lit("w:type") && attrs[i].1 == lit("page")
}

/// The value of the first attribute whose key ends in `embed`.
pub open spec fn embed_of(attrs: Seq<(Seq<u8>, Seq<u8>)>) -> Option<Seq<u8>>
    decreases attrs.len(),
{
    if attrs.len() == 0 {
        None
    } else if ends_with(attrs[0].0, lit("embed")) {
        Some(attrs[0].1)
    } else {
        embed_of(attrs.drop_first())
    }
}

pub open spec fn is_drawing_name(name: Seq<u8>) -> bool {
    name == lit("w:drawing") || name == lit("wp:inline") || name == lit("wp:extent")
}

/// A start or self-closing tag that ends the page: a page break or section properties.
pub open spec fn tag_breaks_page(name: Seq<u8>, attrs: Seq<(Seq<u8>, Seq<u8>)>) -> bool {
    (name == lit("w:br") && has_page_type(attrs)) || name == lit("w:sectPr")
}

/// The relationship id that a start or self-closing tag refers an image by.
pub open spec fn tag_image_ref(name: Seq<u8>, attrs: Seq<(Seq<u8>, Seq<u8>)>) -> Option<Seq<u8>> {
    if ends_with(name, lit("blip")) {
        embed_of(attrs)
    } else {
        None
    }
}

/// The drawing state after a start tag: a drawing container opens a
/// drawing, and inside one every start tag nests one level deeper.
pub open spec fn drawing_after_start(in_drawing: bool, depth: u64, name: Seq<u8>) -> (bool, u64) {
    if in_drawing {
        (true, if depth < u64::MAX { (depth + 1) as u64 } else { depth })
    } else if is_drawing_name(name) {
        (true, 0)
    } else {
        (false, depth)
    }
}

/// The drawing state after an end tag: the one that closes the container
/// ends the drawing.
pub open spec fn drawing_after_end(in_drawing: bool, depth: u64) -> (bool, u64) {
    if !in_drawing {
        (false, depth)
    } else if depth == 0 {
        (false, 0)
    } else {
        (true, (depth - 1) as u64)
    }
}

/// The walk's running state.
pub struct WalkState {
    /// Text of the current paragraph, each run followed by a space.
    pub text: Vec<u8>,
    /// Inside a drawing, text is not captured.
    pub in_drawing: bool,
    /// Inside a drawing: how many elements opened within it are still open,
    /// so that the container's own end tag can be told apart.
    pub drawing_depth: u64,
    /// Relationship ids already met in this document.
    pub seen: Vec<Vec<u8>>,
    /// Text streams of the current page.
    pub page_texts: Vec<u32>,
    /// Image objects of the current page, each with the stream that draws it.
    pub page_imgs: Vec<(u32, u32)>,
}

/// Whether the document changed in nothing.
pub open spec fn doc_kept(d0: PdfDocument, d1: PdfDocument) -> bool {
    &&& d1.wf()
    &&& d1.output() == d0.output()
    &&& d1.slots() == d0.slots()
    &&& d1.pages() == d0.pages()
    &&& d1.taken() == d0.taken()
    &&& d1.text_count() == d0.text_count()
    &&& d1.image_count() == d0.image_count()
}

/// Whether a text object for `t` fits in the document.
pub open spec fn text_fits(d: PdfDocument, t: Seq<u8>) -> bool {
    d.next_id() < u32::MAX && frame_fits(d.output().len(), d.next_id(), text_body(t).len())
}

/// Whether a page of these streams fits in the document.
pub open spec fn page_fits(d: PdfDocument, texts: Seq<u32>, imgs: Seq<(u32, u32)>) -> bool {
    d.next_id() < u32::MAX && frame_fits(d.output().len(), d.next_id(), page_body(d.pages_root(), texts, imgs).len())
}

/// The effect of ending a paragraph whose text is `t`: a text object for
/// the trimmed text, unless that is empty or does not fit.
pub open spec fn paragraph_ended(d0: PdfDocument, d1: PdfDocument, t: Seq<u8>, ids0: Seq<u32>, ids1: Seq<u32>) -> bool {
    if trim(t).len() > 0 && text_fits(d0, trim(t)) {
        &&& d1.wf()
        &&& d1.output() == d0.output() + framed(d0.next_id(), text_body(trim(t)))
        &&& d1.slots() == d0.slots().push(Some(d0.output().len() as u64))
        &&& d1.pages() == d0.pages()
        &&& d1.taken() == d0.taken()
        &&& d1.text_count() == d0.text_count() + 1
        &&& d1.image_count() == d0.image_count()
        &&& ids1 == ids0.push(d0.next_id() as u32)
    } else {
        doc_kept(d0, d1) && ids1 == ids0
    }
}

/// The effect of ending a page made of `texts` and `imgs`: a page object,
/// unless it does not fit.
pub open spec fn page_ended(d0: PdfDocument, d1: PdfDocument, texts: Seq<u32>, imgs: Seq<(u32, u32)>) -> bool {
    if page_fits(d0, texts, imgs) {
        &&& d1.wf()
        &&& d1.output() == d0.output() + framed(d0.next_id(), page_body(d0.pages_root(), texts, imgs))
        &&& d1.slots() == d0.slots().push(Some(d0.output().len() as u64))
        &&& d1.pages() == d0.pages().push(d0.next_id() as u32)
        &&& d1.taken() == d0.taken()
        &&& d1.text_count() == d0.text_count()
        &&& d1.image_count() == d0.image_count()
    } else {
        doc_kept(d0, d1)
    }
}

impl WalkState {
    pub open spec fn seen_ids(&self) -> Seq<Seq<u8>> {
        self.seen@.map_values(|v: Vec<u8>| v@)
    }

    /// The pending objects were all written before `next`, in order, and each
    /// image's drawing stream directly follows it.
    pub open spec fn wf(&self, next: nat) -> bool {
        &&& forall|i: int, j: int|
            0 <= i < j < self.page_texts@.len() ==> self.page_texts@[i] < self.page_texts@[j]
        &&& forall|i: int| 0 <= i < self.page_texts@.len() ==> (#[trigger] self.page_texts@[i]) < next
        &&& forall|i: int, j: int|
            0 <= i < j < self.page_imgs@.len() ==> self.page_imgs@[i].0 < self.page_imgs@[j].0
        &&& forall|i: int|
            0 <= i < self.page_imgs@.len() ==> (#[trigger] self.page_imgs@[i]).1 < next
                && self.page_imgs@[i].1 == self.page_imgs@[i].0 + 1
    }

    /// The images pending for one page have pairwise distinct resource names.
    pub proof fn lemma_page_names_distinct(&self, next: nat, i: int, j: int)
        requires
            self.wf(next),
            0 <= i < self.page_imgs@.len(),
            0 <= j < self.page_imgs@.len(),
            i != j,
        ensures
            resource_name(self.page_imgs@[i].0) != resource_name(self.page_imgs@[j].0),
    {
        lemma_resource_names_distinct(self.page_imgs@[i].0, self.page_imgs@[j].0);
    }

    pub fn new() -> (r: WalkState)
        ensures
            r.text@ == Seq::<u8>::empty(),
            !r.in_drawing,
            r.drawing_depth == 0,
            r.seen@.len() == 0,
            r.page_texts@.len() == 0,
            r.page_imgs@.len() == 0,
            r.wf(0),
    {
        WalkState { text: Vec::new(), in_drawing: false, drawing_depth: 0, seen: Vec::new(), page_texts: Vec::new(), page_imgs: Vec::new() }
    }
}

fn page_type_of(attrs: &Vec<(Vec<u8>, Vec<u8>)>) -> (r: bool)
    ensures
        r == has_page_type(attr_views(attrs@)),
{
    let ghost v = attr_views(attrs@);
    let mut i: usize = 0;
    while i < attrs.len()
        invariant
            i <= attrs@.len(),
            v == attr_views(attrs@),
            forall|j: int| 0 <= j < i ==> !((#[trigger] v[j]).0 == lit("w:type") && v[j].1 == lit("page")),
        decreases attrs@.len() - i,
    {
        let (k, val) = &attrs[i];
        if eq_lit(k.as_slice(), "w:type") && eq_lit(val.as_slice(), "page") {
            assert(v[i as int].0 == lit("w:type") && v[i as int].1 == lit("page"));
            return true;
        }
        i = i + 1;
    }
    false
}

fn embed_value(attrs: &Vec<(Vec<u8>, Vec<u8>)>) -> (r: Option<Vec<u8>>)
    ensures
        match r {
            Some(v) => embed_of(attr_views(attrs@)) == Some(v@),
            None => embed_of(attr_views(attrs@)) is None,
        },
{
    let ghost v = attr_views(attrs@);
    let mut i: usize = 0;
    assert(v.subrange(0, v.len() as int) =~= v);
    while i < attrs.len()
        invariant
            i <= attrs@.len(),
            v == attr_views(attrs@),
            embed_of(v) == embed_of(v.subrange(i as int, v.len() as int)),
        decreases attrs@.len() - i,
    {
        let (k, val) = &attrs[i];
        assert(v.subrange(i as int, v.len() as int)[0] == v[i as int]);
        if ends_with_lit(k.as_slice(), "embed") {
            return Some(copied(val.as_slice()));
        }
        assert(v.subrange(i as int, v.len() as int).drop_first() =~= v.subrange(i + 1, v.len() as int));
        i = i + 1;
    }
    None
}

impl WalkState {
    fn has_seen(&self, rid: &[u8]) -> (r: bool)
        ensures
            r == self.seen_ids().contains(rid@),
    {
        let mut i: usize = 0;
        while i < self.seen.len()
            invariant
                i <= self.seen@.len(),
                forall|j: int| 0 <= j < i ==> self.seen_ids()[j] != rid@,
            decreases self.seen@.len() - i,
        {
            if eq_bytes(self.seen[i].as_slice(), rid) {
                assert(self.seen_ids()[i as int] == rid@);
                return true;
            }
            i = i + 1;
        }
        false
    }

    /// Ends the current paragraph: writes its trimmed text, if any, as a text
    /// object of the current page, and clears it.
    pub fn end_paragraph(&mut self, doc: &mut PdfDocument)
        requires
            old(doc).wf(),
            old(self).wf(old(doc).next_id()),
        ensures
            final(doc).wf(),
            final(self).wf(final(doc).next_id()),
            paragraph_ended(*old(doc), *final(doc), old(self).text@, old(self).page_texts@, final(self).page_texts@),
            final(self).text@.len() == 0,
            final(self).in_drawing == old(self).in_drawing,
            final(self).drawing_depth == old(self).drawing_depth,
            final(self).seen@ == old(self).seen@,
            final(self).page_imgs@ == old(self).page_imgs@,
    {
        proof {
            doc.lemma_issued();
        }
        let t = trimmed(self.text.as_slice());
        if t.len() > 0 {
            match doc.new_text_obj(t.as_slice()) {
                Ok(id) => {
                    self.page_texts.push(id);
                },
                Err(_) => {},
            }
        }
        self.text.clear();
        proof {
            doc.lemma_issued();
        }
    }

    /// Ends the current page: writes a page of the pending streams and clears them.
    pub fn end_page(&mut self, doc: &mut PdfDocument)
        requires
            old(doc).wf(),
            old(self).wf(old(doc).next_id()),
        ensures
            final(doc).wf(),
            final(self).wf(final(doc).next_id()),
            page_ended(*old(doc), *final(doc), old(self).page_texts@, old(self).page_imgs@),
            final(self).page_texts@.len() == 0,
            final(self).page_imgs@.len() == 0,
            final(self).text@ == old(self).text@,
            final(self).in_drawing == old(self).in_drawing,
            final(self).drawing_depth == old(self).drawing_depth,
            final(self).seen@ == old(self).seen@,
    {
        let _ = doc.new_page_obj(self.page_texts.as_slice(), self.page_imgs.as_slice());
        self.page_texts.clear();
        self.page_imgs.clear();
        proof {
            doc.lemma_issued();
        }
    }

    /// Adds a resolved image, JPEG `data` of the given size, to the current page.
    pub fn place_image(&mut self, doc: &mut PdfDocument, data: &[u8], w: u32, h: u32)
        requires
            old(doc).wf(),
            old(self).wf(old(doc).next_id()),
        ensures
            final(doc).wf(),
            final(self).wf(final(doc).next_id()),
            final(self).text@ == old(self).text@,
            final(self).in_drawing == old(self).in_drawing,
            final(self).drawing_depth == old(self).drawing_depth,
            final(self).seen@ == old(self).seen@,
            final(self).page_texts@ == old(self).page_texts@,
            final(doc).pages() == old(doc).pages(),
            ({
                let img = old(doc).next_id();
                let out1 = old(doc).output() + framed(img, image_body(data@, w, h));
                let fits = img + 1 < u32::MAX && frame_fits(old(doc).output().len(), img, image_body(data@, w, h).len())
                    && frame_fits(out1.len(), img + 1, stream_of(draw_content(img as u32)).len());
                if fits {
                    &&& final(doc).output() == out1 + framed(img + 1, stream_of(draw_content(img as u32)))
                    &&& final(doc).image_count() == old(doc).image_count() + 1
                    &&& final(self).page_imgs@ == old(self).page_imgs@.push((img as u32, (img + 1) as u32))
                } else {
                    doc_kept(*old(doc), *final(doc)) && final(self).page_imgs@ == old(self).page_imgs@
                }
            }),
    {
        proof {
            doc.lemma_issued();
        }
        match doc.new_img_obj(data, w, h) {
            Ok(pair) => {
                self.page_imgs.push(pair);
            },
            Err(_) => {},
        }
        proof {
            doc.lemma_issued();
        }
    }

    /// Handles a start or self-closing tag.
    fn on_tag(&mut self, doc: &mut PdfDocument, name: &Vec<u8>, attrs: &Vec<(Vec<u8>, Vec<u8>)>, is_start: bool) -> (r: Option<Vec<u8>>)
        requires
            old(doc).wf(),
            old(self).wf(old(doc).next_id()),
        ensures
            final(doc).wf(),
            final(self).wf(final(doc).next_id()),
            final(self).text@ == old(self).text@,
            (final(self).in_drawing, final(self).drawing_depth) == (if is_start {
                drawing_after_start(old(self).in_drawing, old(self).drawing_depth, name@)
            } else {
                (old(self).in_drawing, old(self).drawing_depth)
            }),
            if tag_breaks_page(name@, attr_views(attrs@)) {
                &&& page_ended(*old(doc), *final(doc), old(self).page_texts@, old(self).page_imgs@)
                &&& final(self).page_texts@.len() == 0
                &&& final(self).page_imgs@.len() == 0
            } else {
                &&& doc_kept(*old(doc), *final(doc))
                &&& final(self).page_texts@ == old(self).page_texts@
                &&& final(self).page_imgs@ == old(self).page_imgs@
            },
            match tag_image_ref(name@, attr_views(attrs@)) {
                Some(rid) => if old(self).seen_ids().contains(rid) {
                    r is None && final(self).seen_ids() == old(self).seen_ids()
                } else {
                    r is Some && r->Some_0@ == rid && final(self).seen_ids() == old(self).seen_ids().push(rid)
                },
                None => r is None && final(self).seen_ids() == old(self).seen_ids(),
            },
    {
        let is_br = eq_lit(name.as_slice(), "w:br");
        let breaks = (is_br && page_type_of(attrs)) || eq_lit(name.as_slice(), "w:sectPr");
        if breaks {
            self.end_page(doc);
        }
        if is_start {
            if self.in_drawing {
                if self.drawing_depth < u64::MAX {
                    self.drawing_depth = self.drawing_depth + 1;
                }
            } else if eq_lit(name.as_slice(), "w:drawing") || eq_lit(name.as_slice(), "wp:inline") || eq_lit(
                name.as_slice(),
                "wp:extent",
            ) {
                self.in_drawing = true;
                self.drawing_depth = 0;
            }
        }
        if ends_with_lit(name.as_slice(), "blip") {
            match embed_value(attrs) {
                Some(rid) => {
                    if self.has_seen(rid.as_slice()) {
                        return None;
                    }
                    let c = copied(rid.as_slice());
                    self.seen.push(c);
                    assert(self.seen_ids() =~= old(self).seen_ids().push(rid@));
                    return Some(rid);
                },
                None => {
                    return None;
                },
            }
        }
        None
    }

    /// Handles one parser event. Returns the relationship id of an image
    /// met for the first time in this document; the caller resolves it and
    /// passes the image to `place_image`.
    pub fn handle_event(&mut self, doc: &mut PdfDocument, ev: &XmlEvent) -> (r: Option<Vec<u8>>)
        requires
            old(doc).wf(),
            old(self).wf(old(doc).next_id()),
        ensures
            final(doc).wf(),
            final(self).wf(final(doc).next_id()),
            match ev {
                XmlEvent::Start { name, attrs } | XmlEvent::Empty { name, attrs } => {
                    let is_start = ev is Start;
                    &&& final(self).text@ == old(self).text@
                    &&& (final(self).in_drawing, final(self).drawing_depth) == (if is_start {
                        drawing_after_start(old(self).in_drawing, old(self).drawing_depth, name@)
                    } else {
                        (old(self).in_drawing, old(self).drawing_depth)
                    })
                    &&& if tag_breaks_page(name@, attr_views(attrs@)) {
                        &&& page_ended(*old(doc), *final(doc), old(self).page_texts@, old(self).page_imgs@)
                        &&& final(self).page_texts@.len() == 0
                        &&& final(self).page_imgs@.len() == 0
                    } else {
                        &&& doc_kept(*old(doc), *final(doc))
                        &&& final(self).page_texts@ == old(self).page_texts@
                        &&& final(self).page_imgs@ == old(self).page_imgs@
                    }
                    &&& match tag_image_ref(name@, attr_views(attrs@)) {
                        Some(rid) => if old(self).seen_ids().contains(rid) {
                            r is None && final(self).seen_ids() == old(self).seen_ids()
                        } else {
                            r is Some && r->Some_0@ == rid && final(self).seen_ids() == old(self).seen_ids().push(rid)
                        },
                        None => r is None && final(self).seen_ids() == old(self).seen_ids(),
                    }
                },
                XmlEvent::End { name } => {
                    &&& r is None
                    &&& final(self).seen@ == old(self).seen@
                    &&& final(self).page_imgs@ == old(self).page_imgs@
                    &&& (final(self).in_drawing, final(self).drawing_depth) == drawing_after_end(
                        old(self).in_drawing,
                        old(self).drawing_depth,
                    )
                    &&& if name@ == lit("w:p") {
                        &&& paragraph_ended(*old(doc), *final(doc), old(self).text@, old(self).page_texts@, final(self).page_texts@)
                        &&& final(self).text@.len() == 0
                    } else {
                        &&& doc_kept(*old(doc), *final(doc))
                        &&& final(self).text@ == old(self).text@
                        &&& final(self).page_texts@ == old(self).page_texts@
                    }
                },
                XmlEvent::Text { text } => {
                    &&& r is None
                    &&& doc_kept(*old(doc), *final(doc))
                    &&& final(self).text@ == (if old(self).in_drawing { old(self).text@ } else { old(self).text@ + text@ + seq![32u8] })
                    &&& final(self).in_drawing == old(self).in_drawing
                    &&& final(self).drawing_depth == old(self).drawing_depth
                    &&& final(self).seen@ == old(self).seen@
                    &&& final(self).page_texts@ == old(self).page_texts@
                    &&& final(self).page_imgs@ == old(self).page_imgs@
                },
                XmlEvent::Other => {
                    &&& r is None
                    &&& doc_kept(*old(doc), *final(doc))
                    &&& final(self).text@ == old(self).text@
                    &&& final(self).in_drawing == old(self).in_drawing
                    &&& final(self).drawing_depth == old(self).drawing_depth
                    &&& final(self).seen@ == old(self).seen@
                    &&& final(self).page_texts@ == old(self).page_texts@
                    &&& final(self).page_imgs@ == old(self).page_imgs@
                },
            },
    {
        match ev {
            XmlEvent::Start { name, attrs } => self.on_tag(doc, name, attrs, true),
            XmlEvent::Empty { name, attrs } => self.on_tag(doc, name, attrs, false),
            XmlEvent::End { name } => {
                if eq_lit(name.as_slice(), "w:p") {
                    self.end_paragraph(doc);
                }
                if self.in_drawing {
                    if self.drawing_depth == 0 {
                        self.in_drawing = false;
                    } else {
                        self.drawing_depth = self.drawing_depth - 1;
                    }
                }
                None
            },
            XmlEvent::Text { text } => {
                if !self.in_drawing {
                    self.text.extend_from_slice(text.as_slice());
                    self.text.push(32u8);
                }
                None
            },
            XmlEvent::Other => None,
        }
    }

    /// At the end of input: writes a last page if any stream is still pending.
    pub fn finish(&mut self, doc: &mut PdfDocument) -> (r: Result<(), WriterError>)
        requires
            old(doc).wf(),
            old(self).wf(old(doc).next_id()),
        ensures
            final(doc).wf(),
            final(self).wf(final(doc).next_id()),
            if old(self).page_texts@.len() == 0 && old(self).page_imgs@.len() == 0 {
                r is Ok && doc_kept(*old(doc), *final(doc))
            } else {
                &&& page_ended(*old(doc), *final(doc), old(self).page_texts@, old(self).page_imgs@)
                &&& (r is Ok <==> page_fits(*old(doc), old(self).page_texts@, old(self).page_imgs@))
                &&& final(self).page_texts@.len() == 0
                &&& final(self).page_imgs@.len() == 0
            },
    {
        if self.page_texts.len() == 0 && self.page_imgs.len() == 0 {
            return Ok(());
        }
        let r = doc.new_page_obj(self.page_texts.as_slice(), self.page_imgs.as_slice());
        self.page_texts.clear();
        self.page_imgs.clear();
        match r {
            Ok(_) => Ok(()),
            Err(e) => Err(e),
        }
    }
}

/// A paragraph of whitespace alone never yields a text object: ending it
/// leaves the document and the page's text streams as they were.
pub proof fn lemma_blank_paragraph(
    d0: PdfDocument,
    d1: PdfDocument,
    t: Seq<u8>,
    ids0: Seq<u32>,
    ids1: Seq<u32>,
)
    requires
        crate::bytes::all_ws(t),
        paragraph_ended(d0, d1, t, ids0, ids1),
    ensures
        doc_kept(d0, d1),
        ids1 == ids0,
{
    crate::bytes::lemma_blank_trims_empty(t);
}

} // verus!
