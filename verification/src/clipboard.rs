//! The clipboard: SVG for editable copies, pictures for other programs.
use vstd::prelude::*;
use vstd::string::StringSliceAdditionalSpecFns;
use vstd::utf8::{decode_utf8, encode_utf8, encode_utf8_decode_utf8, encode_utf8_valid_utf8, valid_utf8};
use crate::images::{copy_bytes, initial_frame, initial_frame_spec, mime, sniff, sniffed, ImageFormat};
use crate::node::NodeKind;
use crate::ops::{new_image, removed_each, Editor, EditorModel};
use crate::paste::can_paste_svg;
use crate::scalar::Scalar;
use crate::scene::{highest_id, peek};
use crate::svg::parsed;
use crate::svg_write::selection_svg;
use crate::viewport::Viewport;

verus! {

/// One form of what was copied: a media type, and the bytes.
pub struct Representation {
    pub mime: String,
    pub bytes: Vec<u8>,
}

/// What a [`Representation`] holds, as values.
pub ghost struct RepModel {
    pub mime: Seq<char>,
    pub bytes: Seq<u8>,
}

impl View for Representation {
    type V = RepModel;

    open spec fn view(&self) -> RepModel {
        RepModel { mime: self.mime@, bytes: self.bytes@ }
    }
}

/// A list of representations, as values.
pub open spec fn reps_of(reps: Seq<Representation>) -> Seq<RepModel> {
    Seq::new(reps.len(), |i: int| reps[i]@)
}

/// A list of texts, as values.
pub open spec fn texts_of(s: Seq<&'static str>) -> Seq<Seq<char>> {
    Seq::new(s.len(), |i: int| s[i]@)
}

/// The media type of an editable copy.
pub open spec fn drawing_type_spec() -> Seq<char> {
    "application/x-day-sketch+svg"@
}

pub fn drawing_type() -> (r: &'static str)
    ensures
        r@ == drawing_type_spec(),
{
    "application/x-day-sketch+svg"
}

/// The media types of pictures, the preferred first.
pub open spec fn image_types_spec() -> Seq<Seq<char>> {
    seq![
        "image/png"@,
        "image/tiff"@,
        "image/jpeg"@,
        "image/webp"@,
        "image/gif"@,
        "image/bmp"@,
    ]
}

pub fn image_types() -> (r: Vec<&'static str>)
    ensures
        texts_of(r@) == image_types_spec(),
{
    let mut out: Vec<&'static str> = Vec::new();
    out.push("image/png");
    out.push("image/tiff");
    out.push("image/jpeg");
    out.push("image/webp");
    out.push("image/gif");
    out.push("image/bmp");
    assert(texts_of(out@) =~= image_types_spec());
    out
}

/// The media types that a paste asks for, the preferred first.
pub open spec fn paste_types_spec() -> Seq<Seq<char>> {
    seq![drawing_type_spec(), "image/svg+xml"@, "text/html"@] + image_types_spec() + seq![
        "text/plain"@,
    ]
}

pub fn paste_types() -> (r: Vec<&'static str>)
    ensures
        texts_of(r@) == paste_types_spec(),
{
    let mut out: Vec<&'static str> = Vec::new();
    out.push(drawing_type());
    out.push("image/svg+xml");
    out.push("text/html");
    let mut images = image_types();
    let ghost pictures = images@;
    out.append(&mut images);
    out.push("text/plain");
    assert(texts_of(out@) =~= paste_types_spec()) by {
        assert forall|i: int| 0 <= i < texts_of(out@).len() implies texts_of(out@)[i]
            == paste_types_spec()[i] by {
            if 3 <= i < 9 {
                assert(texts_of(pictures)[i - 3] == image_types_spec()[i - 3]);
            }
        }
    }
    out
}

// ---------------------------------------------------------------------------
// Copying
// ---------------------------------------------------------------------------

/// What a copy offers: the drawing under the types that other programs know, and before it,
/// where a picture was copied, the picture as it is.
pub open spec fn drawing_reps(svg: Seq<char>, image: Option<Seq<u8>>) -> Seq<RepModel> {
    let bytes = encode_utf8(svg);
    let drawing = seq![
        RepModel { mime: drawing_type_spec(), bytes },
        RepModel { mime: "image/svg+xml"@, bytes },
        RepModel { mime: "text/plain"@, bytes },
        RepModel { mime: "text/html"@, bytes },
    ];
    match image {
        Some(picture) => match sniffed(picture) {
            Some(f) => seq![RepModel { mime: f.media_type(), bytes: picture }] + drawing,
            None => drawing,
        },
        None => drawing,
    }
}

pub open spec fn bytes_view(b: Option<Vec<u8>>) -> Option<Seq<u8>> {
    match b {
        Some(b) => Some(b@),
        None => None,
    }
}

fn rep_of(mime: &str, svg: &str) -> (r: Representation)
    ensures
        r@ == (RepModel { mime: mime@, bytes: encode_utf8(svg@) }),
{
    Representation { mime: mime.to_owned(), bytes: svg.as_bytes_vec() }
}

pub fn drawing_content(svg: &str, image: Option<Vec<u8>>) -> (r: Vec<Representation>)
    ensures
        reps_of(r@) == drawing_reps(svg@, bytes_view(image)),
{
    let mut out: Vec<Representation> = Vec::new();
    if let Some(picture) = image {
        if let Some(f) = sniff(picture.as_slice()) {
            out.push(Representation { mime: mime(f), bytes: picture });
        }
    }
    out.push(rep_of(drawing_type(), svg));
    out.push(rep_of("image/svg+xml", svg));
    out.push(rep_of("text/plain", svg));
    out.push(rep_of("text/html", svg));
    assert(reps_of(out@) =~= drawing_reps(svg@, bytes_view(image)));
    out
}

/// The picture of a sole selected image.
pub open spec fn selected_picture<S: Scalar>(m: EditorModel<S>) -> Option<Seq<u8>> {
    if m.selection.len() == 1 && peek(m.rows, m.selection[0]).kind == NodeKind::Image {
        Some(peek(m.rows, m.selection[0]).image_bytes)
    } else {
        None
    }
}

/// What a copy puts on the clipboard, and what it has to be completed with.
pub struct CopyPlan {
    pub content: Vec<Representation>,
    /// A picture to offer as PNG too, since it is in another format.
    pub convert: Option<Vec<u8>>,
}

/// Whether a picture has to be converted for programs that take PNG alone.
pub open spec fn needs_png(image: Option<Seq<u8>>) -> Option<Seq<u8>> {
    match image {
        Some(b) => if sniffed(b) == Some(ImageFormat::Png) {
            None
        } else {
            Some(b)
        },
        None => None,
    }
}

impl<S: Scalar> Editor<S> {
    /// The picture of a sole selected image.
    pub fn selected_picture(&self) -> (r: Option<Vec<u8>>)
        requires
            self.wf(),
        ensures
            bytes_view(r) == selected_picture(self@),
    {
        if self.selection.len() != 1 {
            return None;
        }
        match self.scene.find(self.selection[0]) {
            None => None,
            Some(i) => if self.scene.nodes[i].kind == NodeKind::Image {
                Some(copy_bytes(&self.scene.nodes[i].image_bytes))
            } else {
                None
            },
        }
    }

    /// What a copy of the selection puts on the clipboard; nothing where there is nothing to
    /// copy.
    pub fn copy(&self) -> (r: Option<CopyPlan>)
        requires
            self.wf(),
        ensures
            match selection_svg(self@.rows, self@.selection) {
                None => r is None,
                Some(text) => r matches Some(plan) && reps_of(plan.content@) == drawing_reps(
                    text,
                    selected_picture(self@),
                ) && bytes_view(plan.convert) == needs_png(selected_picture(self@)),
            },
    {
        match self.selection_to_svg() {
            None => None,
            Some(svg) => {
                let image = self.selected_picture();
                let convert = match &image {
                    None => None,
                    Some(b) => {
                        let png = match sniff(b.as_slice()) {
                            Some(ImageFormat::Png) => true,
                            _ => false,
                        };
                        if png {
                            None
                        } else {
                            Some(copy_bytes(b))
                        }
                    },
                };
                let content = drawing_content(svg.as_str(), image);
                Some(CopyPlan { content, convert })
            },
        }
    }

    /// Ends a cut, once its copy is on the clipboard: what was copied is deleted, but only
    /// where it is still what is selected. Returns whether it was.
    pub fn finish_cut(&mut self, selected: &Vec<u64>) -> (r: bool)
        requires
            old(self).wf(),
        ensures
            final(self).wf(),
            r == (old(self)@.selection == selected@),
            !r ==> final(self)@ == old(self)@,
            r ==> final(self)@ == (EditorModel {
                rows: removed_each(old(self)@.rows, old(self)@.selection),
                selection: Seq::empty(),
                ..old(self)@
            }),
    {
        if self.selection.len() != selected.len() {
            return false;
        }
        let mut i: usize = 0;
        while i < selected.len()
            invariant
                i <= selected.len(),
                *self == *old(self),
                self.wf(),
                self.selection.len() == selected.len(),
                forall|j: int| 0 <= j < i ==> self.selection@[j] == selected@[j],
            decreases selected.len() - i,
        {
            if self.selection[i] != selected[i] {
                return false;
            }
            i += 1;
        }
        assert(self.selection@ =~= selected@);
        self.delete_selection();
        true
    }
}

/// A copy completed by its picture in PNG, which goes first.
pub fn with_png(content: Vec<Representation>, png: Vec<u8>) -> (r: Vec<Representation>)
    requires
        content.len() < usize::MAX,
    ensures
        reps_of(r@) == seq![RepModel { mime: "image/png"@, bytes: png@ }] + reps_of(content@),
{
    let mut out = content;
    let rep = Representation { mime: "image/png".to_owned(), bytes: png };
    out.insert(0, rep);
    assert(reps_of(out@) =~= seq![rep@] + reps_of(content@));
    out
}

// ---------------------------------------------------------------------------
// Pasting
// ---------------------------------------------------------------------------

/// `std::str::from_utf8`: the text that bytes encode, where they are valid UTF-8, and nothing
/// where they are not.
#[verifier::external_body]
fn text_of_bytes(bytes: &[u8]) -> (r: Option<String>)
    ensures
        r is Some <==> valid_utf8(bytes@),
        r matches Some(t) ==> t@ == decode_utf8(bytes@),
{
    match std::str::from_utf8(bytes) {
        Ok(t) => Some(t.to_owned()),
        Err(_) => None,
    }
}

/// Whether bytes are an SVG text that holds anything to paste.
pub open spec fn is_drawing<S: Scalar>(bytes: Seq<u8>) -> bool {
    valid_utf8(bytes) && parsed::<S>(decode_utf8(bytes)).len() > 0
}

/// The SVG text of bytes, where they are one that holds anything to paste.
pub fn drawing_text<S: Scalar>(bytes: &[u8]) -> (r: Option<String>)
    ensures
        match r {
            Some(t) => is_drawing::<S>(bytes@) && t@ == decode_utf8(bytes@),
            None => !is_drawing::<S>(bytes@),
        },
{
    match text_of_bytes(bytes) {
        None => None,
        Some(t) => if can_paste_svg::<S>(t.as_str()) {
            Some(t)
        } else {
            None
        },
    }
}

/// Whether a media type may hold a drawing's text.
pub open spec fn textual(mime: Seq<char>) -> bool {
    mime == drawing_type_spec() || mime == "image/svg+xml"@ || mime == "text/plain"@ || mime
        == "text/html"@
}

/// What a paste does with what the clipboard gave it.
pub enum PasteStep {
    /// Paste this text.
    Drawing(String),
    /// The text is no drawing: ask the clipboard for a picture instead.
    AskForPicture,
    /// Decode these bytes as a picture.
    Decode(Vec<u8>),
}

pub fn paste_step<S: Scalar>(rep: Representation) -> (r: PasteStep)
    ensures
        if textual(rep.mime@) {
            if is_drawing::<S>(rep.bytes@) {
                r matches PasteStep::Drawing(t) && t@ == decode_utf8(rep.bytes@)
            } else {
                r is AskForPicture
            }
        } else {
            r matches PasteStep::Decode(b) && b@ == rep.bytes@
        },
{
    if rep.mime == drawing_type().to_owned() || rep.mime == "image/svg+xml".to_owned() || rep.mime
        == "text/plain".to_owned() || rep.mime == "text/html".to_owned() {
        match drawing_text::<S>(rep.bytes.as_slice()) {
            Some(t) => PasteStep::Drawing(t),
            None => PasteStep::AskForPicture,
        }
    } else {
        PasteStep::Decode(rep.bytes)
    }
}

/// The editor after a decoded picture was placed in the middle of the view, and selected. With
/// no id left it stays as it is.
pub open spec fn picture_placed<S: Scalar>(
    m: EditorModel<S>,
    v: Viewport<S>,
    bytes: Seq<u8>,
    size: (S, S),
) -> EditorModel<S> {
    if highest_id(m.rows) < u64::MAX {
        EditorModel {
            rows: m.rows.push(new_image(m.rows, bytes, initial_frame_spec(v, size))),
            selection: seq![(highest_id(m.rows) + 1) as u64],
            ..m
        }
    } else {
        m
    }
}

impl<S: Scalar> Editor<S> {
    /// Places a decoded picture in the middle of the view, and selects it.
    pub fn place_picture(&mut self, v: &Viewport<S>, bytes: Vec<u8>, size: (S, S))
        requires
            old(self).wf(),
        ensures
            final(self).wf(),
            final(self)@ == picture_placed(old(self)@, *v, bytes@, size),
    {
        if self.scene.top_id() == u64::MAX {
            return ;
        }
        let id = self.scene.place_image(bytes, initial_frame(v, size));
        let mut selected: Vec<u64> = Vec::new();
        selected.push(id);
        self.selection = selected;
        assert(self.selection@ =~= seq![id]);
    }
}

/// An editable copy comes back as it went: of what a copy of a drawing offers, each textual
/// form is read as the very text that was copied.
pub proof fn copies_keep_their_text(svg: Seq<char>, image: Option<Seq<u8>>, i: int)
    requires
        0 <= i < drawing_reps(svg, image).len(),
        textual(drawing_reps(svg, image)[i].mime),
    ensures
        valid_utf8(drawing_reps(svg, image)[i].bytes),
        decode_utf8(drawing_reps(svg, image)[i].bytes) == svg,
{
    encode_utf8_valid_utf8(svg);
    encode_utf8_decode_utf8(svg);
    reveal_strlit("image/svg+xml");
    reveal_strlit("text/plain");
    reveal_strlit("text/html");
    reveal_strlit("application/x-day-sketch+svg");
    reveal_strlit("image/png");
    reveal_strlit("image/jpeg");
    reveal_strlit("image/webp");
    reveal_strlit("image/gif");
    reveal_strlit("image/bmp");
    reveal_strlit("image/tiff");
    reveal_strlit("image/heif");
    reveal_strlit("application/octet-stream");
    assert("application/octet-stream"@[12] == 'o');
    assert("application/x-day-sketch+svg"@[12] == 'x');
    let m = drawing_reps(svg, image)[i].mime;
    assert(m.len() == "image/svg+xml"@.len() ==> m[6] == 's' || m[0] != 'i');
    assert(m[0] == 't' || m.len() == 13 || m.len() == 28);
}

} // verus!
