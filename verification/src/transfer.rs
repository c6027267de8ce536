//! Drops onto the canvas. A whole batch is validated before the drawing changes.
use vstd::prelude::*;
use vstd::utf8::{decode_utf8, valid_utf8};
use crate::bounds::joint_bounds;
use crate::clipboard::{
    drawing_text, drawing_type, drawing_type_spec, image_types, image_types_spec, is_drawing,
    reps_of, texts_of, RepModel, Representation,
};
use crate::geometry::Point;
use crate::images::{initial_frame, initial_frame_spec, placeable};
use crate::motion::{selected_shapes, shifted_each};
use crate::ops::{count, count_spec, new_image, Editor, EditorModel};
use crate::paste::{pasted, room_for};
use crate::scalar::{half, Scalar};
use crate::scene::highest_id;
use crate::svg::parsed;
use crate::viewport::Viewport;

verus! {

/// The media types that a drop is read from, the preferred first.
pub open spec fn drop_order_spec() -> Seq<Seq<char>> {
    seq![drawing_type_spec(), "image/svg+xml"@] + image_types_spec()
}

fn drop_order() -> (r: Vec<&'static str>)
    ensures
        texts_of(r@) == drop_order_spec(),
{
    let mut out: Vec<&'static str> = Vec::new();
    out.push(drawing_type());
    out.push("image/svg+xml");
    let mut images = image_types();
    let ghost pictures = images@;
    out.append(&mut images);
    assert(texts_of(out@) =~= drop_order_spec()) by {
        assert forall|i: int| 0 <= i < texts_of(out@).len() implies texts_of(out@)[i]
            == drop_order_spec()[i] by {
            if 2 <= i {
                assert(texts_of(pictures)[i - 2] == image_types_spec()[i - 2]);
            }
        }
    }
    out
}

/// The media types that the canvas takes drops of: what it reads, and lists of files.
pub open spec fn target_types_spec() -> Seq<Seq<char>> {
    seq![drawing_type_spec(), "image/svg+xml"@, "text/uri-list"@] + image_types_spec()
}

pub fn target_types() -> (r: Vec<&'static str>)
    ensures
        texts_of(r@) == target_types_spec(),
{
    let mut out: Vec<&'static str> = Vec::new();
    out.push(drawing_type());
    out.push("image/svg+xml");
    out.push("text/uri-list");
    let mut images = image_types();
    let ghost pictures = images@;
    out.append(&mut images);
    assert(texts_of(out@) =~= target_types_spec()) by {
        assert forall|i: int| 0 <= i < texts_of(out@).len() implies texts_of(out@)[i]
            == target_types_spec()[i] by {
            if 3 <= i {
                assert(texts_of(pictures)[i - 3] == image_types_spec()[i - 3]);
            }
        }
    }
    out
}

/// Whether the canvas takes a drop: over it, and of a type that it reads.
pub fn accepts<S: Scalar>(v: &Viewport<S>, p: Point<S>, offered: bool) -> (r: bool)
    ensures
        r == (S::of_int(0).at_most(p.x) && S::of_int(0).at_most(p.y) && p.x.below(v.size.0)
            && p.y.below(v.size.1) && offered),
{
    S::of_int(0).at_most(p.x) && S::of_int(0).at_most(p.y) && p.x.below(v.size.0) && p.y.below(
        v.size.1,
    ) && offered
}

/// The first representation of a media type.
pub open spec fn first_of(reps: Seq<RepModel>, mime: Seq<char>) -> Option<int>
    decreases reps.len(),
{
    if reps.len() == 0 {
        None
    } else {
        match first_of(reps.drop_last(), mime) {
            Some(i) => Some(i),
            None => if reps.last().mime == mime {
                Some(reps.len() - 1)
            } else {
                None
            },
        }
    }
}

/// The representation that an item is read from: the first of the first type in the order that
/// it offers.
pub open spec fn chosen(reps: Seq<RepModel>, order: Seq<Seq<char>>) -> Option<int>
    decreases order.len(),
{
    if order.len() == 0 {
        None
    } else {
        match first_of(reps, order[0]) {
            Some(i) => Some(i),
            None => chosen(reps, order.drop_first()),
        }
    }
}

proof fn first_of_prefix(reps: Seq<RepModel>, mime: Seq<char>, n: int)
    requires
        0 <= n <= reps.len(),
        first_of(reps.subrange(0, n), mime) is Some,
    ensures
        first_of(reps, mime) == first_of(reps.subrange(0, n), mime),
    decreases reps.len(),
{
    if n < reps.len() {
        assert(reps.drop_last().subrange(0, n) =~= reps.subrange(0, n));
        first_of_prefix(reps.drop_last(), mime, n);
    } else {
        assert(reps.subrange(0, n) =~= reps);
    }
}

fn find_type(reps: &Vec<Representation>, mime: &str) -> (r: Option<usize>)
    ensures
        match r {
            Some(i) => i < reps.len() && first_of(reps_of(reps@), mime@) == Some(i as int),
            None => first_of(reps_of(reps@), mime@) is None,
        },
{
    let ghost all = reps_of(reps@);
    let want = mime.to_owned();
    let mut i: usize = 0;
    assert(all.subrange(0, 0) =~= Seq::<RepModel>::empty());
    while i < reps.len()
        invariant
            i <= reps.len(),
            all == reps_of(reps@),
            want@ == mime@,
            first_of(all.subrange(0, i as int), mime@) is None,
        decreases reps.len() - i,
    {
        assert(all.subrange(0, i + 1).drop_last() =~= all.subrange(0, i as int));
        if reps[i].mime == want {
            proof {
                first_of_prefix(all, mime@, i + 1);
            }
            return Some(i);
        }
        i += 1;
    }
    assert(all.subrange(0, i as int) =~= all);
    None
}

/// The representation that an item is read from.
pub fn representation(reps: &Vec<Representation>) -> (r: Option<usize>)
    ensures
        match r {
            Some(i) => i < reps.len() && chosen(reps_of(reps@), drop_order_spec()) == Some(
                i as int,
            ),
            None => chosen(reps_of(reps@), drop_order_spec()) is None,
        },
{
    let order = drop_order();
    let ghost all = texts_of(order@);
    let ghost models = reps_of(reps@);
    let mut k: usize = 0;
    assert(all.subrange(0, all.len() as int) =~= all);
    while k < order.len()
        invariant
            k <= order.len(),
            all == texts_of(order@),
            all == drop_order_spec(),
            models == reps_of(reps@),
            chosen(models, all.subrange(k as int, all.len() as int)) == chosen(models, all),
        decreases order.len() - k,
    {
        let ghost rest = all.subrange(k as int, all.len() as int);
        assert(rest[0] == order@[k as int]@);
        assert(rest.drop_first() =~= all.subrange(k + 1, all.len() as int));
        let found = find_type(reps, order[k]);
        if found.is_some() {
            return found;
        }
        k += 1;
    }
    None
}

// ---------------------------------------------------------------------------
// Lists of files
// ---------------------------------------------------------------------------

/// A path of the machine's file system, as the standard library has it.
#[verifier::external_type_specification]
#[verifier::external_body]
pub struct ExPathBuf(std::path::PathBuf);

/// `day_spec::transfer::file_paths`: the paths that a list of `file:` addresses names, one for
/// each, in order. Where there are any there are no more than it takes, the list is valid UTF-8,
/// and every address takes up at least eight of its bytes, those of `file:///`. Which bytes make
/// a path, and which lists name none at all, is not said: both differ between systems.
#[verifier::external_body]
fn listed_paths(list: &[u8]) -> (r: Option<Vec<std::path::PathBuf>>)
    ensures
        r matches Some(p) ==> 0 < p@.len() <= 256,
        r matches Some(p) ==> valid_utf8(list@) && 8 * p@.len() <= list@.len(),
{
    day_spec::transfer::file_paths(list)
}

/// What an item is read from.
pub enum Source {
    /// One of its representations.
    Bytes(usize),
    /// The files that it names.
    Files(Vec<std::path::PathBuf>),
    /// Nothing: the batch is refused.
    Refused,
}

/// What an item without a readable representation is read from, by the paths that its list
/// names: the files, or nothing where it names none.
pub fn named(listed: Option<Vec<std::path::PathBuf>>) -> (r: Source)
    ensures
        r == match listed {
            Some(paths) => Source::Files(paths),
            None => Source::Refused,
        },
{
    match listed {
        Some(paths) => Source::Files(paths),
        None => Source::Refused,
    }
}

/// What an item is read from: its best representation, and without one the files of its list.
pub fn source(reps: &Vec<Representation>) -> (r: Source)
    ensures
        match chosen(reps_of(reps@), drop_order_spec()) {
            Some(i) => r matches Source::Bytes(k) && k == i && k < reps.len(),
            None => match first_of(reps_of(reps@), "text/uri-list"@) {
                None => r is Refused,
                Some(i) => {
                    let list = reps_of(reps@)[i].bytes;
                    &&& r !is Bytes
                    &&& r matches Source::Files(p) ==> 0 < p@.len() <= 256 && valid_utf8(list)
                        && 8 * p@.len() <= list.len()
                },
            },
        },
{
    if let Some(i) = representation(reps) {
        return Source::Bytes(i);
    }
    match find_type(reps, "text/uri-list") {
        None => Source::Refused,
        Some(i) => named(listed_paths(reps[i].bytes.as_slice())),
    }
}

// ---------------------------------------------------------------------------
// Validating a batch
// ---------------------------------------------------------------------------

/// Something dropped, ready to be placed.
pub enum Imported<S> {
    Drawing(String),
    Image(Vec<u8>, (S, S)),
}

/// What an [`Imported`] holds, as values.
pub ghost enum ImportModel<S> {
    Drawing(Seq<char>),
    Image(Seq<u8>, (S, S)),
}

impl<S> View for Imported<S> {
    type V = ImportModel<S>;

    open spec fn view(&self) -> ImportModel<S> {
        match self {
            Imported::Drawing(t) => ImportModel::Drawing(t@),
            Imported::Image(b, size) => ImportModel::Image(b@, *size),
        }
    }
}

pub open spec fn imports_of<S>(imports: Seq<Imported<S>>) -> Seq<ImportModel<S>> {
    Seq::new(imports.len(), |i: int| imports[i]@)
}

/// A batch on its way in: how many bytes it may still bring, and what it has brought.
pub struct Intake<S> {
    pub remaining: usize,
    pub imports: Vec<Imported<S>>,
}

/// What has to be done about something that came in.
#[derive(Clone, Copy, Debug, PartialEq, Eq, Structural)]
pub enum Verdict {
    /// The batch is refused as a whole.
    Refused,
    /// It was a drawing, and is taken in.
    Taken,
    /// It has to be decoded as a picture.
    Decode,
}

/// Whether something of this media type is read as a drawing. A file comes without a type.
pub open spec fn maybe_drawing(mime: Seq<char>) -> bool {
    mime == drawing_type_spec() || mime == "image/svg+xml"@ || mime.len() == 0
}

impl<S: Scalar> Intake<S> {
    /// A batch that may bring `limit` bytes.
    pub fn new(limit: usize) -> (r: Intake<S>)
        ensures
            r.remaining == limit,
            imports_of(r.imports@) == Seq::<ImportModel<S>>::empty(),
    {
        let r = Intake { remaining: limit, imports: Vec::new() };
        assert(imports_of(r.imports@) =~= Seq::<ImportModel<S>>::empty());
        r
    }

    /// Whether the batch has brought more than `most` things.
    pub fn overfull(&self, most: usize) -> (r: bool)
        ensures
            r == (self.imports.len() > most),
    {
        self.imports.len() > most
    }

    /// How many bytes to read of a file: one more than the batch may still bring tells that the
    /// file is too long for it.
    pub fn read_limit(&self) -> (r: u64)
        requires
            self.remaining < usize::MAX,
        ensures
            r == self.remaining + 1,
    {
        (self.remaining + 1) as u64
    }

    /// Takes in the bytes of one representation, or of one file. More bytes than the batch may
    /// still bring refuse it.
    pub fn offer(&mut self, mime: &str, bytes: &Vec<u8>) -> (r: Verdict)
        ensures
            bytes@.len() > old(self).remaining ==> r == Verdict::Refused && *final(self) == *old(
                self,
            ),
            bytes@.len() <= old(self).remaining ==> final(self).remaining == old(self).remaining
                - bytes@.len(),
            bytes@.len() <= old(self).remaining ==> if maybe_drawing(mime@) && is_drawing::<S>(
                bytes@,
            ) {
                r == Verdict::Taken && imports_of(final(self).imports@) == imports_of(
                    old(self).imports@,
                ).push(ImportModel::Drawing(decode_utf8(bytes@)))
            } else {
                r == Verdict::Decode && final(self).imports@ == old(self).imports@
            },
    {
        if bytes.len() > self.remaining {
            return Verdict::Refused;
        }
        self.remaining = self.remaining - bytes.len();
        let kind = mime.to_owned();
        let none = String::new();
        proof {
            assert(kind@.len() == 0 <==> kind@ =~= none@);
        }
        if kind == drawing_type().to_owned() || kind == "image/svg+xml".to_owned() || kind == none {
            if let Some(t) = drawing_text::<S>(bytes.as_slice()) {
                let ghost before = self.imports@;
                self.imports.push(Imported::Drawing(t));
                assert(imports_of(self.imports@) =~= imports_of(before).push(
                    ImportModel::Drawing(t@),
                ));
                return Verdict::Taken;
            }
        }
        Verdict::Decode
    }

    /// Takes in a picture that was decoded to `size`; returns whether the batch goes on. One
    /// that would not decode, or has no size to place, refuses it.
    pub fn decoded(&mut self, bytes: Vec<u8>, size: Option<(S, S)>) -> (r: bool)
        ensures
            final(self).remaining == old(self).remaining,
            match size {
                Some(s) => if placeable(s) {
                    r && imports_of(final(self).imports@) == imports_of(old(self).imports@).push(
                        ImportModel::Image(bytes@, s),
                    )
                } else {
                    !r && final(self).imports@ == old(self).imports@
                },
                None => !r && final(self).imports@ == old(self).imports@,
            },
    {
        match size {
            None => false,
            Some(s) => {
                if placeable(s) {
                    let ghost before = self.imports@;
                    self.imports.push(Imported::Image(bytes, s));
                    assert(imports_of(self.imports@) =~= imports_of(before).push(
                        ImportModel::Image(bytes@, s),
                    ));
                    true
                } else {
                    false
                }
            },
        }
    }
}

// ---------------------------------------------------------------------------
// Placing a batch
// ---------------------------------------------------------------------------

/// Where the `index`-th import of a batch is centred: sixteen further on than the one before.
pub open spec fn import_at<S: Scalar>(position: Point<S>, index: int) -> Point<S> {
    let step = count_spec::<S>(index).times(S::of_int(16));
    Point { x: position.x.plus(step), y: position.y.plus(step) }
}

/// The editor after one import was placed about `at`, and selected. A drawing is pasted, and
/// its pasted nodes are moved there. With no ids left for it, nothing is placed and nothing
/// selected.
pub open spec fn import_placed<S: Scalar>(
    m: EditorModel<S>,
    v: Viewport<S>,
    import: ImportModel<S>,
    at: Point<S>,
) -> EditorModel<S> {
    match import {
        ImportModel::Image(bytes, size) => {
            if highest_id(m.rows) < u64::MAX {
                let f = initial_frame_spec(v, size);
                EditorModel {
                    rows: m.rows.push(
                        new_image(
                            m.rows,
                            bytes,
                            (at.x.minus(half(f.2)), at.y.minus(half(f.3)), f.2, f.3),
                        ),
                    ),
                    selection: seq![(highest_id(m.rows) + 1) as u64],
                    ..m
                }
            } else {
                EditorModel { selection: Seq::empty(), ..m }
            }
        },
        ImportModel::Drawing(text) => {
            if room_for(m.rows, parsed::<S>(text)) {
                let n = pasted(m, text);
                match joint_bounds(n.rows, n.selection) {
                    Some(b) => EditorModel {
                        rows: shifted_each(
                            n.rows,
                            selected_shapes(n.rows, n.selection),
                            at.x.minus(b.0).minus(half(b.2)),
                            at.y.minus(b.1).minus(half(b.3)),
                        ),
                        ..n
                    },
                    None => n,
                }
            } else {
                EditorModel { selection: Seq::empty(), ..m }
            }
        },
    }
}

/// The editor after the first imports of a batch were placed, with everything that was
/// selected on the way.
pub open spec fn imports_placed<S: Scalar>(
    m: EditorModel<S>,
    v: Viewport<S>,
    imports: Seq<ImportModel<S>>,
    position: Point<S>,
) -> (EditorModel<S>, Seq<u64>)
    decreases imports.len(),
{
    if imports.len() == 0 {
        (m, Seq::empty())
    } else {
        let (n, ids) = imports_placed(m, v, imports.drop_last(), position);
        let r = import_placed(n, v, imports.last(), import_at(position, imports.len() - 1));
        (r, ids + r.selection)
    }
}

impl<S: Scalar> Editor<S> {
    /// Places one import about `at`, and selects it.
    fn place_import(&mut self, v: &Viewport<S>, import: Imported<S>, at: Point<S>)
        requires
            old(self).wf(),
        ensures
            final(self).wf(),
            final(self)@ == import_placed(old(self)@, *v, import@, at),
    {
        match import {
            Imported::Image(bytes, size) => {
                let mut selected: Vec<u64> = Vec::new();
                let ghost empty = selected@;
                if self.scene.top_id() < u64::MAX {
                    let (_, _, w, h) = initial_frame(v, size);
                    let id = self.scene.place_image(
                        bytes,
                        (at.x.minus(half(w)), at.y.minus(half(h)), w, h),
                    );
                    selected.push(id);
                    assert(selected@ =~= seq![id]);
                } else {
                    assert(selected@ =~= Seq::<u64>::empty());
                }
                self.selection = selected;
            },
            Imported::Drawing(text) => {
                if self.has_room(text.as_str()) {
                    self.paste_text(text.as_str());
                    if let Some(b) = self.scene.joint_bounds(self.selection.as_slice()) {
                        self.nudge_selection(
                            at.x.minus(b.0).minus(half(b.2)),
                            at.y.minus(b.1).minus(half(b.3)),
                        );
                    }
                } else {
                    self.selection = Vec::new();
                    assert(self.selection@ =~= Seq::<u64>::empty());
                }
            },
        }
    }

    /// Places a whole batch dropped at a point of the screen, as one turn, and selects all of
    /// it.
    pub fn receive(&mut self, v: &Viewport<S>, imports: Vec<Imported<S>>, drop: Point<S>)
        requires
            old(self).wf(),
        ensures
            final(self).wf(),
            ({
                let (m, ids) = imports_placed(
                    old(self)@,
                    *v,
                    imports_of(imports@),
                    v.to_model(drop),
                );
                final(self)@ == (EditorModel { selection: ids, ..m })
            }),
    {
        let ghost start = self@;
        let ghost all = imports_of(imports@);
        let position = v.to_model(drop);
        let mut rest = imports;
        let mut ids: Vec<u64> = Vec::new();
        let n: usize = rest.len();
        let mut i: usize = 0;
        assert(all.subrange(0, 0) =~= Seq::<ImportModel<S>>::empty());
        while i < n
            invariant
                self.wf(),
                i <= n,
                n == all.len(),
                rest.len() == n - i,
                forall|k: int| 0 <= k < rest.len() ==> (#[trigger] rest@[k])@ == all[i + k],
                (self@, ids@) == imports_placed(start, *v, all.subrange(0, i as int), position),
            decreases n - i,
        {
            assert(all.subrange(0, i + 1).drop_last() =~= all.subrange(0, i as int));
            let step = count::<S>(i).times(S::of_int(16));
            let at = Point { x: position.x.plus(step), y: position.y.plus(step) };
            let ghost queue = rest@;
            let next = rest.remove(0);
            assert(next@ == all[i as int]);
            let ghost sofar = ids@;
            self.place_import(v, next, at);
            let mut k: usize = 0;
            while k < self.selection.len()
                invariant
                    k <= self.selection.len(),
                    ids@ == sofar + self.selection@.subrange(0, k as int),
                decreases self.selection.len() - k,
            {
                ids.push(self.selection[k]);
                k += 1;
                assert(ids@ =~= sofar + self.selection@.subrange(0, k as int));
            }
            assert(self.selection@.subrange(0, k as int) =~= self.selection@);
            i += 1;
            assert forall|j: int| 0 <= j < rest.len() implies (#[trigger] rest@[j])@ == all[i
                + j] by {
                assert(rest@[j] == queue[j + 1]);
            }
        }
        assert(all.subrange(0, i as int) =~= all);
        self.selection = ids;
    }
}

} // verus!
