//! The inspector: what its fields show of the selection, and what an edit of one does.
use vstd::prelude::*;
use crate::bounds::node_bounds;
use crate::color::{parse_hex, parse_hex_spec, to_hex, to_hex_spec, Color};
use crate::motion::{h_set, turned_to, w_set, x_set, y_set};
use crate::node::{NodeKind, NodeModel};
use crate::ops::{filter_step, Editor, EditorModel};
use crate::scalar::{clamped, ratio, Scalar};
use crate::scene::{peek, shapes_of_each, written, Field, FieldModel, Scene};
use crate::text::{
    chars_of, int_text, int_text_spec, string_of, trim, trim_spec, without_trailing,
    without_trailing_spec,
};
use crate::viewport::Viewport;

verus! {

// ---------------------------------------------------------------------------
// Geometry
// ---------------------------------------------------------------------------

/// A numeric property of the selection's frames.
#[derive(Clone, Copy, Debug, PartialEq, Eq, Structural)]
pub enum Prop {
    X,
    Y,
    W,
    H,
}

/// The property's part of a frame.
pub open spec fn part_of<S>(prop: Prop, f: (S, S, S, S)) -> S {
    match prop {
        Prop::X => f.0,
        Prop::Y => f.1,
        Prop::W => f.2,
        Prop::H => f.3,
    }
}

/// The property's values, of those nodes that have bounds.
pub open spec fn prop_values<S: Scalar>(rows: Seq<NodeModel<S>>, ids: Seq<u64>, prop: Prop) -> Seq<S>
    decreases ids.len(),
{
    if ids.len() == 0 {
        Seq::empty()
    } else {
        let rest = prop_values(rows, ids.drop_last(), prop);
        match node_bounds(rows, ids.last()) {
            Some(b) => rest.push(part_of(prop, b)),
            None => rest,
        }
    }
}

/// Whether two values agree, to a twentieth.
pub open spec fn agrees<S: Scalar>(v: S, first: S) -> bool {
    !ratio::<S>(5, 100).at_most(v.minus(first).magnitude())
}

/// Whether every value agrees with the first.
pub open spec fn all_agree<S: Scalar>(vals: Seq<S>) -> bool {
    forall|i: int| 1 <= i < vals.len() ==> agrees(#[trigger] vals[i], vals[0])
}

/// The value that a whole selection shares: `None` for an empty selection, and for one that
/// disagrees.
pub open spec fn common<S: Scalar>(rows: Seq<NodeModel<S>>, ids: Seq<u64>, prop: Prop) -> Option<S> {
    let vals = prop_values(rows, ids, prop);
    if vals.len() > 0 && all_agree(vals) {
        Some(vals[0])
    } else {
        None
    }
}

/// The text of a value: one decimal at most, whole numbers bare.
pub open spec fn fmt_spec<S: Scalar>(v: S) -> Seq<char> {
    let r = v.times(S::of_int(10)).rounded().over(S::of_int(10));
    if r.whole() {
        int_text_spec(r.to_int() as int)
    } else {
        r.tenth_text_spec()
    }
}

pub fn fmt<S: Scalar>(v: S) -> (r: String)
    ensures
        r@ == fmt_spec(v),
{
    let r = v.times(S::of_int(10)).rounded().over(S::of_int(10));
    if r.whole() {
        int_text(r.to_int())
    } else {
        r.tenth_text()
    }
}

/// What a property's field shows.
pub open spec fn prop_text<S: Scalar>(m: EditorModel<S>, prop: Prop) -> Seq<char> {
    match common(m.rows, m.selection, prop) {
        Some(v) => fmt_spec(v),
        None => Seq::empty(),
    }
}

/// The rows after one node's property was set.
pub open spec fn prop_set<S: Scalar>(rows: Seq<NodeModel<S>>, id: u64, prop: Prop, v: S) -> Seq<
    NodeModel<S>,
> {
    match prop {
        Prop::X => x_set(rows, id, v),
        Prop::Y => y_set(rows, id, v),
        Prop::W => w_set(rows, id, v),
        Prop::H => h_set(rows, id, v),
    }
}

/// The rows after the property of each node was set, in turn.
pub open spec fn prop_set_each<S: Scalar>(
    rows: Seq<NodeModel<S>>,
    ids: Seq<u64>,
    prop: Prop,
    v: S,
) -> Seq<NodeModel<S>>
    decreases ids.len(),
{
    if ids.len() == 0 {
        rows
    } else {
        prop_set(prop_set_each(rows, ids.drop_last(), prop, v), ids.last(), prop, v)
    }
}

/// The number that a typed text sets, if it is a finite one.
pub open spec fn typed<S: Scalar>(text: Seq<char>) -> Option<S> {
    match S::of_text_spec(trim_spec(text)) {
        Some(v) => if v.finite() {
            Some(v)
        } else {
            None
        },
        None => None,
    }
}

/// The undo label of an edit of a property.
pub open spec fn prop_label_spec(prop: Prop) -> Seq<char> {
    match prop {
        Prop::X | Prop::Y => "move"@,
        Prop::W | Prop::H => "resize"@,
    }
}

impl<S: Scalar> Editor<S> {
    /// The value that the whole selection shares.
    pub fn common(&self, prop: Prop) -> (r: Option<S>)
        requires
            self.wf(),
        ensures
            r == common(self@.rows, self@.selection, prop),
    {
        let ghost vals = prop_values(self@.rows, self@.selection, prop);
        let mut found: Vec<S> = Vec::new();
        let mut i: usize = 0;
        assert(self@.selection.subrange(0, 0) =~= Seq::<u64>::empty());
        while i < self.selection.len()
            invariant
                self.wf(),
                i <= self.selection.len(),
                found@ == prop_values(self@.rows, self@.selection.subrange(0, i as int), prop),
            decreases self.selection.len() - i,
        {
            assert(self@.selection.subrange(0, i + 1).drop_last() =~= self@.selection.subrange(
                0,
                i as int,
            ));
            if let Some(b) = self.scene.node_bounds(self.selection[i]) {
                let v = match prop {
                    Prop::X => b.0,
                    Prop::Y => b.1,
                    Prop::W => b.2,
                    Prop::H => b.3,
                };
                found.push(v);
            }
            i += 1;
        }
        assert(self@.selection.subrange(0, i as int) =~= self@.selection);
        if found.len() == 0 {
            return None;
        }
        let first = found[0];
        let mut k: usize = 1;
        while k < found.len()
            invariant
                1 <= k <= found.len(),
                found@ == vals,
                first == vals[0],
                vals == prop_values(self@.rows, self@.selection, prop),
                forall|j: int| 1 <= j < k ==> agrees(#[trigger] vals[j], vals[0]),
            decreases found.len() - k,
        {
            if ratio::<S>(5, 100).at_most(found[k].minus(first).magnitude()) {
                assert(!agrees(vals[k as int], vals[0]));
                return None;
            }
            k += 1;
        }
        Some(first)
    }

    /// Whether the selected nodes disagree.
    pub fn is_mixed(&self, prop: Prop) -> (r: bool)
        requires
            self.wf(),
        ensures
            r == (self@.selection.len() > 0 && common(self@.rows, self@.selection, prop) is None),
    {
        self.selection.len() > 0 && self.common(prop).is_none()
    }

    /// What a property's field shows.
    pub fn prop_text(&self, prop: Prop) -> (r: String)
        requires
            self.wf(),
        ensures
            r@ == prop_text(self@, prop),
    {
        match self.common(prop) {
            Some(v) => fmt(v),
            None => {
                let r = String::new();
                assert(r@ =~= Seq::<char>::empty());
                r
            },
        }
    }

    /// Sets a property of every selected node to a typed value; returns the label of the turn.
    /// A text that is no finite number, and an empty selection, change nothing.
    pub fn commit_prop(&mut self, prop: Prop, text: &str) -> (r: Option<&'static str>)
        requires
            old(self).wf(),
        ensures
            final(self).wf(),
            match typed::<S>(text@) {
                Some(v) => if old(self)@.selection.len() > 0 {
                    &&& r matches Some(l)
                    &&& l@ == prop_label_spec(prop)
                    &&& final(self)@ == (EditorModel {
                        rows: prop_set_each(old(self)@.rows, old(self)@.selection, prop, v),
                        ..old(self)@
                    })
                } else {
                    r is None && final(self)@ == old(self)@
                },
                None => r is None && final(self)@ == old(self)@,
            },
    {
        let chars = chars_of(text);
        let chars = trim(chars.as_slice());
        let body = string_of(chars.as_slice());
        let v = match S::of_text(body.as_str()) {
            Some(v) => v,
            None => {
                return None;
            },
        };
        if !v.finite() || self.selection.len() == 0 {
            return None;
        }
        let ghost start = self@;
        let mut i: usize = 0;
        assert(start.selection.subrange(0, 0) =~= Seq::<u64>::empty());
        while i < self.selection.len()
            invariant
                self.wf(),
                i <= self.selection.len(),
                self@ == (EditorModel {
                    rows: prop_set_each(
                        start.rows,
                        start.selection.subrange(0, i as int),
                        prop,
                        v,
                    ),
                    ..start
                }),
            decreases self.selection.len() - i,
        {
            assert(start.selection.subrange(0, i + 1).drop_last() =~= start.selection.subrange(
                0,
                i as int,
            ));
            let id = self.selection[i];
            match prop {
                Prop::X => self.scene.set_x(id, v),
                Prop::Y => self.scene.set_y(id, v),
                Prop::W => self.scene.set_w(id, v),
                Prop::H => self.scene.set_h(id, v),
            }
            i += 1;
        }
        assert(start.selection.subrange(0, i as int) =~= start.selection);
        match prop {
            Prop::X | Prop::Y => Some("move"),
            Prop::W | Prop::H => Some("resize"),
        }
    }
}

// ---------------------------------------------------------------------------
// Style
// ---------------------------------------------------------------------------

/// A numeric style property.
#[derive(Clone, Copy, Debug, PartialEq, Eq, Structural)]
pub enum StyleNum {
    FillOpacity,
    StrokeOpacity,
    StrokeWidth,
    Rotation,
    CornerRadius,
}

/// What an edit of the property reaches: the shapes of the selection, but for an angle the
/// selected nodes themselves, so that a group turns as one body.
pub open spec fn style_targets<S: Scalar>(m: EditorModel<S>, num: StyleNum) -> Seq<u64> {
    if num == StyleNum::Rotation {
        m.selection
    } else {
        shapes_of_each(m.rows, m.selection)
    }
}

/// The property of one node.
pub open spec fn style_of<S>(n: NodeModel<S>, num: StyleNum) -> S {
    match num {
        StyleNum::FillOpacity => n.fill_opacity,
        StyleNum::StrokeOpacity => n.stroke_opacity,
        StyleNum::StrokeWidth => n.stroke_width,
        StyleNum::Rotation => n.rotation,
        StyleNum::CornerRadius => n.corner_radius,
    }
}

/// What a numeric control shows: the first target's value, nought without any.
pub open spec fn style_shown<S: Scalar>(m: EditorModel<S>, num: StyleNum) -> S {
    let targets = style_targets(m, num);
    if targets.len() > 0 {
        style_of(peek(m.rows, targets[0]), num)
    } else {
        S::of_int(0)
    }
}

/// The rows after the property of one node was set. Widths and radii stop at nought, and an
/// angle is taken within a full turn.
pub open spec fn style_set<S: Scalar>(rows: Seq<NodeModel<S>>, id: u64, num: StyleNum, v: S) -> Seq<
    NodeModel<S>,
> {
    match num {
        StyleNum::FillOpacity => written(rows, id, FieldModel::FillOpacity(v)),
        StyleNum::StrokeOpacity => written(rows, id, FieldModel::StrokeOpacity(v)),
        StyleNum::StrokeWidth => written(
            rows,
            id,
            FieldModel::StrokeWidth(v.greater(S::of_int(0))),
        ),
        StyleNum::Rotation => turned_to(rows, id, v.wrapped(S::of_int(360))),
        StyleNum::CornerRadius => written(
            rows,
            id,
            FieldModel::CornerRadius(v.greater(S::of_int(0))),
        ),
    }
}

/// The rows after the property of each node was set, in turn.
pub open spec fn style_set_each<S: Scalar>(
    rows: Seq<NodeModel<S>>,
    ids: Seq<u64>,
    num: StyleNum,
    v: S,
) -> Seq<NodeModel<S>>
    decreases ids.len(),
{
    if ids.len() == 0 {
        rows
    } else {
        style_set(style_set_each(rows, ids.drop_last(), num, v), ids.last(), num, v)
    }
}

/// A colour of a shape.
#[derive(Clone, Copy, Debug, PartialEq, Eq, Structural)]
pub enum StyleColor {
    Fill,
    Stroke,
}

pub open spec fn color_of<S>(n: NodeModel<S>, which: StyleColor) -> Seq<char> {
    match which {
        StyleColor::Fill => n.fill,
        StyleColor::Stroke => n.stroke,
    }
}

/// The rows after a colour of each node was set, in turn.
pub open spec fn color_set_each<S: Scalar>(
    rows: Seq<NodeModel<S>>,
    ids: Seq<u64>,
    which: StyleColor,
    hex: Seq<char>,
) -> Seq<NodeModel<S>>
    decreases ids.len(),
{
    if ids.len() == 0 {
        rows
    } else {
        written(
            color_set_each(rows, ids.drop_last(), which, hex),
            ids.last(),
            match which {
                StyleColor::Fill => FieldModel::Fill(hex),
                StyleColor::Stroke => FieldModel::Stroke(hex),
            },
        )
    }
}

/// What a colour well shows: the first shape's colour, a middle grey without any.
pub open spec fn color_shown<S: Scalar>(m: EditorModel<S>, which: StyleColor) -> Color<S> {
    let targets = shapes_of_each(m.rows, m.selection);
    if targets.len() > 0 {
        parse_hex_spec(color_of(peek(m.rows, targets[0]), which))
    } else {
        Color::hex(0x888888)
    }
}

/// Whether a character is one of the marks that localized texts put around a value.
pub open spec fn isolate(c: char) -> bool {
    c == '\u{2068}' || c == '\u{2069}'
}

pub open spec fn unmarked() -> spec_fn(char) -> bool {
    |c: char| !isolate(c)
}

/// A typed percentage as a fraction, with or without its sign, held between nought and one. What
/// is no number, as it does not even equal itself, is none.
pub open spec fn percent_typed<S: Scalar>(text: Seq<char>) -> Option<S> {
    let body = trim_spec(without_trailing_spec(trim_spec(text.filter(unmarked())), '%'));
    match S::of_text_spec(body) {
        Some(v) => if v.equals(v) {
            Some(clamped(v.over(S::of_int(100)), S::of_int(0), S::of_int(1)))
        } else {
            None
        },
        None => None,
    }
}

/// A typed percentage as a fraction.
pub fn read_percent<S: Scalar>(text: &str) -> (r: Option<S>)
    ensures
        r == percent_typed::<S>(text@),
{
    let chars = chars_of(text);
    let mut kept: Vec<char> = Vec::new();
    let mut i: usize = 0;
    let ghost keep = unmarked();
    proof {
        reveal(Seq::filter);
        assert(chars@.subrange(0, 0).filter(keep) =~= Seq::<char>::empty());
    }
    while i < chars.len()
        invariant
            i <= chars.len(),
            keep == unmarked(),
            kept@ == chars@.subrange(0, i as int).filter(keep),
        decreases chars.len() - i,
    {
        proof {
            filter_step(chars@, keep, i as int);
        }
        let c = chars[i];
        if !(c == '\u{2068}' || c == '\u{2069}') {
            kept.push(c);
        }
        i += 1;
    }
    assert(chars@.subrange(0, i as int) =~= chars@);
    let body = trim(kept.as_slice());
    let body = without_trailing(body.as_slice(), '%');
    let body = trim(body.as_slice());
    let body = string_of(body.as_slice());
    match S::of_text(body.as_str()) {
        Some(v) => if v.equals(v) {
            Some(clamped(v.over(S::of_int(100)), S::of_int(0), S::of_int(1)))
        } else {
            None
        },
        None => None,
    }
}

impl<S: Scalar> Editor<S> {
    /// What an edit of the property reaches.
    pub fn style_targets(&self, num: StyleNum) -> (r: Vec<u64>)
        requires
            self.wf(),
        ensures
            r@ == style_targets(self@, num),
    {
        if num == StyleNum::Rotation {
            let mut out: Vec<u64> = Vec::new();
            let mut i: usize = 0;
            while i < self.selection.len()
                invariant
                    i <= self.selection.len(),
                    out@ == self.selection@.subrange(0, i as int),
                decreases self.selection.len() - i,
            {
                out.push(self.selection[i]);
                i += 1;
                assert(out@ =~= self.selection@.subrange(0, i as int));
            }
            assert(self.selection@.subrange(0, i as int) =~= self.selection@);
            out
        } else {
            self.scene.shapes_under(self.selection.as_slice())
        }
    }

    /// What a numeric control shows.
    pub fn style_shown(&self, num: StyleNum) -> (r: S)
        requires
            self.wf(),
        ensures
            r == style_shown(self@, num),
    {
        let targets = self.style_targets(num);
        if targets.len() == 0 {
            return S::of_int(0);
        }
        match self.scene.find(targets[0]) {
            None => S::of_int(0),
            Some(i) => match num {
                StyleNum::FillOpacity => self.scene.nodes[i].fill_opacity,
                StyleNum::StrokeOpacity => self.scene.nodes[i].stroke_opacity,
                StyleNum::StrokeWidth => self.scene.nodes[i].stroke_width,
                StyleNum::Rotation => self.scene.nodes[i].rotation,
                StyleNum::CornerRadius => self.scene.nodes[i].corner_radius,
            },
        }
    }

    /// Sets a style property of every target; returns the label of the turn, none where there
    /// is nothing to set.
    pub fn set_style(&mut self, num: StyleNum, v: S) -> (r: Option<&'static str>)
        requires
            old(self).wf(),
        ensures
            final(self).wf(),
            final(self)@ == (EditorModel {
                rows: style_set_each(old(self)@.rows, style_targets(old(self)@, num), num, v),
                ..old(self)@
            }),
            match r {
                Some(l) => l@ == "style"@ && style_targets(old(self)@, num).len() > 0,
                None => style_targets(old(self)@, num).len() == 0,
            },
    {
        let ghost start = self@;
        let targets = self.style_targets(num);
        let mut i: usize = 0;
        assert(targets@.subrange(0, 0) =~= Seq::<u64>::empty());
        while i < targets.len()
            invariant
                self.wf(),
                i <= targets.len(),
                self@ == (EditorModel {
                    rows: style_set_each(start.rows, targets@.subrange(0, i as int), num, v),
                    ..start
                }),
            decreases targets.len() - i,
        {
            assert(targets@.subrange(0, i + 1).drop_last() =~= targets@.subrange(0, i as int));
            let id = targets[i];
            match num {
                StyleNum::FillOpacity => self.scene.write(id, Field::FillOpacity(v)),
                StyleNum::StrokeOpacity => self.scene.write(id, Field::StrokeOpacity(v)),
                StyleNum::StrokeWidth => self.scene.write(
                    id,
                    Field::StrokeWidth(v.greater(S::of_int(0))),
                ),
                StyleNum::Rotation => self.scene.set_rotation(id, v.wrapped(S::of_int(360))),
                StyleNum::CornerRadius => self.scene.write(
                    id,
                    Field::CornerRadius(v.greater(S::of_int(0))),
                ),
            }
            i += 1;
        }
        assert(targets@.subrange(0, i as int) =~= targets@);
        if targets.len() == 0 {
            None
        } else {
            Some("style")
        }
    }

    /// Sets the angle of every selected node from a control that counts past a full turn.
    pub fn set_degrees(&mut self, v: S) -> (r: Option<&'static str>)
        requires
            old(self).wf(),
        ensures
            final(self).wf(),
            final(self)@ == (EditorModel {
                rows: style_set_each(
                    old(self)@.rows,
                    old(self)@.selection,
                    StyleNum::Rotation,
                    v.wrapped(S::of_int(360)),
                ),
                ..old(self)@
            }),
            match r {
                Some(l) => l@ == "style"@ && old(self)@.selection.len() > 0,
                None => old(self)@.selection.len() == 0,
            },
    {
        self.set_style(StyleNum::Rotation, v.wrapped(S::of_int(360)))
    }

    /// A property as whole percent.
    pub fn percent_shown(&self, num: StyleNum) -> (r: i64)
        requires
            self.wf(),
        ensures
            r == style_shown(self@, num).times(S::of_int(100)).rounded().to_int(),
    {
        self.style_shown(num).times(S::of_int(100)).rounded().to_int()
    }

    /// Sets a property from a typed percentage; a text that is none changes nothing.
    pub fn commit_percent(&mut self, num: StyleNum, text: &str) -> (r: Option<&'static str>)
        requires
            old(self).wf(),
        ensures
            final(self).wf(),
            match percent_typed::<S>(text@) {
                Some(v) => {
                    &&& final(self)@ == (EditorModel {
                        rows: style_set_each(
                            old(self)@.rows,
                            style_targets(old(self)@, num),
                            num,
                            v,
                        ),
                        ..old(self)@
                    })
                    &&& match r {
                        Some(l) => l@ == "style"@ && style_targets(old(self)@, num).len() > 0,
                        None => style_targets(old(self)@, num).len() == 0,
                    }
                },
                None => r is None && final(self)@ == old(self)@,
            },
    {
        match read_percent::<S>(text) {
            Some(v) => self.set_style(num, v),
            None => None,
        }
    }

    /// What a colour well shows.
    pub fn color_shown(&self, which: StyleColor) -> (r: Color<S>)
        requires
            self.wf(),
        ensures
            r == color_shown(self@, which),
    {
        let targets = self.scene.shapes_under(self.selection.as_slice());
        if targets.len() == 0 {
            return Color::hex(0x888888);
        }
        match self.scene.find(targets[0]) {
            None => {
                let none = String::new();
                assert(none@ =~= Seq::<char>::empty());
                parse_hex(none.as_str())
            },
            Some(i) => match which {
                StyleColor::Fill => parse_hex(self.scene.nodes[i].fill.as_str()),
                StyleColor::Stroke => parse_hex(self.scene.nodes[i].stroke.as_str()),
            },
        }
    }

    /// Sets a colour of every shape of the selection; returns the label of the turn.
    pub fn set_color(&mut self, which: StyleColor, c: Color<S>) -> (r: Option<&'static str>)
        requires
            old(self).wf(),
        ensures
            final(self).wf(),
            final(self)@ == (EditorModel {
                rows: color_set_each(
                    old(self)@.rows,
                    shapes_of_each(old(self)@.rows, old(self)@.selection),
                    which,
                    to_hex_spec(c),
                ),
                ..old(self)@
            }),
            match r {
                Some(l) => l@ == "style"@ && shapes_of_each(
                    old(self)@.rows,
                    old(self)@.selection,
                ).len() > 0,
                None => shapes_of_each(old(self)@.rows, old(self)@.selection).len() == 0,
            },
    {
        let ghost start = self@;
        let hex = to_hex(c);
        let targets = self.scene.shapes_under(self.selection.as_slice());
        let mut i: usize = 0;
        assert(targets@.subrange(0, 0) =~= Seq::<u64>::empty());
        while i < targets.len()
            invariant
                self.wf(),
                i <= targets.len(),
                self@ == (EditorModel {
                    rows: color_set_each(
                        start.rows,
                        targets@.subrange(0, i as int),
                        which,
                        hex@,
                    ),
                    ..start
                }),
            decreases targets.len() - i,
        {
            assert(targets@.subrange(0, i + 1).drop_last() =~= targets@.subrange(0, i as int));
            let field = match which {
                StyleColor::Fill => Field::Fill(hex.clone()),
                StyleColor::Stroke => Field::Stroke(hex.clone()),
            };
            self.scene.write(targets[i], field);
            i += 1;
        }
        assert(targets@.subrange(0, i as int) =~= targets@);
        if targets.len() == 0 {
            None
        } else {
            Some("style")
        }
    }

    /// The colour of the paper.
    pub fn background_shown(&self) -> (r: Color<S>)
        ensures
            r == parse_hex_spec::<S>(self@.background),
    {
        parse_hex(self.scene.background.as_str())
    }

    /// Sets the colour of the paper.
    pub fn set_background_color(&mut self, c: Color<S>)
        ensures
            final(self)@ == (EditorModel { background: to_hex_spec(c), ..old(self)@ }),
    {
        let hex = to_hex(c);
        self.set_background(hex.as_str());
    }
}

// ---------------------------------------------------------------------------
// Which rows the panel offers
// ---------------------------------------------------------------------------

/// A row of the panel that only some kinds have.
#[derive(Clone, Copy, Debug, PartialEq, Eq, Structural)]
pub enum Row {
    /// A corner radius: only a rectangle has corners.
    Corners,
    /// A fill: a line is its stroke, and an image its picture.
    Fill,
    /// An opacity of what is inside the frame.
    Opacity,
    /// An angle: a line's direction is its two ends.
    Angle,
}

impl Row {
    pub open spec fn applies_spec(self, kind: NodeKind) -> bool {
        match self {
            Row::Corners => kind == NodeKind::Rect,
            Row::Fill => kind == NodeKind::Rect || kind == NodeKind::Oval,
            Row::Opacity => kind == NodeKind::Rect || kind == NodeKind::Oval || kind
                == NodeKind::Image,
            Row::Angle => kind != NodeKind::Line,
        }
    }

    #[verifier::when_used_as_spec(applies_spec)]
    pub fn applies(self, kind: NodeKind) -> (r: bool)
        ensures
            r == self.applies_spec(kind),
    {
        match self {
            Row::Corners => kind == NodeKind::Rect,
            Row::Fill => kind == NodeKind::Rect || kind == NodeKind::Oval,
            Row::Opacity => kind == NodeKind::Rect || kind == NodeKind::Oval || kind
                == NodeKind::Image,
            Row::Angle => kind != NodeKind::Line,
        }
    }
}

/// Whether a row applies to every one of some nodes, and there is one at least.
pub open spec fn offered<S: Scalar>(rows: Seq<NodeModel<S>>, ids: Seq<u64>, row: Row) -> bool {
    ids.len() > 0 && forall|i: int|
        0 <= i < ids.len() ==> row.applies(peek(rows, #[trigger] ids[i]).kind)
}

impl<S: Scalar> Scene<S> {
    /// Whether a row applies to every one of some nodes, and there is one at least.
    pub fn every_target(&self, ids: &[u64], row: Row) -> (r: bool)
        requires
            self.wf(),
        ensures
            r == offered(self@.rows, ids@, row),
    {
        let mut i: usize = 0;
        while i < ids.len()
            invariant
                self.wf(),
                i <= ids.len(),
                forall|j: int|
                    0 <= j < i ==> row.applies(peek(self@.rows, #[trigger] ids@[j]).kind),
            decreases ids.len() - i,
        {
            if !row.applies(self.kind(ids[i])) {
                assert(!row.applies(peek(self@.rows, ids@[i as int]).kind));
                return false;
            }
            i += 1;
        }
        ids.len() > 0
    }
}

impl<S: Scalar> Editor<S> {
    /// Whether every shape of the selection is a rectangle.
    pub fn selection_is_rects(&self) -> (r: bool)
        requires
            self.wf(),
        ensures
            r == offered(
                self@.rows,
                shapes_of_each(self@.rows, self@.selection),
                Row::Corners,
            ),
    {
        let ids = self.scene.shapes_under(self.selection.as_slice());
        self.scene.every_target(ids.as_slice(), Row::Corners)
    }

    /// Whether every shape of the selection has a fill.
    pub fn selection_has_fill(&self) -> (r: bool)
        requires
            self.wf(),
        ensures
            r == offered(self@.rows, shapes_of_each(self@.rows, self@.selection), Row::Fill),
    {
        let ids = self.scene.shapes_under(self.selection.as_slice());
        self.scene.every_target(ids.as_slice(), Row::Fill)
    }

    /// Whether every shape of the selection has an opacity of its own.
    pub fn selection_has_opacity(&self) -> (r: bool)
        requires
            self.wf(),
        ensures
            r == offered(self@.rows, shapes_of_each(self@.rows, self@.selection), Row::Opacity),
    {
        let ids = self.scene.shapes_under(self.selection.as_slice());
        self.scene.every_target(ids.as_slice(), Row::Opacity)
    }

    /// Whether every selected node can be turned; a group answers for itself.
    pub fn selection_can_rotate(&self) -> (r: bool)
        requires
            self.wf(),
        ensures
            r == offered(self@.rows, self@.selection, Row::Angle),
    {
        self.scene.every_target(self.selection.as_slice(), Row::Angle)
    }
}

// ---------------------------------------------------------------------------
// Readouts
// ---------------------------------------------------------------------------

/// The tabs of the inspector.
#[derive(Clone, Copy, Debug, PartialEq, Eq, Structural)]
pub enum Tab {
    Canvas,
    Selected,
}

/// The tab that speaks of the selection as it is.
pub fn retarget(selected: bool) -> (r: Tab)
    ensures
        r == if selected {
            Tab::Selected
        } else {
            Tab::Canvas
        },
{
    if selected {
        Tab::Selected
    } else {
        Tab::Canvas
    }
}

/// A layer row's glyph.
pub open spec fn glyph_spec(kind: NodeKind) -> Seq<char> {
    match kind {
        NodeKind::Rect => "□"@,
        NodeKind::Oval => "○"@,
        NodeKind::Line => "∕"@,
        NodeKind::Group => "⊞"@,
        NodeKind::Image => "▣"@,
    }
}

pub fn kind_glyph(kind: NodeKind) -> (r: &'static str)
    ensures
        r@ == glyph_spec(kind),
{
    match kind {
        NodeKind::Rect => "□",
        NodeKind::Oval => "○",
        NodeKind::Line => "∕",
        NodeKind::Group => "⊞",
        NodeKind::Image => "▣",
    }
}

/// A number as its nearest whole one.
pub open spec fn whole_text<S: Scalar>(v: S) -> Seq<char> {
    int_text_spec(v.rounded().to_int() as int)
}

/// The frame of a sole selected node, in whole numbers; nothing for any other selection.
pub open spec fn frame_text<S: Scalar>(m: EditorModel<S>) -> Seq<char> {
    if m.selection.len() != 1 {
        Seq::empty()
    } else {
        match node_bounds(m.rows, m.selection[0]) {
            Some(b) => whole_text(b.0) + ","@ + whole_text(b.1) + " "@ + whole_text(b.2) + "x"@
                + whole_text(b.3),
            None => Seq::empty(),
        }
    }
}

impl<S: Scalar> Editor<S> {
    /// The status line's readout of the selected frame.
    pub fn frame_text(&self) -> (r: String)
        requires
            self.wf(),
        ensures
            r@ == frame_text(self@),
    {
        let mut out = String::new();
        if self.selection.len() == 1 {
            if let Some(b) = self.scene.node_bounds(self.selection[0]) {
                out.append(int_text(b.0.rounded().to_int()).as_str());
                out.append(",");
                out.append(int_text(b.1.rounded().to_int()).as_str());
                out.append(" ");
                out.append(int_text(b.2.rounded().to_int()).as_str());
                out.append("x");
                out.append(int_text(b.3.rounded().to_int()).as_str());
            }
        }
        assert(out@ =~= frame_text(self@));
        out
    }
}

impl<S: Scalar> Viewport<S> {
    /// The zoom in whole percent.
    pub open spec fn zoom_percent_spec(&self) -> i64 {
        self.zoom.times(S::of_int(100)).rounded().to_int()
    }

    #[verifier::when_used_as_spec(zoom_percent_spec)]
    pub fn zoom_percent(&self) -> (r: i64)
        ensures
            r == self.zoom_percent_spec(),
    {
        self.zoom.times(S::of_int(100)).rounded().to_int()
    }
}

} // verus!
