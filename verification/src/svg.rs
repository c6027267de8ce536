//! Reading SVG: a deliberately small reader of attributes in tags.
//!
//! It knows `rect`, `ellipse`, `circle`, `line`, `image` and nested `g`, and skips everything
//! else. That is enough for the documents this editor writes and for simple fragments from
//! other editors.
use vstd::prelude::*;
use crate::base64;
use crate::node::NodeKind;
use crate::scalar::{clamped, Scalar};
use crate::text::{
    ascii_blank, cut, lowered, lowered_spec, spells, string_of, trim, trim_spec, upper, without_px,
    without_px_spec,
};

verus! {

/// A shape read out of SVG. Style attributes are optional: a fragment without them pastes
/// with the document's defaults.
pub struct SvgShape<S> {
    pub kind: NodeKind,
    pub x: S,
    pub y: S,
    pub w: S,
    pub h: S,
    pub fill: Option<String>,
    pub fill_opacity: Option<S>,
    pub stroke: Option<String>,
    pub stroke_width: Option<S>,
    pub stroke_opacity: Option<S>,
    pub rotation: Option<S>,
    pub corner_radius: Option<S>,
    pub image_bytes: Vec<u8>,
}

/// A shape, or a group with its members, bottom to top.
pub enum SvgNode<S> {
    Shape(SvgShape<S>),
    Group(Vec<SvgNode<S>>),
}

/// What an [`SvgShape`] holds, as values.
pub ghost struct ShapeModel<S> {
    pub kind: NodeKind,
    pub x: S,
    pub y: S,
    pub w: S,
    pub h: S,
    pub fill: Option<Seq<char>>,
    pub fill_opacity: Option<S>,
    pub stroke: Option<Seq<char>>,
    pub stroke_width: Option<S>,
    pub stroke_opacity: Option<S>,
    pub rotation: Option<S>,
    pub corner_radius: Option<S>,
    pub image_bytes: Seq<u8>,
}

/// What an [`SvgNode`] holds, as values.
pub ghost enum TreeModel<S> {
    Shape(ShapeModel<S>),
    Group(Seq<TreeModel<S>>),
}

pub open spec fn text_of(s: Option<String>) -> Option<Seq<char>> {
    match s {
        Some(t) => Some(t@),
        None => None,
    }
}

impl<S> View for SvgShape<S> {
    type V = ShapeModel<S>;

    open spec fn view(&self) -> ShapeModel<S> {
        ShapeModel {
            kind: self.kind,
            x: self.x,
            y: self.y,
            w: self.w,
            h: self.h,
            fill: text_of(self.fill),
            fill_opacity: self.fill_opacity,
            stroke: text_of(self.stroke),
            stroke_width: self.stroke_width,
            stroke_opacity: self.stroke_opacity,
            rotation: self.rotation,
            corner_radius: self.corner_radius,
            image_bytes: self.image_bytes@,
        }
    }
}

/// A node as a tree of values.
pub open spec fn tree_of<S>(n: SvgNode<S>) -> TreeModel<S>
    decreases n,
{
    match n {
        SvgNode::Shape(s) => TreeModel::Shape(s@),
        SvgNode::Group(members) => TreeModel::Group(
            Seq::new(
                members@.len(),
                |i: int|
                    if 0 <= i < members@.len() {
                        tree_of(members@[i])
                    } else {
                        arbitrary()
                    },
            ),
        ),
    }
}

/// Nodes as trees of values.
pub open spec fn forest_of<S>(nodes: Seq<SvgNode<S>>) -> Seq<TreeModel<S>> {
    Seq::new(nodes.len(), |i: int| tree_of(nodes[i]))
}

/// A group's tree holds its members' trees.
pub proof fn group_tree<S>(members: Vec<SvgNode<S>>)
    ensures
        tree_of(SvgNode::Group(members)) == TreeModel::Group(forest_of(members@)),
{
    assert(tree_of(SvgNode::Group(members))->Group_0 =~= forest_of(members@));
}

// ---------------------------------------------------------------------------
// Scanning
// ---------------------------------------------------------------------------

/// What a scan runs over.
#[derive(Clone, Copy)]
pub enum Class {
    NotLetter,
    NameChar,
    Blank,
    TagName,
    Separator,
    NotSeparator,
    Not(char),
}

pub open spec fn letter(c: char) -> bool {
    'a' <= c <= 'z' || 'A' <= c <= 'Z'
}

pub open spec fn name_char(c: char) -> bool {
    letter(c) || '0' <= c <= '9' || c == '-'
}

impl Class {
    pub open spec fn has_spec(self, c: char) -> bool {
        match self {
            Class::NotLetter => !letter(c),
            Class::NameChar => name_char(c),
            Class::Blank => ascii_blank(c),
            Class::TagName => !ascii_blank(c) && c != '/',
            Class::Separator => c == ',' || c == ' ',
            Class::NotSeparator => c != ',' && c != ' ',
            Class::Not(d) => c != d,
        }
    }

    #[verifier::when_used_as_spec(has_spec)]
    pub fn has(self, c: char) -> (r: bool)
        ensures
            r == self.has_spec(c),
    {
        let is_letter = ('a' <= c && c <= 'z') || ('A' <= c && c <= 'Z');
        match self {
            Class::NotLetter => !is_letter,
            Class::NameChar => is_letter || ('0' <= c && c <= '9') || c == '-',
            Class::Blank => ascii_blank(c),
            Class::TagName => !ascii_blank(c) && c != '/',
            Class::Separator => c == ',' || c == ' ',
            Class::NotSeparator => c != ',' && c != ' ',
            Class::Not(d) => c != d,
        }
    }
}

/// How many characters at the start of `s` are of the class.
pub open spec fn run(s: Seq<char>, k: Class) -> int
    decreases s.len(),
{
    if s.len() > 0 && k.has(s[0]) {
        1 + run(s.drop_first(), k)
    } else {
        0
    }
}

/// A run ends within the text, is of the class, and ends where the class does.
pub proof fn run_is(s: Seq<char>, k: Class)
    ensures
        0 <= run(s, k) <= s.len(),
        forall|i: int| 0 <= i < run(s, k) ==> k.has(#[trigger] s[i]),
        run(s, k) < s.len() ==> !k.has(s[run(s, k)]),
    decreases s.len(),
{
    if s.len() > 0 && k.has(s[0]) {
        run_is(s.drop_first(), k);
        assert forall|i: int| 0 <= i < run(s, k) implies k.has(#[trigger] s[i]) by {
            if i > 0 {
                assert(s.drop_first()[i - 1] == s[i]);
            }
        }
    }
}

/// A run is what is of the class up to the first character that is not.
pub proof fn run_ends(s: Seq<char>, k: Class, n: int)
    requires
        0 <= n <= s.len(),
        forall|i: int| 0 <= i < n ==> k.has(#[trigger] s[i]),
        n < s.len() ==> !k.has(s[n]),
    ensures
        run(s, k) == n,
    decreases s.len(),
{
    if n > 0 {
        assert forall|i: int| 0 <= i < n - 1 implies k.has(#[trigger] s.drop_first()[i]) by {
            assert(s[i + 1] == s.drop_first()[i]);
        }
        run_ends(s.drop_first(), k, n - 1);
        assert(k.has(s[0]));
    }
}

/// Where a run that starts at `from` ends.
pub fn run_from(chars: &[char], from: usize, k: Class) -> (r: usize)
    requires
        from <= chars.len(),
    ensures
        from <= r <= chars.len(),
        r == from + run(chars@.subrange(from as int, chars.len() as int), k),
{
    let mut i: usize = from;
    while i < chars.len() && k.has(chars[i])
        invariant
            from <= i <= chars.len(),
            forall|j: int| from <= j < i ==> k.has(#[trigger] chars@[j]),
        decreases chars.len() - i,
    {
        i += 1;
    }
    proof {
        let s = chars@.subrange(from as int, chars.len() as int);
        assert forall|j: int| 0 <= j < i - from implies k.has(#[trigger] s[j]) by {
            assert(s[j] == chars@[from + j]);
        }
        run_ends(s, k, i - from);
    }
    i
}

/// `s` from `n` on.
pub open spec fn past(s: Seq<char>, n: int) -> Seq<char> {
    s.subrange(n, s.len() as int)
}

/// Whether `s` starts with `p`.
pub open spec fn begins(s: Seq<char>, p: Seq<char>) -> bool {
    s.len() >= p.len() && s.subrange(0, p.len() as int) == p
}

/// Whether `s` ends with `p`.
pub open spec fn ends(s: Seq<char>, p: Seq<char>) -> bool {
    s.len() >= p.len() && s.subrange(s.len() - p.len(), s.len() as int) == p
}

// ---------------------------------------------------------------------------
// Attributes
// ---------------------------------------------------------------------------

/// The attributes of a tag, in order. A name without a quoted value is passed over.
pub open spec fn attrs(s: Seq<char>) -> Seq<(Seq<char>, Seq<char>)>
    decreases s.len(),
{
    let start = run(s, Class::NotLetter);
    let name_end = start + run(past(s, start), Class::NameChar);
    if name_end == start {
        Seq::empty()
    } else {
        proof {
            run_is(s, Class::NotLetter);
            run_is(past(s, start), Class::NameChar);
            run_is(past(s, name_end), Class::Blank);
        }
        let eq = name_end + run(past(s, name_end), Class::Blank);
        if eq >= s.len() || s[eq] != '=' {
            attrs(past(s, eq))
        } else {
            proof {
                run_is(past(s, eq + 1), Class::Blank);
            }
            let quote = eq + 1 + run(past(s, eq + 1), Class::Blank);
            if quote >= s.len() || (s[quote] != '"' && s[quote] != '\'') {
                attrs(past(s, quote))
            } else {
                proof {
                    run_is(past(s, quote + 1), Class::Not(s[quote]));
                }
                let close = quote + 1 + run(past(s, quote + 1), Class::Not(s[quote]));
                let next = if close < s.len() {
                    close + 1
                } else {
                    close
                };
                seq![(lowered_spec(s.subrange(start, name_end)), s.subrange(quote + 1, close))]
                    + attrs(past(s, next))
            }
        }
    }
}

/// The value of the first attribute of that name.
pub open spec fn attr(a: Seq<(Seq<char>, Seq<char>)>, name: Seq<char>) -> Option<Seq<char>>
    decreases a.len(),
{
    if a.len() == 0 {
        None
    } else if a[0].0 == name {
        Some(a[0].1)
    } else {
        attr(a.drop_first(), name)
    }
}

/// A numeric attribute, with or without the unit `px`.
pub open spec fn num<S: Scalar>(a: Seq<(Seq<char>, Seq<char>)>, name: Seq<char>) -> Option<S> {
    match attr(a, name) {
        None => None,
        Some(v) => S::of_text_spec(without_px_spec(trim_spec(v))),
    }
}

/// A numeric attribute, nought where it is missing.
pub open spec fn num_or_zero<S: Scalar>(a: Seq<(Seq<char>, Seq<char>)>, name: Seq<char>) -> S {
    match num::<S>(a, name) {
        Some(v) => v,
        None => S::of_int(0),
    }
}

pub open spec fn hex_digit(c: char) -> bool {
    '0' <= c <= '9' || 'a' <= c <= 'f' || 'A' <= c <= 'F'
}

/// A colour `#rgb` or `#rrggbb` as `#RRGGBB`; `None` for any other text.
pub open spec fn hex_color(v: Seq<char>) -> Option<Seq<char>> {
    if v.len() > 0 && v[0] == '#' && forall|i: int| 1 <= i < v.len() ==> hex_digit(#[trigger] v[i]) {
        if v.len() == 7 {
            Some(Seq::new(7, |i: int| upper(v[i])))
        } else if v.len() == 4 {
            Some(Seq::new(7, |i: int| upper(v[(i + 1) / 2])))
        } else {
            None
        }
    } else {
        None
    }
}

pub open spec fn color_attr(a: Seq<(Seq<char>, Seq<char>)>, name: Seq<char>) -> Option<Seq<char>> {
    match attr(a, name) {
        None => None,
        Some(v) => hex_color(trim_spec(v)),
    }
}

/// The text between `rotate(` and the next `)`.
pub open spec fn rotate_argument(t: Seq<char>) -> Seq<char> {
    let inner = past(t, 7);
    inner.subrange(0, run(inner, Class::Not(')')))
}

/// The first item of a list whose items commas or spaces part.
pub open spec fn first_item(s: Seq<char>) -> Seq<char> {
    let rest = past(s, run(s, Class::Separator));
    rest.subrange(0, run(rest, Class::NotSeparator))
}

/// The angle of a `transform="rotate(a ..)"`, from nought to a full turn. Any other transform
/// is passed over: a shape then pastes upright rather than wrong.
pub open spec fn rotation_attr<S: Scalar>(a: Seq<(Seq<char>, Seq<char>)>) -> Option<S> {
    match attr(a, "transform"@) {
        None => None,
        Some(v) => {
            let t = trim_spec(v);
            if !begins(t, "rotate("@) {
                None
            } else {
                let item = first_item(rotate_argument(t));
                if item.len() == 0 {
                    None
                } else {
                    match S::of_text_spec(item) {
                        None => None,
                        Some(deg) => Some(deg.wrapped(S::of_int(360))),
                    }
                }
            }
        },
    }
}

pub open spec fn unit_clamped<S: Scalar>(v: Option<S>) -> Option<S> {
    match v {
        Some(v) => Some(clamped(v, S::of_int(0), S::of_int(1))),
        None => None,
    }
}

pub open spec fn floored<S: Scalar>(v: Option<S>) -> Option<S> {
    match v {
        Some(v) => Some(v.greater(S::of_int(0))),
        None => None,
    }
}

/// The picture of a `data:` address in base 64.
pub open spec fn picture(v: Seq<char>) -> Option<Seq<u8>> {
    let comma = run(v, Class::Not(','));
    if begins(v, "data:"@) && comma < v.len() && ends(v.subrange(0, comma), ";base64"@) {
        base64::decoded(past(v, comma + 1))
    } else {
        None
    }
}

/// A bare shape, with the style attributes that any shape's tag may carry.
pub open spec fn styled<S: Scalar>(
    kind: NodeKind,
    frame: (S, S, S, S),
    a: Seq<(Seq<char>, Seq<char>)>,
) -> ShapeModel<S> {
    ShapeModel {
        kind,
        x: frame.0,
        y: frame.1,
        w: frame.2,
        h: frame.3,
        fill: color_attr(a, "fill"@),
        fill_opacity: unit_clamped(num::<S>(a, "fill-opacity"@)),
        stroke: color_attr(a, "stroke"@),
        stroke_width: floored(num::<S>(a, "stroke-width"@)),
        stroke_opacity: unit_clamped(num::<S>(a, "stroke-opacity"@)),
        rotation: rotation_attr::<S>(a),
        corner_radius: None,
        image_bytes: Seq::empty(),
    }
}

/// The shape that a tag of this name stands for.
pub open spec fn shape_of_tag<S: Scalar>(
    name: Seq<char>,
    a: Seq<(Seq<char>, Seq<char>)>,
) -> Option<ShapeModel<S>> {
    if name == "rect"@ {
        let frame = (
            num_or_zero::<S>(a, "x"@),
            num_or_zero::<S>(a, "y"@),
            num_or_zero::<S>(a, "width"@),
            num_or_zero::<S>(a, "height"@),
        );
        // One radius here, where the format has two: the horizontal one wins.
        let radius = match num::<S>(a, "rx"@) {
            Some(v) => Some(v),
            None => num::<S>(a, "ry"@),
        };
        Some(ShapeModel { corner_radius: floored(radius), ..styled(NodeKind::Rect, frame, a) })
    } else if name == "line"@ {
        let x1 = num_or_zero::<S>(a, "x1"@);
        let y1 = num_or_zero::<S>(a, "y1"@);
        let frame = (
            x1,
            y1,
            num_or_zero::<S>(a, "x2"@).minus(x1),
            num_or_zero::<S>(a, "y2"@).minus(y1),
        );
        Some(ShapeModel { fill: None, rotation: None, ..styled(NodeKind::Line, frame, a) })
    } else if name == "ellipse"@ {
        let rx = num_or_zero::<S>(a, "rx"@);
        let ry = num_or_zero::<S>(a, "ry"@);
        let frame = (
            num_or_zero::<S>(a, "cx"@).minus(rx),
            num_or_zero::<S>(a, "cy"@).minus(ry),
            rx.times(S::of_int(2)),
            ry.times(S::of_int(2)),
        );
        Some(styled(NodeKind::Oval, frame, a))
    } else if name == "circle"@ {
        let r = num_or_zero::<S>(a, "r"@);
        let frame = (
            num_or_zero::<S>(a, "cx"@).minus(r),
            num_or_zero::<S>(a, "cy"@).minus(r),
            r.times(S::of_int(2)),
            r.times(S::of_int(2)),
        );
        Some(styled(NodeKind::Oval, frame, a))
    } else if name == "image"@ {
        let frame = (
            num_or_zero::<S>(a, "x"@),
            num_or_zero::<S>(a, "y"@),
            num_or_zero::<S>(a, "width"@),
            num_or_zero::<S>(a, "height"@),
        );
        match attr(a, "href"@) {
            None => None,
            Some(v) => match picture(trim_spec(v)) {
                None => None,
                Some(bytes) => Some(
                    ShapeModel {
                        fill_opacity: unit_clamped(num::<S>(a, "opacity"@)),
                        image_bytes: bytes,
                        ..styled(NodeKind::Image, frame, a)
                    },
                ),
            },
        }
    } else {
        None
    }
}

/// Whether a shape has geometry worth keeping. A line may be flat, but needs some length.
pub open spec fn worth_keeping<S: Scalar>(s: ShapeModel<S>) -> bool {
    if s.kind == NodeKind::Line {
        !s.w.equals(S::of_int(0)) || !s.h.equals(S::of_int(0))
    } else {
        S::of_int(0).below(s.w) && S::of_int(0).below(s.h)
    }
}

// ---------------------------------------------------------------------------
// Documents
// ---------------------------------------------------------------------------

/// The tags of a text: what stands between a `<` and the next `>`.
pub open spec fn tags(s: Seq<char>) -> Seq<Seq<char>>
    decreases s.len(),
{
    proof {
        run_is(s, Class::Not('<'));
    }
    let open = run(s, Class::Not('<'));
    if open >= s.len() {
        Seq::empty()
    } else {
        let after = past(s, open + 1);
        proof {
            run_is(after, Class::Not('>'));
        }
        let close = run(after, Class::Not('>'));
        if close >= after.len() {
            Seq::empty()
        } else {
            seq![after.subrange(0, close)] + tags(past(after, close + 1))
        }
    }
}

/// What was read so far: the finished top level, and the members so far of each open group,
/// the innermost last.
pub ghost struct Reading<S> {
    pub roots: Seq<TreeModel<S>>,
    pub open: Seq<Seq<TreeModel<S>>>,
}

/// A reading with one node more, in the innermost open group.
pub open spec fn received<S>(r: Reading<S>, n: TreeModel<S>) -> Reading<S> {
    if r.open.len() > 0 {
        Reading { open: r.open.drop_last().push(r.open.last().push(n)), ..r }
    } else {
        Reading { roots: r.roots.push(n), ..r }
    }
}

/// A reading after one tag more.
pub open spec fn after_tag<S: Scalar>(r: Reading<S>, tag: Seq<char>) -> Reading<S> {
    if tag.len() > 0 && (tag[0] == '!' || tag[0] == '?') {
        r
    } else if tag.len() > 0 && tag[0] == '/' {
        if lowered_spec(trim_spec(past(tag, 1))) == "g"@ && r.open.len() > 0 {
            received(
                Reading { open: r.open.drop_last(), ..r },
                TreeModel::Group(r.open.last()),
            )
        } else {
            r
        }
    } else {
        let name_end = run(tag, Class::TagName);
        let name = lowered_spec(tag.subrange(0, name_end));
        let closed = tag.len() > 0 && tag.last() == '/';
        if name == "g"@ && !closed {
            Reading { open: r.open.push(Seq::empty()), ..r }
        } else {
            match shape_of_tag::<S>(name, attrs(past(tag, name_end))) {
                Some(s) => if worth_keeping(s) {
                    received(r, TreeModel::Shape(s))
                } else {
                    r
                },
                None => r,
            }
        }
    }
}

/// A reading after each of some tags, in turn.
pub open spec fn after_tags<S: Scalar>(r: Reading<S>, ts: Seq<Seq<char>>) -> Reading<S>
    decreases ts.len(),
{
    if ts.len() == 0 {
        r
    } else {
        after_tags(after_tag(r, ts[0]), ts.drop_first())
    }
}

/// What a reading comes to where the text ends: groups left open give their members to the
/// top level, the innermost group's first.
pub open spec fn finished<S>(r: Reading<S>) -> Seq<TreeModel<S>>
    decreases r.open.len(),
{
    if r.open.len() == 0 {
        r.roots
    } else {
        finished(Reading { roots: r.roots + r.open.last(), open: r.open.drop_last() })
    }
}

/// The shapes and groups of an SVG text, bottom to top.
pub open spec fn parsed<S: Scalar>(text: Seq<char>) -> Seq<TreeModel<S>> {
    finished(after_tags(Reading { roots: Seq::empty(), open: Seq::empty() }, tags(text)))
}

// ---------------------------------------------------------------------------
// The reader
// ---------------------------------------------------------------------------

pub open spec fn pairs_of(a: Seq<(Vec<char>, Vec<char>)>) -> Seq<(Seq<char>, Seq<char>)> {
    Seq::new(a.len(), |i: int| (a[i].0@, a[i].1@))
}

/// The attributes of a tag, in order.
pub fn read_attrs(tag: &[char]) -> (r: Vec<(Vec<char>, Vec<char>)>)
    ensures
        pairs_of(r@) == attrs(tag@),
{
    let mut out: Vec<(Vec<char>, Vec<char>)> = Vec::new();
    let mut i: usize = 0;
    let ghost n = tag.len() as int;
    assert(past(tag@, 0) =~= tag@);
    assert(pairs_of(out@) + attrs(tag@) =~= attrs(tag@));
    loop
        invariant
            n == tag.len(),
            i <= tag.len(),
            pairs_of(out@) + attrs(past(tag@, i as int)) == attrs(tag@),
        decreases tag.len() - i,
    {
        let ghost rest = past(tag@, i as int);
        let start = run_from(tag, i, Class::NotLetter);
        assert(past(rest, start - i) =~= past(tag@, start as int));
        let name_end = run_from(tag, start, Class::NameChar);
        assert(past(rest, name_end - i) =~= past(tag@, name_end as int));
        if name_end == start {
            assert(pairs_of(out@) + Seq::<(Seq<char>, Seq<char>)>::empty() =~= pairs_of(out@));
            return out;
        }
        let raw = cut(tag, start, name_end);
        assert(raw@ =~= rest.subrange(start - i, name_end - i));
        let name = lowered(raw.as_slice());
        let eq = run_from(tag, name_end, Class::Blank);
        assert(past(rest, eq - i) =~= past(tag@, eq as int));
        if eq >= tag.len() || tag[eq] != '=' {
            i = eq;
            continue ;
        }
        assert(past(rest, eq + 1 - i) =~= past(tag@, eq + 1));
        let quote = run_from(tag, eq + 1, Class::Blank);
        assert(past(rest, quote - i) =~= past(tag@, quote as int));
        if quote >= tag.len() || (tag[quote] != '"' && tag[quote] != '\'') {
            i = quote;
            continue ;
        }
        assert(past(rest, quote + 1 - i) =~= past(tag@, quote + 1));
        let close = run_from(tag, quote + 1, Class::Not(tag[quote]));
        let value = cut(tag, quote + 1, close);
        assert(value@ =~= rest.subrange(quote + 1 - i, close - i));
        let next: usize = if close < tag.len() {
            close + 1
        } else {
            close
        };
        assert(past(rest, next - i) =~= past(tag@, next as int));
        let ghost sofar = out@;
        out.push((name, value));
        assert(pairs_of(out@) =~= pairs_of(sofar) + seq![(name@, value@)]);
        assert(pairs_of(out@) + attrs(past(tag@, next as int)) =~= pairs_of(sofar) + (seq![
            (name@, value@),
        ] + attrs(past(tag@, next as int))));
        i = next;
    }
}

/// Where the first attribute of that name stands.
fn find_attr(a: &Vec<(Vec<char>, Vec<char>)>, name: &str) -> (r: Option<usize>)
    ensures
        match r {
            Some(i) => i < a.len() && attr(pairs_of(a@), name@) == Some(a@[i as int].1@),
            None => attr(pairs_of(a@), name@) is None,
        },
{
    let mut i: usize = 0;
    let ghost all = pairs_of(a@);
    assert(all.subrange(0, all.len() as int) =~= all);
    while i < a.len()
        invariant
            i <= a.len(),
            all == pairs_of(a@),
            attr(all.subrange(i as int, all.len() as int), name@) == attr(all, name@),
        decreases a.len() - i,
    {
        let ghost rest = all.subrange(i as int, all.len() as int);
        assert(rest[0] == (a@[i as int].0@, a@[i as int].1@));
        assert(rest.drop_first() =~= all.subrange(i + 1, all.len() as int));
        if spells(a[i].0.as_slice(), name) {
            return Some(i);
        }
        i += 1;
    }
    None
}

/// A numeric attribute, with or without the unit `px`.
fn read_num<S: Scalar>(a: &Vec<(Vec<char>, Vec<char>)>, name: &str) -> (r: Option<S>)
    ensures
        r == num::<S>(pairs_of(a@), name@),
{
    match find_attr(a, name) {
        None => None,
        Some(i) => {
            let t = trim(a[i].1.as_slice());
            let t = without_px(t.as_slice());
            let t = string_of(t.as_slice());
            S::of_text(t.as_str())
        },
    }
}

/// A numeric attribute, nought where it is missing.
fn read_num_or_zero<S: Scalar>(a: &Vec<(Vec<char>, Vec<char>)>, name: &str) -> (r: S)
    ensures
        r == num_or_zero::<S>(pairs_of(a@), name@),
{
    match read_num::<S>(a, name) {
        Some(v) => v,
        None => S::of_int(0),
    }
}

/// A colour `#rgb` or `#rrggbb` as `#RRGGBB`.
pub fn read_hex_color(v: &[char]) -> (r: Option<String>)
    ensures
        text_of(r) == hex_color(v@),
{
    if v.len() == 0 || v[0] != '#' {
        return None;
    }
    let mut i: usize = 1;
    while i < v.len()
        invariant
            1 <= i <= v.len(),
            forall|j: int| 1 <= j < i ==> hex_digit(#[trigger] v@[j]),
        decreases v.len() - i,
    {
        let c = v[i];
        if !(('0' <= c && c <= '9') || ('a' <= c && c <= 'f') || ('A' <= c && c <= 'F')) {
            assert(!hex_digit(v@[i as int]));
            return None;
        }
        i += 1;
    }
    if v.len() != 7 && v.len() != 4 {
        return None;
    }
    let mut out = String::new();
    let mut k: usize = 0;
    let ghost whole = hex_color(v@)->0;
    assert(whole.subrange(0, 0) =~= Seq::<char>::empty());
    while k < 7
        invariant
            k <= 7,
            v.len() == 7 || v.len() == 4,
            hex_color(v@) == Some(whole),
            whole.len() == 7,
            out@ == whole.subrange(0, k as int),
        decreases 7 - k,
    {
        let at: usize = if v.len() == 7 {
            k
        } else {
            (k + 1) / 2
        };
        out.push(upper(v[at]));
        k += 1;
        assert(whole.subrange(0, k as int) =~= whole.subrange(0, k - 1).push(whole[k - 1]));
    }
    assert(whole.subrange(0, 7) =~= whole);
    Some(out)
}

fn read_color<S: Scalar>(a: &Vec<(Vec<char>, Vec<char>)>, name: &str) -> (r: Option<String>)
    ensures
        text_of(r) == color_attr(pairs_of(a@), name@),
{
    match find_attr(a, name) {
        None => None,
        Some(i) => {
            let t = trim(a[i].1.as_slice());
            read_hex_color(t.as_slice())
        },
    }
}

/// Whether `chars` starts with `word`.
fn starts_with(chars: &[char], word: &str, n: usize) -> (r: bool)
    requires
        word@.len() == n,
    ensures
        r == begins(chars@, word@),
{
    if chars.len() < n {
        return false;
    }
    let head = cut(chars, 0, n);
    spells(head.as_slice(), word)
}

/// The angle of a `transform="rotate(a ..)"`.
fn read_rotation<S: Scalar>(a: &Vec<(Vec<char>, Vec<char>)>) -> (r: Option<S>)
    ensures
        r == rotation_attr::<S>(pairs_of(a@)),
{
    proof {
        reveal_strlit("rotate(");
    }
    match find_attr(a, "transform") {
        None => None,
        Some(i) => {
            let t = trim(a[i].1.as_slice());
            if !starts_with(t.as_slice(), "rotate(", 7) {
                return None;
            }
            let close = run_from(t.as_slice(), 7, Class::Not(')'));
            let inner = cut(t.as_slice(), 7, close);
            assert(past(t@, 7).subrange(0, close - 7) =~= inner@);
            let lo = run_from(inner.as_slice(), 0, Class::Separator);
            assert(past(inner@, 0) =~= inner@);
            let hi = run_from(inner.as_slice(), lo, Class::NotSeparator);
            assert(past(inner@, lo as int).subrange(0, hi - lo) =~= inner@.subrange(
                lo as int,
                hi as int,
            ));
            if lo == hi {
                return None;
            }
            let item = cut(inner.as_slice(), lo, hi);
            let item = string_of(item.as_slice());
            match S::of_text(item.as_str()) {
                None => None,
                Some(deg) => Some(deg.wrapped(S::of_int(360))),
            }
        },
    }
}

/// The picture of a `data:` address in base 64.
fn read_picture(v: &[char]) -> (r: Option<Vec<u8>>)
    ensures
        match r {
            Some(bytes) => picture(v@) == Some(bytes@),
            None => picture(v@) is None,
        },
{
    proof {
        reveal_strlit("data:");
        reveal_strlit(";base64");
    }
    let comma = run_from(v, 0, Class::Not(','));
    assert(past(v@, 0) =~= v@);
    if !starts_with(v, "data:", 5) || comma >= v.len() || comma < 7 {
        return None;
    }
    let tail = cut(v, comma - 7, comma);
    assert(tail@ =~= v@.subrange(0, comma as int).subrange(comma - 7, comma as int));
    if !spells(tail.as_slice(), ";base64") {
        return None;
    }
    let data = cut(v, comma + 1, v.len());
    assert(data@ =~= past(v@, comma + 1));
    base64::decode(data.as_slice())
}

fn unit_clamp<S: Scalar>(v: Option<S>) -> (r: Option<S>)
    ensures
        r == unit_clamped(v),
{
    match v {
        Some(v) => Some(clamped(v, S::of_int(0), S::of_int(1))),
        None => None,
    }
}

fn floor<S: Scalar>(v: Option<S>) -> (r: Option<S>)
    ensures
        r == floored(v),
{
    match v {
        Some(v) => Some(v.greater(S::of_int(0))),
        None => None,
    }
}

/// A bare shape, with the style attributes that any shape's tag may carry.
fn read_styled<S: Scalar>(
    kind: NodeKind,
    frame: (S, S, S, S),
    a: &Vec<(Vec<char>, Vec<char>)>,
) -> (r: SvgShape<S>)
    ensures
        r@ == styled(kind, frame, pairs_of(a@)),
{
    SvgShape {
        kind,
        x: frame.0,
        y: frame.1,
        w: frame.2,
        h: frame.3,
        fill: read_color::<S>(a, "fill"),
        fill_opacity: unit_clamp(read_num::<S>(a, "fill-opacity")),
        stroke: read_color::<S>(a, "stroke"),
        stroke_width: floor(read_num::<S>(a, "stroke-width")),
        stroke_opacity: unit_clamp(read_num::<S>(a, "stroke-opacity")),
        rotation: read_rotation::<S>(a),
        corner_radius: None,
        image_bytes: Vec::new(),
    }
}

pub open spec fn shape_view<S>(s: Option<SvgShape<S>>) -> Option<ShapeModel<S>> {
    match s {
        Some(s) => Some(s@),
        None => None,
    }
}

/// The shape that a tag of this name stands for.
fn read_shape<S: Scalar>(name: &[char], a: &Vec<(Vec<char>, Vec<char>)>) -> (r: Option<SvgShape<S>>)
    ensures
        shape_view(r) == shape_of_tag::<S>(name@, pairs_of(a@)),
{
    if spells(name, "rect") {
        let x = read_num_or_zero::<S>(a, "x");
        let y = read_num_or_zero::<S>(a, "y");
        let w = read_num_or_zero::<S>(a, "width");
        let h = read_num_or_zero::<S>(a, "height");
        let radius = match read_num::<S>(a, "rx") {
            Some(v) => Some(v),
            None => read_num::<S>(a, "ry"),
        };
        let mut s = read_styled(NodeKind::Rect, (x, y, w, h), a);
        s.corner_radius = floor(radius);
        Some(s)
    } else if spells(name, "line") {
        let x1 = read_num_or_zero::<S>(a, "x1");
        let y1 = read_num_or_zero::<S>(a, "y1");
        let x2 = read_num_or_zero::<S>(a, "x2");
        let y2 = read_num_or_zero::<S>(a, "y2");
        let mut s = read_styled(NodeKind::Line, (x1, y1, x2.minus(x1), y2.minus(y1)), a);
        s.fill = None;
        s.rotation = None;
        Some(s)
    } else if spells(name, "ellipse") {
        let cx = read_num_or_zero::<S>(a, "cx");
        let cy = read_num_or_zero::<S>(a, "cy");
        let rx = read_num_or_zero::<S>(a, "rx");
        let ry = read_num_or_zero::<S>(a, "ry");
        let frame = (cx.minus(rx), cy.minus(ry), rx.times(S::of_int(2)), ry.times(S::of_int(2)));
        Some(read_styled(NodeKind::Oval, frame, a))
    } else if spells(name, "circle") {
        let cx = read_num_or_zero::<S>(a, "cx");
        let cy = read_num_or_zero::<S>(a, "cy");
        let r = read_num_or_zero::<S>(a, "r");
        let frame = (cx.minus(r), cy.minus(r), r.times(S::of_int(2)), r.times(S::of_int(2)));
        Some(read_styled(NodeKind::Oval, frame, a))
    } else if spells(name, "image") {
        let x = read_num_or_zero::<S>(a, "x");
        let y = read_num_or_zero::<S>(a, "y");
        let w = read_num_or_zero::<S>(a, "width");
        let h = read_num_or_zero::<S>(a, "height");
        match find_attr(a, "href") {
            None => None,
            Some(i) => {
                let v = trim(a[i].1.as_slice());
                match read_picture(v.as_slice()) {
                    None => None,
                    Some(bytes) => {
                        let mut s = read_styled(NodeKind::Image, (x, y, w, h), a);
                        s.fill_opacity = unit_clamp(read_num::<S>(a, "opacity"));
                        s.image_bytes = bytes;
                        Some(s)
                    },
                }
            },
        }
    } else {
        None
    }
}

pub open spec fn open_view<S>(open: Seq<Vec<SvgNode<S>>>) -> Seq<Seq<TreeModel<S>>> {
    Seq::new(open.len(), |i: int| forest_of(open[i]@))
}

/// Takes in one node, into the innermost open group.
fn receive<S: Scalar>(
    roots: &mut Vec<SvgNode<S>>,
    open: &mut Vec<Vec<SvgNode<S>>>,
    n: SvgNode<S>,
)
    ensures
        (Reading { roots: forest_of(final(roots)@), open: open_view(final(open)@) }) == received(
            Reading { roots: forest_of(old(roots)@), open: open_view(old(open)@) },
            tree_of(n),
        ),
{
    let ghost was_open = open@;
    let ghost was_roots = roots@;
    match open.pop() {
        Some(top) => {
            let mut top = top;
            let ghost members = top@;
            top.push(n);
            assert(forest_of(top@) =~= forest_of(members).push(tree_of(n)));
            open.push(top);
            assert(open_view(open@) =~= open_view(was_open).drop_last().push(
                forest_of(members).push(tree_of(n)),
            ));
        },
        None => {
            roots.push(n);
            assert(forest_of(roots@) =~= forest_of(was_roots).push(tree_of(n)));
            assert(open_view(open@) =~= open_view(was_open));
        },
    }
}

/// Reads one tag more.
fn read_tag<S: Scalar>(
    roots: &mut Vec<SvgNode<S>>,
    open: &mut Vec<Vec<SvgNode<S>>>,
    tag: &[char],
)
    ensures
        (Reading { roots: forest_of(final(roots)@), open: open_view(final(open)@) }) == after_tag(
            Reading { roots: forest_of(old(roots)@), open: open_view(old(open)@) },
            tag@,
        ),
{
    if tag.len() > 0 && (tag[0] == '!' || tag[0] == '?') {
        return ;
    }
    if tag.len() > 0 && tag[0] == '/' {
        let word = cut(tag, 1, tag.len());
        let word = trim(word.as_slice());
        let word = lowered(word.as_slice());
        if spells(word.as_slice(), "g") {
            let ghost was_open = open@;
            match open.pop() {
                Some(members) => {
                    proof {
                        group_tree(members);
                        assert(open_view(open@) =~= open_view(was_open).drop_last());
                    }
                    receive(roots, open, SvgNode::Group(members));
                },
                None => {
                    assert(open_view(open@) =~= open_view(was_open));
                },
            }
        }
        return ;
    }
    let name_end = run_from(tag, 0, Class::TagName);
    assert(past(tag@, 0) =~= tag@);
    let name = cut(tag, 0, name_end);
    let name = lowered(name.as_slice());
    let closed = tag.len() > 0 && tag[tag.len() - 1] == '/';
    if spells(name.as_slice(), "g") && !closed {
        let ghost was_open = open@;
        open.push(Vec::new());
        assert(forest_of(Seq::<SvgNode<S>>::empty()) =~= Seq::<TreeModel<S>>::empty());
        assert(open_view(open@) =~= open_view(was_open).push(Seq::empty()));
        return ;
    }
    let inside = cut(tag, name_end, tag.len());
    let a = read_attrs(inside.as_slice());
    match read_shape::<S>(name.as_slice(), &a) {
        None => {},
        Some(s) => {
            let keep = match s.kind {
                NodeKind::Line => !s.w.equals(S::of_int(0)) || !s.h.equals(S::of_int(0)),
                NodeKind::Rect | NodeKind::Oval | NodeKind::Group | NodeKind::Image => S::of_int(
                    0,
                ).below(s.w) && S::of_int(0).below(s.h),
            };
            if keep {
                receive(roots, open, SvgNode::Shape(s));
            }
        },
    }
}

/// The shapes and groups of an SVG text, bottom to top.
pub fn svg_parse<S: Scalar>(text: &[char]) -> (r: Vec<SvgNode<S>>)
    ensures
        forest_of(r@) == parsed::<S>(text@),
{
    let mut roots: Vec<SvgNode<S>> = Vec::new();
    let mut open: Vec<Vec<SvgNode<S>>> = Vec::new();
    let mut i: usize = 0;
    assert(past(text@, 0) =~= text@);
    assert(forest_of(roots@) =~= Seq::<TreeModel<S>>::empty());
    assert(open_view(open@) =~= Seq::<Seq<TreeModel<S>>>::empty());
    let ghost whole = after_tags(
        Reading::<S> { roots: Seq::empty(), open: Seq::empty() },
        tags(text@),
    );
    let mut more = true;
    while more
        invariant
            i <= text.len(),
            more ==> after_tags(
                Reading { roots: forest_of(roots@), open: open_view(open@) },
                tags(past(text@, i as int)),
            ) == whole,
            !more ==> (Reading { roots: forest_of(roots@), open: open_view(open@) }) == whole,
        decreases text.len() - i + if more {
            1int
        } else {
            0
        },
    {
        let ghost rest = past(text@, i as int);
        let lt = run_from(text, i, Class::Not('<'));
        if lt >= text.len() {
            more = false;
        } else {
            assert(past(rest, lt + 1 - i) =~= past(text@, lt + 1));
            let gt = run_from(text, lt + 1, Class::Not('>'));
            if gt >= text.len() {
                more = false;
            } else {
                let tag = cut(text, lt + 1, gt);
                let ghost after = past(rest, lt + 1 - i);
                assert(tag@ =~= after.subrange(0, gt - lt - 1));
                assert(past(after, gt - lt) =~= past(text@, gt + 1));
                assert(tags(rest) == seq![tag@] + tags(past(text@, gt + 1)));
                assert(tags(rest).drop_first() =~= tags(past(text@, gt + 1)));
                read_tag(&mut roots, &mut open, tag.as_slice());
                i = gt + 1;
            }
        }
    }
    while open.len() > 0
        invariant
            finished(Reading { roots: forest_of(roots@), open: open_view(open@) }) == finished(
                whole,
            ),
        decreases open.len(),
    {
        let ghost was_open = open@;
        let ghost was_roots = roots@;
        match open.pop() {
            Some(members) => {
                let mut members = members;
                let ghost kept = members@;
                roots.append(&mut members);
                assert(forest_of(roots@) =~= forest_of(was_roots) + forest_of(kept));
                assert(open_view(open@) =~= open_view(was_open).drop_last());
                assert(open_view(was_open).last() == forest_of(kept));
            },
            None => {},
        }
    }
    roots
}

} // verus!
