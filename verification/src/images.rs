//! Pictures: what format their bytes are in, where a new one lands, and which are decoded.
use vstd::prelude::*;
use crate::canvas::{put_each, side_field, Put};
use crate::node::{NodeKind, NodeModel};
use crate::scalar::{half, ratio, Scalar};
use crate::scene::{has_row, slot, with_field, written, FieldModel, Scene};
use crate::viewport::Viewport;

verus! {

/// An encoded picture's format.
#[derive(Clone, Copy, Debug, PartialEq, Eq, Structural)]
pub enum ImageFormat {
    Png,
    Jpeg,
    Webp,
    Gif,
    Bmp,
    Tiff,
    Heif,
    Unknown,
}

/// Whether `bytes` holds `tag` at `at`.
pub open spec fn tagged_at(bytes: Seq<u8>, at: int, tag: Seq<u8>) -> bool {
    bytes.len() >= at + tag.len() && bytes.subrange(at, at + tag.len()) == tag
}

/// The format that bytes begin with, by their magic numbers.
pub open spec fn sniffed(bytes: Seq<u8>) -> Option<ImageFormat> {
    if tagged_at(bytes, 0, seq![0x89u8, 0x50, 0x4e, 0x47, 0x0d, 0x0a, 0x1a, 0x0a]) {
        Some(ImageFormat::Png)
    } else if tagged_at(bytes, 0, seq![0xffu8, 0xd8, 0xff]) {
        Some(ImageFormat::Jpeg)
    } else if tagged_at(bytes, 0, seq![0x47u8, 0x49, 0x46, 0x38, 0x37, 0x61]) || tagged_at(
        bytes,
        0,
        seq![0x47u8, 0x49, 0x46, 0x38, 0x39, 0x61],
    ) {
        Some(ImageFormat::Gif)
    } else if tagged_at(bytes, 0, seq![0x42u8, 0x4d]) {
        Some(ImageFormat::Bmp)
    } else if tagged_at(bytes, 0, seq![0x49u8, 0x49, 0x2a, 0x00]) || tagged_at(
        bytes,
        0,
        seq![0x4du8, 0x4d, 0x00, 0x2a],
    ) {
        Some(ImageFormat::Tiff)
    } else if tagged_at(bytes, 0, seq![0x52u8, 0x49, 0x46, 0x46]) && tagged_at(
        bytes,
        8,
        seq![0x57u8, 0x45, 0x42, 0x50],
    ) {
        Some(ImageFormat::Webp)
    } else if tagged_at(bytes, 4, seq![0x66u8, 0x74, 0x79, 0x70]) && (tagged_at(
        bytes,
        8,
        seq![0x68u8, 0x65, 0x69, 0x63],
    ) || tagged_at(bytes, 8, seq![0x68u8, 0x65, 0x69, 0x78]) || tagged_at(
        bytes,
        8,
        seq![0x6du8, 0x69, 0x66, 0x31],
    ) || tagged_at(bytes, 8, seq![0x6du8, 0x73, 0x66, 0x31])) {
        Some(ImageFormat::Heif)
    } else {
        None
    }
}

impl ImageFormat {
    /// The media type of the format.
    pub open spec fn media_type(self) -> Seq<char> {
        match self {
            ImageFormat::Png => "image/png"@,
            ImageFormat::Jpeg => "image/jpeg"@,
            ImageFormat::Webp => "image/webp"@,
            ImageFormat::Gif => "image/gif"@,
            ImageFormat::Bmp => "image/bmp"@,
            ImageFormat::Tiff => "image/tiff"@,
            ImageFormat::Heif => "image/heif"@,
            ImageFormat::Unknown => "application/octet-stream"@,
        }
    }
}

/// `day_spec::ImageFormat::sniff`: the format that the bytes begin with, told by comparing
/// them with the fixed magic numbers of [`sniffed`], in that order.
#[verifier::external_body]
pub(crate) fn sniff(bytes: &[u8]) -> (r: Option<ImageFormat>)
    ensures
        r == sniffed(bytes@),
{
    match day_spec::ImageFormat::sniff(bytes) {
        Some(day_spec::ImageFormat::Png) => Some(ImageFormat::Png),
        Some(day_spec::ImageFormat::Jpeg) => Some(ImageFormat::Jpeg),
        Some(day_spec::ImageFormat::Webp) => Some(ImageFormat::Webp),
        Some(day_spec::ImageFormat::Gif) => Some(ImageFormat::Gif),
        Some(day_spec::ImageFormat::Bmp) => Some(ImageFormat::Bmp),
        Some(day_spec::ImageFormat::Tiff) => Some(ImageFormat::Tiff),
        Some(day_spec::ImageFormat::Heif) => Some(ImageFormat::Heif),
        Some(day_spec::ImageFormat::Unknown) => Some(ImageFormat::Unknown),
        None => None,
    }
}

/// `day_spec::ImageFormat::mime`: the media type of a format, one fixed text for each.
#[verifier::external_body]
pub(crate) fn mime(format: ImageFormat) -> (r: String)
    ensures
        r@ == format.media_type(),
{
    let outside = match format {
        ImageFormat::Png => day_spec::ImageFormat::Png,
        ImageFormat::Jpeg => day_spec::ImageFormat::Jpeg,
        ImageFormat::Webp => day_spec::ImageFormat::Webp,
        ImageFormat::Gif => day_spec::ImageFormat::Gif,
        ImageFormat::Bmp => day_spec::ImageFormat::Bmp,
        ImageFormat::Tiff => day_spec::ImageFormat::Tiff,
        ImageFormat::Heif => day_spec::ImageFormat::Heif,
        ImageFormat::Unknown => day_spec::ImageFormat::Unknown,
    };
    outside.mime().to_owned()
}

/// The media type that a picture's address carries.
pub open spec fn picture_type(bytes: Seq<u8>) -> Seq<char> {
    match sniffed(bytes) {
        Some(f) => f.media_type(),
        None => ImageFormat::Unknown.media_type(),
    }
}

/// The media type of a picture's bytes; the type of plain bytes where they are no known
/// picture.
pub fn type_of_picture(bytes: &[u8]) -> (r: String)
    ensures
        r@ == picture_type(bytes@),
{
    match sniff(bytes) {
        Some(f) => mime(f),
        None => mime(ImageFormat::Unknown),
    }
}

// ---------------------------------------------------------------------------
// Where a new picture lands
// ---------------------------------------------------------------------------

/// The frame of a new picture of the given size: within four fifths of what is seen, its
/// proportions kept, never larger than it is, in the middle of the view.
pub open spec fn initial_frame_spec<S: Scalar>(v: Viewport<S>, size: (S, S)) -> (S, S, S, S) {
    let share = ratio::<S>(8, 10);
    let scale = v.size.0.times(share).over(v.zoom).over(size.0).lesser(
        v.size.1.times(share).over(v.zoom).over(size.1),
    ).lesser(S::of_int(1));
    let w = size.0.times(scale);
    let h = size.1.times(scale);
    (
        half(v.size.0).minus(v.pan.x).over(v.zoom).minus(half(w)),
        half(v.size.1).minus(v.pan.y).over(v.zoom).minus(half(h)),
        w,
        h,
    )
}

pub fn initial_frame<S: Scalar>(v: &Viewport<S>, size: (S, S)) -> (r: (S, S, S, S))
    ensures
        r == initial_frame_spec(*v, size),
{
    let share = ratio::<S>(8, 10);
    let scale = v.size.0.times(share).over(v.zoom).over(size.0).lesser(
        v.size.1.times(share).over(v.zoom).over(size.1),
    ).lesser(S::of_int(1));
    let w = size.0.times(scale);
    let h = size.1.times(scale);
    (
        half(v.size.0).minus(v.pan.x).over(v.zoom).minus(half(w)),
        half(v.size.1).minus(v.pan.y).over(v.zoom).minus(half(h)),
        w,
        h,
    )
}

/// Whether a decoded picture has a size that can be placed: finite, and not empty.
pub open spec fn placeable_spec<S: Scalar>(size: (S, S)) -> bool {
    size.0.finite() && size.1.finite() && S::of_int(0).below(size.0) && S::of_int(0).below(size.1)
}

#[verifier::when_used_as_spec(placeable_spec)]
pub fn placeable<S: Scalar>(size: (S, S)) -> (r: bool)
    ensures
        r == placeable_spec(size),
{
    size.0.finite() && size.1.finite() && S::of_int(0).below(size.0) && S::of_int(0).below(size.1)
}

// ---------------------------------------------------------------------------
// Decoded pictures
// ---------------------------------------------------------------------------

/// A picture of a node: its bytes, and what they decode to once they have been.
pub struct CachedImage<B> {
    pub id: u64,
    pub bytes: Vec<u8>,
    pub bitmap: Option<B>,
}

/// The decoded pictures of a drawing's images, for as long as a canvas lives.
pub struct ImageCache<B> {
    pub entries: Vec<CachedImage<B>>,
}

/// Whether no id occurs twice.
pub open spec fn entries_distinct<B>(entries: Seq<CachedImage<B>>) -> bool {
    forall|i: int, j: int|
        #![trigger entries[i], entries[j]]
        0 <= i < j < entries.len() ==> entries[i].id != entries[j].id
}

/// Where the entry of a node is.
pub open spec fn entry_at<B>(entries: Seq<CachedImage<B>>, id: u64) -> Option<int> {
    if exists|i: int| 0 <= i < entries.len() && (#[trigger] entries[i]).id == id {
        Some(choose|i: int| 0 <= i < entries.len() && (#[trigger] entries[i]).id == id)
    } else {
        None
    }
}

/// What an entry is kept as: a node's bitmap stays for as long as its bytes do.
pub open spec fn carried<B>(entries: Seq<CachedImage<B>>, id: u64, bytes: Seq<u8>) -> Option<B> {
    match entry_at(entries, id) {
        Some(i) => if entries[i].bytes@ == bytes {
            entries[i].bitmap
        } else {
            None
        },
        None => None,
    }
}

/// Whether a node's bytes are in the cache, decoded or on their way.
pub open spec fn known<B>(entries: Seq<CachedImage<B>>, id: u64, bytes: Seq<u8>) -> bool {
    match entry_at(entries, id) {
        Some(i) => entries[i].bytes@ == bytes,
        None => false,
    }
}

/// The images of a drawing: id and bytes, in row order.
pub open spec fn sources_of<S>(rows: Seq<NodeModel<S>>) -> Seq<(u64, Seq<u8>)>
    decreases rows.len(),
{
    if rows.len() == 0 {
        Seq::empty()
    } else {
        let rest = sources_of(rows.drop_last());
        if rows.last().kind == NodeKind::Image {
            rest.push((rows.last().id, rows.last().image_bytes))
        } else {
            rest
        }
    }
}

pub open spec fn source_views(s: Seq<(u64, Vec<u8>)>) -> Seq<(u64, Seq<u8>)> {
    Seq::new(s.len(), |i: int| (s[i].0, s[i].1@))
}

/// Those of the sources that are not in the cache yet, in order.
pub open spec fn missing<B>(entries: Seq<CachedImage<B>>, sources: Seq<(u64, Seq<u8>)>) -> Seq<
    (u64, Seq<u8>),
>
    decreases sources.len(),
{
    if sources.len() == 0 {
        Seq::empty()
    } else {
        let rest = missing(entries, sources.drop_last());
        let (id, bytes) = sources.last();
        if known(entries, id, bytes) {
            rest
        } else {
            rest.push((id, bytes))
        }
    }
}

/// Whether the cache holds exactly the sources, each with what it carried over.
pub open spec fn follows<B>(
    after: Seq<CachedImage<B>>,
    before: Seq<CachedImage<B>>,
    sources: Seq<(u64, Seq<u8>)>,
) -> bool {
    &&& after.len() == sources.len()
    &&& forall|i: int|
        0 <= i < after.len() ==> (#[trigger] after[i]).id == sources[i].0 && after[i].bytes@
            == sources[i].1 && after[i].bitmap == carried(before, sources[i].0, sources[i].1)
}

pub(crate) fn same_bytes(a: &Vec<u8>, b: &Vec<u8>) -> (r: bool)
    ensures
        r == (a@ == b@),
{
    if a.len() != b.len() {
        return false;
    }
    let mut i: usize = 0;
    while i < a.len()
        invariant
            i <= a.len(),
            a.len() == b.len(),
            forall|j: int| 0 <= j < i ==> a@[j] == b@[j],
        decreases a.len() - i,
    {
        if a[i] != b[i] {
            return false;
        }
        i += 1;
    }
    assert(a@ =~= b@);
    true
}

pub(crate) fn copy_bytes(a: &Vec<u8>) -> (r: Vec<u8>)
    ensures
        r@ == a@,
{
    let r = a.clone();
    assert(r@ =~= a@);
    r
}

impl<S: Scalar> Scene<S> {
    /// The images of the drawing: id and bytes, in row order.
    pub fn image_sources(&self) -> (r: Vec<(u64, Vec<u8>)>)
        ensures
            source_views(r@) == sources_of(self@.rows),
    {
        let mut out: Vec<(u64, Vec<u8>)> = Vec::new();
        let mut i: usize = 0;
        assert(self@.rows.subrange(0, 0) =~= Seq::<NodeModel<S>>::empty());
        assert(source_views(out@) =~= Seq::empty());
        while i < self.nodes.len()
            invariant
                i <= self.nodes.len(),
                source_views(out@) == sources_of(self@.rows.subrange(0, i as int)),
            decreases self.nodes.len() - i,
        {
            assert(self@.rows.subrange(0, i + 1).drop_last() =~= self@.rows.subrange(0, i as int));
            if self.nodes[i].kind == NodeKind::Image {
                let ghost before = out@;
                let bytes = copy_bytes(&self.nodes[i].image_bytes);
                let id = self.nodes[i].id;
                out.push((id, bytes));
                assert(source_views(out@) =~= source_views(before).push((id, bytes@)));
            }
            i += 1;
        }
        assert(self@.rows.subrange(0, i as int) =~= self@.rows);
        out
    }
}

impl<B> ImageCache<B> {
    /// A cache without pictures.
    pub fn empty() -> (r: ImageCache<B>)
        ensures
            r.entries@.len() == 0,
            entries_distinct(r.entries@),
    {
        ImageCache { entries: Vec::new() }
    }

    fn find(&self, id: u64) -> (r: Option<usize>)
        requires
            entries_distinct(self.entries@),
        ensures
            match r {
                Some(i) => i < self.entries.len() && entry_at(self.entries@, id) == Some(i as int)
                    && self.entries@[i as int].id == id,
                None => entry_at(self.entries@, id) is None,
            },
    {
        let mut i: usize = 0;
        while i < self.entries.len()
            invariant
                i <= self.entries.len(),
                entries_distinct(self.entries@),
                forall|j: int| 0 <= j < i ==> (#[trigger] self.entries@[j]).id != id,
            decreases self.entries.len() - i,
        {
            if self.entries[i].id == id {
                proof {
                    let c = choose|k: int|
                        0 <= k < self.entries@.len() && (#[trigger] self.entries@[k]).id == id;
                    assert(self.entries@[i as int].id == id);
                    assert(c == i);
                }
                return Some(i);
            }
            i += 1;
        }
        None
    }

    /// Follows the drawing: pictures of nodes that went are let go, and what is new, or has
    /// other bytes than before, waits for its bitmap. Returns what has to be decoded.
    pub fn follow(&mut self, sources: Vec<(u64, Vec<u8>)>) -> (pending: Vec<(u64, Vec<u8>)>)
        requires
            entries_distinct(old(self).entries@),
            forall|i: int, j: int|
                0 <= i < j < sources.len() ==> (#[trigger] sources@[i]).0 != (
                #[trigger] sources@[j]).0,
        ensures
            entries_distinct(final(self).entries@),
            follows(final(self).entries@, old(self).entries@, source_views(sources@)),
            source_views(pending@) == missing(old(self).entries@, source_views(sources@)),
    {
        let ghost before = self.entries@;
        let ghost all = source_views(sources@);
        let mut old_entries: ImageCache<B> = ImageCache { entries: Vec::new() };
        std::mem::swap(&mut old_entries, self);
        let mut pending: Vec<(u64, Vec<u8>)> = Vec::new();
        let mut i: usize = 0;
        let ghost mut left = before;
        assert(all.subrange(0, 0) =~= Seq::empty());
        assert(source_views(pending@) =~= Seq::empty());
        while i < sources.len()
            invariant
                i <= sources.len(),
                all == source_views(sources@),
                forall|a: int, b: int|
                    0 <= a < b < sources.len() ==> (#[trigger] sources@[a]).0 != (
                    #[trigger] sources@[b]).0,
                entries_distinct(before),
                entries_distinct(old_entries.entries@),
                left == old_entries.entries@,
                remains(left, before, all, i as int),
                follows(self.entries@, before, all.subrange(0, i as int)),
                source_views(pending@) == missing(before, all.subrange(0, i as int)),
            decreases sources.len() - i,
        {
            let id = sources[i].0;
            let bytes = copy_bytes(&sources[i].1);
            proof {
                assert(all.subrange(0, i + 1).drop_last() =~= all.subrange(0, i as int));
                still_there(left, before, all, i as int);
            }
            let ghost entries = self.entries@;
            let ghost waiting = pending@;
            let mut bitmap: Option<B> = None;
            let mut fresh = true;
            if let Some(at) = old_entries.find(id) {
                if same_bytes(&old_entries.entries[at].bytes, &bytes) {
                    let entry = old_entries.entries.remove(at);
                    bitmap = entry.bitmap;
                    fresh = false;
                    proof {
                        assert(old_entries.entries@ =~= left.remove(at as int));
                        taken_out(left, before, all, i as int, at as int);
                        left = old_entries.entries@;
                    }
                }
            }
            proof {
                if fresh {
                    passed_over(left, before, all, i as int);
                }
            }
            if fresh {
                pending.push((id, copy_bytes(&bytes)));
                assert(source_views(pending@) =~= source_views(waiting).push((id, bytes@)));
            }
            self.entries.push(CachedImage { id, bytes, bitmap });
            i += 1;
            assert(follows(self.entries@, before, all.subrange(0, i as int))) by {
                let now = all.subrange(0, i as int);
                assert forall|k: int| 0 <= k < self.entries@.len() implies (
                #[trigger] self.entries@[k]).id == now[k].0 && self.entries@[k].bytes@ == now[k].1
                    && self.entries@[k].bitmap == carried(before, now[k].0, now[k].1) by {
                    if k < i - 1 {
                        assert(self.entries@[k] == entries[k]);
                        assert(all.subrange(0, i - 1)[k] == now[k]);
                    }
                }
            }
        }
        assert(all.subrange(0, i as int) =~= all);
        assert forall|a: int, b: int|
            #![trigger self.entries@[a], self.entries@[b]]
            0 <= a < b < self.entries@.len() implies self.entries@[a].id
            != self.entries@[b].id by {
            assert(sources@[a].0 != sources@[b].0);
        }
        pending
    }

    /// A decoded picture arrives. It is taken in only where its node is still there with the
    /// bytes it was decoded from; returns whether it was.
    pub fn decoded(&mut self, id: u64, bytes: &Vec<u8>, bitmap: Option<B>) -> (r: bool)
        requires
            entries_distinct(old(self).entries@),
        ensures
            entries_distinct(final(self).entries@),
            r == known(old(self).entries@, id, bytes@),
            !r ==> final(self).entries@ == old(self).entries@,
            r ==> {
                let i = entry_at(old(self).entries@, id)->0;
                &&& final(self).entries@.len() == old(self).entries@.len()
                &&& final(self).entries@[i].bitmap == bitmap
                &&& final(self).entries@[i].id == id
                &&& final(self).entries@[i].bytes@ == bytes@
                &&& forall|j: int|
                    0 <= j < old(self).entries@.len() && j != i
                        ==> #[trigger] final(self).entries@[j] == old(self).entries@[j]
            },
    {
        match self.find(id) {
            None => false,
            Some(i) => {
                if same_bytes(&self.entries[i].bytes, bytes) {
                    self.entries[i].bitmap = bitmap;
                    true
                } else {
                    false
                }
            },
        }
    }

    /// The bitmap of a node, once it is decoded.
    pub fn get(&self, id: u64) -> (r: Option<&B>)
        requires
            entries_distinct(self.entries@),
        ensures
            match r {
                Some(b) => entry_at(self.entries@, id) matches Some(i) && self.entries@[i].bitmap
                    == Some(*b),
                None => match entry_at(self.entries@, id) {
                    Some(i) => self.entries@[i].bitmap is None,
                    None => true,
                },
            },
    {
        match self.find(id) {
            None => None,
            Some(i) => self.entries[i].bitmap.as_ref(),
        }
    }
}

/// What is left of the cache while it follows: every entry whose source has not come yet.
spec fn remains<B>(
    left: Seq<CachedImage<B>>,
    before: Seq<CachedImage<B>>,
    all: Seq<(u64, Seq<u8>)>,
    n: int,
) -> bool {
    &&& entries_distinct(left)
    &&& forall|k: int| 0 <= k < left.len() ==> before.contains(#[trigger] left[k])
    &&& forall|k: int|
        0 <= k < before.len() && (forall|j: int|
            0 <= j < n ==> (#[trigger] all[j]).0 != before[k].id) ==> left.contains(
            #[trigger] before[k],
        )
}

proof fn entry_is<B>(entries: Seq<CachedImage<B>>, i: int)
    requires
        entries_distinct(entries),
        0 <= i < entries.len(),
    ensures
        entry_at(entries, entries[i].id) == Some(i),
{
    let id = entries[i].id;
    let c = choose|k: int| 0 <= k < entries.len() && (#[trigger] entries[k]).id == id;
    assert(entries[i].id == id);
    assert(c == i);
}

/// The next source's entry is still there where it was there before.
proof fn still_there<B>(
    left: Seq<CachedImage<B>>,
    before: Seq<CachedImage<B>>,
    all: Seq<(u64, Seq<u8>)>,
    n: int,
)
    requires
        entries_distinct(before),
        remains(left, before, all, n),
        0 <= n < all.len(),
        forall|j: int| 0 <= j < n ==> (#[trigger] all[j]).0 != all[n].0,
    ensures
        match entry_at(left, all[n].0) {
            Some(i) => entry_at(before, all[n].0) matches Some(k) && before[k] == left[i],
            None => entry_at(before, all[n].0) is None,
        },
{
    let id = all[n].0;
    match entry_at(left, id) {
        Some(i) => {
            assert(left[i].id == id);
            assert(before.contains(left[i]));
            let k = choose|k: int| 0 <= k < before.len() && before[k] == left[i];
            entry_is(before, k);
        },
        None => {
            if entry_at(before, id) is Some {
                let k = entry_at(before, id)->0;
                assert(before[k].id == id);
                assert(left.contains(before[k]));
                let i = choose|i: int| 0 <= i < left.len() && left[i] == before[k];
                assert(left[i].id == id);
                assert(false);
            }
        },
    }
}

proof fn taken_out<B>(
    left: Seq<CachedImage<B>>,
    before: Seq<CachedImage<B>>,
    all: Seq<(u64, Seq<u8>)>,
    n: int,
    at: int,
)
    requires
        remains(left, before, all, n),
        0 <= n < all.len(),
        0 <= at < left.len(),
        left[at].id == all[n].0,
    ensures
        remains(left.remove(at), before, all, n + 1),
{
    let rest = left.remove(at);
    assert forall|k: int| 0 <= k < rest.len() implies before.contains(#[trigger] rest[k]) by {
        if k < at {
            assert(rest[k] == left[k]);
        } else {
            assert(rest[k] == left[k + 1]);
        }
    }
    assert forall|i: int, j: int|
        #![trigger rest[i], rest[j]]
        0 <= i < j < rest.len() implies rest[i].id != rest[j].id by {
        let a = if i < at {
            i
        } else {
            i + 1
        };
        let b = if j < at {
            j
        } else {
            j + 1
        };
        assert(rest[i] == left[a] && rest[j] == left[b]);
    }
    assert forall|k: int|
        0 <= k < before.len() && (forall|j: int|
            0 <= j < n + 1 ==> (#[trigger] all[j]).0 != before[k].id) implies rest.contains(
        #[trigger] before[k],
    ) by {
        assert(all[n].0 != before[k].id);
        assert(forall|j: int| 0 <= j < n ==> (#[trigger] all[j]).0 != before[k].id);
        assert(left.contains(before[k]));
        let i = choose|i: int| 0 <= i < left.len() && left[i] == before[k];
        if i < at {
            assert(rest[i] == before[k]);
        } else {
            assert(rest[i - 1] == before[k]);
        }
    }
}

proof fn passed_over<B>(
    left: Seq<CachedImage<B>>,
    before: Seq<CachedImage<B>>,
    all: Seq<(u64, Seq<u8>)>,
    n: int,
)
    requires
        remains(left, before, all, n),
        0 <= n < all.len(),
    ensures
        remains(left, before, all, n + 1),
{
    assert forall|k: int|
        0 <= k < before.len() && (forall|j: int|
            0 <= j < n + 1 ==> (#[trigger] all[j]).0 != before[k].id) implies left.contains(
        #[trigger] before[k],
    ) by {
        assert(forall|j: int| 0 <= j < n ==> (#[trigger] all[j]).0 != before[k].id);
    }
}

/// An edit that leaves the pictures alone decodes nothing again: a cache that follows a drawing
/// has nothing missing for the same pictures, and keeps every bitmap.
pub proof fn following_decodes_once<B>(
    entries: Seq<CachedImage<B>>,
    before: Seq<CachedImage<B>>,
    sources: Seq<(u64, Seq<u8>)>,
)
    requires
        entries_distinct(entries),
        follows(entries, before, sources),
    ensures
        missing(entries, sources) == Seq::<(u64, Seq<u8>)>::empty(),
        forall|i: int|
            0 <= i < sources.len() ==> carried(
                entries,
                (#[trigger] sources[i]).0,
                sources[i].1,
            ) == entries[i].bitmap,
{
    assert forall|i: int| 0 <= i < sources.len() implies known(
        entries,
        (#[trigger] sources[i]).0,
        sources[i].1,
    ) && carried(entries, sources[i].0, sources[i].1) == entries[i].bitmap by {
        assert(entries[i].id == sources[i].0);
        entry_is(entries, i);
    }
    nothing_missing(entries, sources, sources.len() as int);
    assert(sources.subrange(0, sources.len() as int) =~= sources);
}

proof fn nothing_missing<B>(
    entries: Seq<CachedImage<B>>,
    sources: Seq<(u64, Seq<u8>)>,
    n: int,
)
    requires
        0 <= n <= sources.len(),
        forall|i: int|
            0 <= i < sources.len() ==> known(entries, (#[trigger] sources[i]).0, sources[i].1),
    ensures
        missing(entries, sources.subrange(0, n)) == Seq::<(u64, Seq<u8>)>::empty(),
    decreases n,
{
    if n > 0 {
        nothing_missing(entries, sources, n - 1);
        assert(sources.subrange(0, n).drop_last() =~= sources.subrange(0, n - 1));
        assert(sources.subrange(0, n).last() == sources[n - 1]);
    }
}

proof fn missing_holds<B>(
    entries: Seq<CachedImage<B>>,
    sources: Seq<(u64, Seq<u8>)>,
    source: (u64, Seq<u8>),
)
    requires
        sources.contains(source),
        !known(entries, source.0, source.1),
    ensures
        missing(entries, sources).contains(source),
    decreases sources.len(),
{
    let n = sources.len() - 1;
    let front = sources.drop_last();
    let rest = missing(entries, front);
    let i = choose|i: int| 0 <= i < sources.len() && sources[i] == source;
    if i < n {
        assert(front[i] == source);
        missing_holds(entries, front, source);
        let k = choose|k: int| 0 <= k < rest.len() && rest[k] == source;
        if !known(entries, sources.last().0, sources.last().1) {
            assert(rest.push(sources.last())[k] == source);
        }
    } else {
        assert(rest.push(source)[rest.len() as int] == source);
    }
}

/// Pictures come and go with their nodes. A cache that follows a drawing holds the picture of
/// an image in it. Once the image is deleted the cache has nothing of it, and what is decoded of
/// it later is not taken in; once the deletion is undone its bytes are decoded anew, and what
/// comes of that is taken in.
pub proof fn pictures_come_and_go_with_their_nodes<B>(
    first: Seq<CachedImage<B>>,
    shown: Seq<CachedImage<B>>,
    deleted: Seq<CachedImage<B>>,
    undone: Seq<CachedImage<B>>,
    with: Seq<(u64, Seq<u8>)>,
    without: Seq<(u64, Seq<u8>)>,
    again: Seq<(u64, Seq<u8>)>,
    id: u64,
    bytes: Seq<u8>,
)
    requires
        entries_distinct(shown),
        entries_distinct(deleted),
        entries_distinct(undone),
        follows(shown, first, with),
        follows(deleted, shown, without),
        follows(undone, deleted, again),
        with.contains((id, bytes)),
        forall|i: int| 0 <= i < without.len() ==> (#[trigger] without[i]).0 != id,
        again.contains((id, bytes)),
    ensures
        known(shown, id, bytes),
        entry_at(deleted, id) is None,
        forall|b: Seq<u8>| !#[trigger] known(deleted, id, b),
        missing(deleted, again).contains((id, bytes)),
        known(undone, id, bytes),
        carried(undone, id, bytes) is None,
{
    let i = choose|i: int| 0 <= i < with.len() && with[i] == (id, bytes);
    assert(shown[i].id == id);
    entry_is(shown, i);
    assert(entry_at(deleted, id) is None) by {
        if exists|k: int| 0 <= k < deleted.len() && (#[trigger] deleted[k]).id == id {
            let k = choose|k: int| 0 <= k < deleted.len() && (#[trigger] deleted[k]).id == id;
            assert(without[k].0 == id);
        }
    }
    missing_holds(deleted, again, (id, bytes));
    let j = choose|j: int| 0 <= j < again.len() && again[j] == (id, bytes);
    assert(undone[j].id == id);
    entry_is(undone, j);
}

proof fn same_pictures<S>(a: Seq<NodeModel<S>>, b: Seq<NodeModel<S>>)
    requires
        a.len() == b.len(),
        forall|i: int|
            0 <= i < a.len() ==> (#[trigger] a[i]).id == b[i].id && a[i].kind == b[i].kind
                && a[i].image_bytes == b[i].image_bytes,
    ensures
        sources_of(a) == sources_of(b),
    decreases a.len(),
{
    if a.len() > 0 {
        let n = a.len() - 1;
        let x = a.drop_last();
        let y = b.drop_last();
        assert forall|i: int| 0 <= i < x.len() implies (#[trigger] x[i]).id == y[i].id && x[i].kind
            == y[i].kind && x[i].image_bytes == y[i].image_bytes by {
            assert(x[i] == a[i] && y[i] == b[i]);
        }
        same_pictures(x, y);
        assert(a[n].id == b[n].id);
    }
}

/// An edit of any column but a node's kind and a picture's bytes leaves the pictures of a drawing alone, so a
/// cache that follows the drawing has nothing to decode for it.
pub proof fn edits_leave_the_pictures_alone<S: Scalar>(
    rows: Seq<NodeModel<S>>,
    id: u64,
    f: FieldModel<S>,
)
    requires
        !(f is Kind),
        !(f is ImageBytes),
    ensures
        sources_of(written(rows, id, f)) == sources_of(rows),
{
    let w = written(rows, id, f);
    assert forall|i: int| 0 <= i < w.len() implies (#[trigger] w[i]).id == rows[i].id && w[i].kind
        == rows[i].kind && w[i].image_bytes == rows[i].image_bytes by {
        if has_row(rows, id) {
            let k = slot(rows, id);
            assert(0 <= k < rows.len());
            assert(w[i] == if i == k {
                with_field(rows[k], f)
            } else {
                rows[i]
            });
        }
    }
    same_pictures(w, rows);
}

/// A drag leaves the pictures of a drawing alone.
pub proof fn drags_leave_the_pictures_alone<S: Scalar>(rows: Seq<NodeModel<S>>, puts: Seq<Put<S>>)
    ensures
        sources_of(put_each(rows, puts)) == sources_of(rows),
    decreases puts.len(),
{
    if puts.len() > 0 {
        let p = puts.last();
        let r = put_each(rows, puts.drop_last());
        drags_leave_the_pictures_alone(rows, puts.drop_last());
        edits_leave_the_pictures_alone(r, p.id, side_field(p.side, p.value));
    }
}

} // verus!
