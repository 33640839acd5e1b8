//! The glyph outline table: contours as flagged points with delta-encoded
//! coordinates.

use vstd::prelude::*;
use crate::encode::be_i16;
use crate::encode::be_u16;
use crate::encode::write_all;
use crate::encode::write_i16;
use crate::encode::write_u16;
use crate::error::FontError;
use crate::itertools::lemma_next_is_first_run;
use crate::itertools::may_ask;
use crate::itertools::run_len;
use crate::itertools::split_when;
use crate::sprite::views;
use crate::sprite::Bitmap;
use crate::sprite::Sprite;
use crate::tables::loca::Loca;
use crate::tables::maxp::MaxP;
use crate::writeutils::CountWriter;
use crate::writeutils::TableWriter;
use crate::FontTable;
use crate::Rect;

verus! {

/// The point is on the curve.
pub const ON_CURVE: u8 = 0b000001;

/// The x delta is one byte long.
pub const X_SHORT: u8 = 0b000010;

/// The y delta is one byte long.
pub const Y_SHORT: u8 = 0b000100;

/// The next byte says how many more times this flag applies.
pub const REPEAT: u8 = 0b001000;

/// With `X_SHORT`: the delta is positive. Without: the delta is zero.
pub const X_MOD: u8 = 0b010000;

/// With `Y_SHORT`: the delta is positive. Without: the delta is zero.
pub const Y_MOD: u8 = 0b100000;

/// The encoding of `len` consecutive copies of `flag`: a lone flag as it is,
/// a longer run as the flag with the repeat bit and the number of further
/// copies, at most 255 of them per pair.
pub open spec fn run_bytes(flag: u8, len: nat) -> Seq<u8>
    decreases len,
{
    if len == 0 {
        Seq::empty()
    } else if len == 1 {
        seq![flag]
    } else if len <= 256 {
        seq![flag | REPEAT, (len - 1) as u8]
    } else {
        seq![flag | REPEAT, 0xffu8] + run_bytes(flag, (len - 256) as nat)
    }
}

/// Where one run of equal flags ends and the next begins: where two
/// neighbours differ.
pub open spec fn flag_changes() -> spec_fn(u8, u8) -> bool {
    |a: u8, b: u8| a != b
}

/// The run-length compressed flag stream: run after run of equal flags, each
/// as `run_bytes` encodes it.
pub open spec fn compressed(flags: Seq<u8>) -> Seq<u8>
    decreases flags.len(),
{
    let run = run_len(flags, flag_changes());
    if 1 <= run <= flags.len() {
        run_bytes(flags[0], run) + compressed(flags.skip(run as int))
    } else {
        Seq::empty()
    }
}

/// Appends the encoding of a run of `len` copies of `flag` to `out`.
fn push_run(out: &mut Vec<u8>, flag: u8, len: usize)
    ensures
        final(out)@ == old(out)@ + run_bytes(flag, len as nat),
{
    let full_repeats = len / 256;
    let stragglers = (len % 256) as u8;
    let mut done: usize = 0;
    while done < full_repeats
        invariant
            done <= full_repeats,
            full_repeats == len / 256,
            old(out)@ + run_bytes(flag, len as nat) == out@ + run_bytes(
                flag,
                (len - done * 256) as nat,
            ),
        decreases full_repeats - done,
    {
        out.push(flag | REPEAT);
        out.push(0xff);
        assert(run_bytes(flag, (len - done * 256) as nat) =~= seq![flag | REPEAT, 0xffu8]
            + run_bytes(flag, (len - (done + 1) * 256) as nat));
        assert(old(out)@ + run_bytes(flag, len as nat) =~= out@ + run_bytes(
            flag,
            (len - (done + 1) * 256) as nat,
        ));
        done = done + 1;
    }
    if stragglers == 0 {
    } else if stragglers == 1 {
        out.push(flag);
    } else {
        out.push(flag | REPEAT);
        out.push(stragglers - 1);
    }
    assert(old(out)@ + run_bytes(flag, len as nat) =~= out@);
}

/// Compresses a flag stream: runs of equal flags become a flag with the
/// repeat bit and a count, in chunks of at most 256.
pub fn compress_flags(flags: &[u8]) -> (out: Vec<u8>)
    ensures
        out@ == compressed(flags@),
{
    let mut out: Vec<u8> = Vec::new();
    let differ = |a: &u8, b: &u8| -> (r: bool)
        ensures
            r == (*a != *b),
        { *a != *b };
    let mut groups = split_when(flags, differ);
    loop
        invariant
            groups.pred() == differ,
            forall|a: &u8, b: &u8| call_requires(differ, (a, b)),
            forall|a: &u8, b: &u8, r: bool| #[trigger]
                call_ensures(differ, (a, b), r) ==> r == flag_changes()(*a, *b),
            out@ + compressed(groups.rest()) == compressed(flags@),
        ensures
            out@ == compressed(flags@),
        decreases groups.rest().len(),
    {
        let ghost rest = groups.rest();
        assert forall|i: int| 0 <= i < rest.len() - 1 implies #[trigger] may_ask(
            groups.pred(),
            rest,
            i,
        ) by {}
        match groups.next() {
            None => {
                assert(compressed(rest) == Seq::<u8>::empty());
                break ;
            },
            Some(group) => {
                let flag = group[0];
                let len = group.len();
                proof {
                    lemma_next_is_first_run(differ, flag_changes(), rest, group@, groups.rest());
                    assert(group@[0] == rest[0]);
                }
                push_run(&mut out, flag, len);
                assert(out@ + compressed(groups.rest()) == compressed(flags@));
            },
        }
    }
    out
}

/// A point of an outline.
#[derive(Debug, Clone, Copy, PartialEq, Eq, Structural)]
pub struct Coordinate {
    pub x: i64,
    pub y: i64,
    pub on_curve: bool,
}

/// The number of points of all `contours` together.
pub open spec fn point_total(contours: Seq<Seq<Coordinate>>) -> nat
    decreases contours.len(),
{
    if contours.len() == 0 {
        0
    } else {
        point_total(contours.drop_last()) + contours.last().len()
    }
}

/// The points of all `contours`, one contour after the other.
pub open spec fn all_points(contours: Seq<Seq<Coordinate>>) -> Seq<Coordinate>
    decreases contours.len(),
{
    if contours.len() == 0 {
        Seq::empty()
    } else {
        all_points(contours.drop_last()) + contours.last()
    }
}

/// The end-point list: for each contour the index of its last point among
/// all points, as a big-endian `u16`.
pub open spec fn end_points(contours: Seq<Seq<Coordinate>>) -> Seq<u8>
    decreases contours.len(),
{
    if contours.len() == 0 {
        Seq::empty()
    } else {
        end_points(contours.drop_last()) + be_u16((point_total(contours) - 1) as u16)
    }
}

/// The step in x that leads to point `k`; the first point is reached from
/// the origin.
pub open spec fn dx(points: Seq<Coordinate>, k: int) -> int {
    if k == 0 {
        points[k].x as int
    } else {
        points[k].x - points[k - 1].x
    }
}

/// The step in y that leads to point `k`; the first point is reached from
/// the origin.
pub open spec fn dy(points: Seq<Coordinate>, k: int) -> int {
    if k == 0 {
        points[k].y as int
    } else {
        points[k].y - points[k - 1].y
    }
}

/// `d` is a signed 16-bit value.
pub open spec fn fits_i16(d: int) -> bool {
    -0x8000 <= d <= 0x7fff
}

/// The step to point `k` fits the coordinate fields in both directions.
pub open spec fn step_fits(points: Seq<Coordinate>, k: int) -> bool {
    fits_i16(dx(points, k)) && fits_i16(dy(points, k))
}

/// Every step from point to point fits the coordinate fields.
pub open spec fn deltas_fit(points: Seq<Coordinate>) -> bool {
    forall|k: int| 0 <= k < points.len() ==> #[trigger] step_fits(points, k)
}

/// The flag bits that say how the x delta `d` is stored.
pub open spec fn x_flag(d: int) -> u8 {
    if d == 0 {
        X_MOD
    } else if -255 <= d <= 255 {
        if d > 0 {
            X_SHORT | X_MOD
        } else {
            X_SHORT
        }
    } else {
        0
    }
}

/// The flag bits that say how the y delta `d` is stored.
pub open spec fn y_flag(d: int) -> u8 {
    if d == 0 {
        Y_MOD
    } else if -255 <= d <= 255 {
        if d > 0 {
            Y_SHORT | Y_MOD
        } else {
            Y_SHORT
        }
    } else {
        0
    }
}

/// The bytes a delta contributes to its coordinate stream: none when it is
/// zero, its magnitude when that fits one byte, else a signed 16-bit value.
pub open spec fn delta_bytes(d: int) -> Seq<u8> {
    if d == 0 {
        Seq::empty()
    } else if -255 <= d <= 255 {
        if d > 0 {
            seq![d as u8]
        } else {
            seq![(-d) as u8]
        }
    } else {
        be_i16(d as i16)
    }
}

/// The flag byte of point `k`, before compression.
pub open spec fn point_flag(points: Seq<Coordinate>, k: int) -> u8 {
    (if points[k].on_curve {
        ON_CURVE
    } else {
        0u8
    }) | x_flag(dx(points, k)) | y_flag(dy(points, k))
}

/// The flag bytes of the first `n` points, before compression.
pub open spec fn point_flags(points: Seq<Coordinate>, n: nat) -> Seq<u8> {
    Seq::new(n, |k: int| point_flag(points, k))
}

/// The x coordinate stream of the first `n` points.
pub open spec fn x_deltas(points: Seq<Coordinate>, n: nat) -> Seq<u8>
    decreases n,
{
    if n == 0 {
        Seq::empty()
    } else {
        x_deltas(points, (n - 1) as nat) + delta_bytes(dx(points, n - 1))
    }
}

/// The y coordinate stream of the first `n` points.
pub open spec fn y_deltas(points: Seq<Coordinate>, n: nat) -> Seq<u8>
    decreases n,
{
    if n == 0 {
        Seq::empty()
    } else {
        y_deltas(points, (n - 1) as nat) + delta_bytes(dy(points, n - 1))
    }
}

/// What is wrong with an outline, if anything: too many contours,
/// instructions or points for their 16-bit counts; then a contour without
/// points; then a step between points that is too long.
pub open spec fn outline_error(instructions: Seq<u8>, contours: Seq<Seq<Coordinate>>) -> Option<
    FontError,
> {
    if contours.len() > 0xffff || instructions.len() > 0xffff || point_total(contours) > 0xffff {
        Some(FontError::TooLarge)
    } else if exists|i: int| 0 <= i < contours.len() && (#[trigger] contours[i]).len() == 0 {
        Some(FontError::EmptyContour)
    } else if !deltas_fit(all_points(contours)) {
        Some(FontError::DeltaOutOfRange)
    } else {
        None
    }
}

/// The encoded glyph before alignment: contour count, bounds, end points,
/// instructions, compressed flags, x deltas, y deltas.
pub open spec fn outline_bytes(
    rect: Rect,
    instructions: Seq<u8>,
    contours: Seq<Seq<Coordinate>>,
) -> Seq<u8> {
    let points = all_points(contours);
    be_u16(contours.len() as u16) + rect.spec_bytes() + end_points(contours) + be_u16(
        instructions.len() as u16,
    ) + instructions + compressed(point_flags(points, points.len())) + x_deltas(
        points,
        points.len(),
    ) + y_deltas(points, points.len())
}

/// `bytes`, with one zero byte added where their number is odd.
pub open spec fn pad2(bytes: Seq<u8>) -> Seq<u8> {
    if bytes.len() % 2 == 1 {
        bytes.push(0u8)
    } else {
        bytes
    }
}

/// All points together are as many as the contours hold.
pub proof fn lemma_all_points_len(contours: Seq<Seq<Coordinate>>)
    ensures
        all_points(contours).len() == point_total(contours),
    decreases contours.len(),
{
    if contours.len() > 0 {
        lemma_all_points_len(contours.drop_last());
    }
}

/// The first `n` contours hold no more points than all of them.
pub proof fn lemma_point_total_monotonic(contours: Seq<Seq<Coordinate>>, n: int)
    requires
        0 <= n <= contours.len(),
    ensures
        point_total(contours.take(n)) <= point_total(contours),
    decreases contours.len(),
{
    if n == contours.len() {
        assert(contours.take(n) == contours);
    } else {
        lemma_point_total_monotonic(contours.drop_last(), n);
        assert(contours.drop_last().take(n) == contours.take(n));
    }
}

/// The points of `contours`, one contour after the other.
fn flatten(contours: &Vec<Vec<Coordinate>>) -> (points: Vec<Coordinate>)
    ensures
        points@ == all_points(contour_views(contours@)),
{
    let ghost views = contour_views(contours@);
    let mut points: Vec<Coordinate> = Vec::new();
    let mut i: usize = 0;
    assert(views.take(0) == Seq::<Seq<Coordinate>>::empty());
    while i < contours.len()
        invariant
            i <= contours.len(),
            views == contour_views(contours@),
            points@ == all_points(views.take(i as int)),
        decreases contours.len() - i,
    {
        let contour = &contours[i];
        let ghost before = points@;
        let mut j: usize = 0;
        while j < contour.len()
            invariant
                j <= contour.len(),
                points@ == before + contour@.take(j as int),
            decreases contour.len() - j,
        {
            points.push(contour[j]);
            assert(contour@.take(j + 1) == contour@.take(j as int).push(contour@[j as int]));
            j = j + 1;
        }
        proof {
            assert(contour@.take(j as int) == contour@);
            let next = views.take(i + 1);
            assert(next.drop_last() == views.take(i as int));
            assert(next.last() == contour@);
        }
        i = i + 1;
    }
    assert(views.take(i as int) == views);
    points
}

/// Appends the x delta `dx` to its coordinate stream and returns the flag
/// bits that say how it was stored.
fn write_dx(dxs: &mut Vec<u8>, dx: i16) -> (flag: u8)
    ensures
        final(dxs)@ == old(dxs)@ + delta_bytes(dx as int),
        flag == x_flag(dx as int),
{
    if dx == 0 {
        // The x-short bit is not set and this bit is set: the x-coordinate
        // is the same as the previous one.
        assert(dxs@ =~= old(dxs)@ + delta_bytes(dx as int));
        X_MOD
    } else if -255 <= dx && dx <= 255 {
        // The x-short bit is set: this bit holds the sign of the value, 1
        // for positive and 0 for negative.
        if dx > 0 {
            dxs.push(dx as u8);
            X_SHORT | X_MOD
        } else {
            dxs.push((-dx) as u8);
            X_SHORT
        }
    } else {
        // Neither bit is set: the delta is a signed 16-bit value.
        write_i16(dxs, dx);
        0
    }
}

/// Appends the y delta `dy` to its coordinate stream and returns the flag
/// bits that say how it was stored.
fn write_dy(dys: &mut Vec<u8>, dy: i16) -> (flag: u8)
    ensures
        final(dys)@ == old(dys)@ + delta_bytes(dy as int),
        flag == y_flag(dy as int),
{
    if dy == 0 {
        // The y-short bit is not set and this bit is set: the y-coordinate
        // is the same as the previous one.
        assert(dys@ =~= old(dys)@ + delta_bytes(dy as int));
        Y_MOD
    } else if -255 <= dy && dy <= 255 {
        // The y-short bit is set: this bit holds the sign of the value, 1
        // for positive and 0 for negative.
        if dy > 0 {
            dys.push(dy as u8);
            Y_SHORT | Y_MOD
        } else {
            dys.push((-dy) as u8);
            Y_SHORT
        }
    } else {
        // Neither bit is set: the delta is a signed 16-bit value.
        write_i16(dys, dy);
        0
    }
}

/// What is wrong with an outline, if anything.
fn check_outline(instructions: &Vec<u8>, contours: &Vec<Vec<Coordinate>>) -> (r: Option<FontError>)
    ensures
        r == outline_error(instructions@, contour_views(contours@)),
{
    let ghost views = contour_views(contours@);
    let points = flatten(contours);
    proof {
        lemma_all_points_len(views);
    }
    if contours.len() > 0xffff || instructions.len() > 0xffff || points.len() > 0xffff {
        return Some(FontError::TooLarge);
    }
    let mut i: usize = 0;
    while i < contours.len()
        invariant
            i <= contours.len(),
            views == contour_views(contours@),
            contours@.len() <= 0xffff,
            instructions@.len() <= 0xffff,
            point_total(views) <= 0xffff,
            forall|j: int| 0 <= j < i ==> (#[trigger] views[j]).len() != 0,
        decreases contours.len() - i,
    {
        if contours[i].len() == 0 {
            assert(views[i as int].len() == 0);
            return Some(FontError::EmptyContour);
        }
        i = i + 1;
    }
    let mut x: i64 = 0;
    let mut y: i64 = 0;
    let mut k: usize = 0;
    while k < points.len()
        invariant
            k <= points.len(),
            views == contour_views(contours@),
            points@ == all_points(views),
            contours@.len() <= 0xffff,
            instructions@.len() <= 0xffff,
            point_total(views) <= 0xffff,
            forall|j: int| 0 <= j < views.len() ==> (#[trigger] views[j]).len() != 0,
            forall|j: int| 0 <= j < k ==> #[trigger] step_fits(points@, j),
            k == 0 ==> x == 0 && y == 0,
            k > 0 ==> x == points@[k - 1].x && y == points@[k - 1].y,
        decreases points.len() - k,
    {
        let pt = points[k];
        let dx = pt.x as i128 - x as i128;
        let dy = pt.y as i128 - y as i128;
        if dx < -0x8000 || dx > 0x7fff || dy < -0x8000 || dy > 0x7fff {
            assert(!step_fits(points@, k as int));
            return Some(FontError::DeltaOutOfRange);
        }
        x = pt.x;
        y = pt.y;
        k = k + 1;
    }
    None
}

/// The shapes a glyph can have.
pub enum GlyphData {
    /// Contours of points, with the instructions that go with them.
    Simple { instructions: Vec<u8>, contours: Vec<Vec<Coordinate>> },
}

/// One glyph: its bounds and its outline.
pub struct Glyph {
    rect: Rect,
    glyph_data: GlyphData,
}

/// The contours as sequences of points.
pub open spec fn contour_views(contours: Seq<Vec<Coordinate>>) -> Seq<Seq<Coordinate>> {
    Seq::new(contours.len(), |i: int| contours[i]@)
}

/// The corners of `contours` as points of an outline, all of them on the
/// curve.
pub open spec fn outline_points(contours: Seq<Seq<(usize, usize)>>) -> Seq<Seq<Coordinate>> {
    Seq::new(
        contours.len(),
        |i: int|
            Seq::new(
                contours[i].len(),
                |j: int|
                    Coordinate {
                        x: contours[i][j].0 as i64,
                        y: contours[i][j].1 as i64,
                        on_curve: true,
                    },
            ),
    )
}

/// The outline of the glyph of `sprite`: the corners of its contours.
pub open spec fn glyph_outline(sprite: Bitmap) -> Seq<Seq<Coordinate>> {
    outline_points(sprite.contours())
}

/// What keeps `sprite` from becoming a glyph, if anything.
pub open spec fn glyph_error(sprite: Bitmap) -> Option<FontError> {
    outline_error(Seq::empty(), glyph_outline(sprite))
}

/// The bounds of the glyph of `sprite`: the whole cell.
pub open spec fn glyph_rect(sprite: Bitmap) -> Rect {
    Rect { x_min: 0, y_min: 0, x_max: sprite.width as i16, y_max: sprite.height as i16 }
}

/// `glyph` is the glyph of `sprite`.
pub open spec fn is_glyph_of(glyph: Glyph, sprite: Bitmap) -> bool {
    &&& glyph.wf()
    &&& glyph.rect() == glyph_rect(sprite)
    &&& glyph.instructions() == Seq::<u8>::empty()
    &&& glyph.contours() == glyph_outline(sprite)
}

/// The corners of `contours` as points of an outline.
pub fn into_contours(contours: &[Vec<(usize, usize)>]) -> (r: Vec<Vec<Coordinate>>)
    requires
        forall|i: int, j: int|
            0 <= i < contours@.len() && 0 <= j < contours@[i]@.len() ==> (#[trigger] contours@[i]@[j]).0
                <= i64::MAX && contours@[i]@[j].1 <= i64::MAX,
    ensures
        contour_views(r@) == outline_points(views(contours@)),
{
    let mut out: Vec<Vec<Coordinate>> = Vec::new();
    let mut i: usize = 0;
    while i < contours.len()
        invariant
            i <= contours.len(),
            forall|i: int, j: int|
                0 <= i < contours@.len() && 0 <= j < contours@[i]@.len() ==> (
                #[trigger] contours@[i]@[j]).0 <= i64::MAX && contours@[i]@[j].1 <= i64::MAX,
            out@.len() == i,
            forall|k: int|
                0 <= k < i ==> (#[trigger] out@[k])@ == outline_points(views(contours@))[k],
        decreases contours.len() - i,
    {
        let contour = &contours[i];
        let mut points: Vec<Coordinate> = Vec::new();
        let mut j: usize = 0;
        while j < contour.len()
            invariant
                j <= contour.len(),
                i < contours@.len(),
                *contour == contours@[i as int],
                forall|i: int, j: int|
                    0 <= i < contours@.len() && 0 <= j < contours@[i]@.len() ==> (
                    #[trigger] contours@[i]@[j]).0 <= i64::MAX && contours@[i]@[j].1 <= i64::MAX,
                points@.len() == j,
                forall|k: int|
                    0 <= k < j ==> #[trigger] points@[k] == outline_points(
                        views(contours@),
                    )[i as int][k],
            decreases contour.len() - j,
        {
            let (x, y) = contour[j];
            assert(contours@[i as int]@[j as int].0 <= i64::MAX);
            points.push(Coordinate { x: x as i64, y: y as i64, on_curve: true });
            j = j + 1;
        }
        assert(points@ =~= outline_points(views(contours@))[i as int]);
        out.push(points);
        i = i + 1;
    }
    assert(contour_views(out@) =~= outline_points(views(contours@)));
    out
}

impl Glyph {
    /// The bounding rectangle.
    pub closed spec fn rect(&self) -> Rect {
        self.rect
    }

    /// The contours, each a cyclic sequence of points.
    pub closed spec fn contours(&self) -> Seq<Seq<Coordinate>> {
        match self.glyph_data {
            GlyphData::Simple { instructions, contours } => contour_views(contours@),
        }
    }

    /// The instruction bytes.
    pub closed spec fn instructions(&self) -> Seq<u8> {
        match self.glyph_data {
            GlyphData::Simple { instructions, contours } => instructions@,
        }
    }

    /// The outline can be encoded: every count fits its field, no contour is
    /// empty, every delta fits.
    pub open spec fn wf(&self) -> bool {
        outline_error(self.instructions(), self.contours()) is None
    }

    /// The glyph as it stands in the glyph table, padded to an even length.
    pub open spec fn spec_bytes(&self) -> Seq<u8> {
        pad2(outline_bytes(self.rect(), self.instructions(), self.contours()))
    }

    /// A glyph with the bounds `rect` and the outline `contours`, without
    /// instructions; or what is wrong with the outline.
    pub fn new(rect: Rect, contours: Vec<Vec<Coordinate>>) -> (r: Result<Glyph, FontError>)
        ensures
            match r {
                Ok(glyph) => {
                    &&& outline_error(Seq::empty(), contour_views(contours@)) is None
                    &&& glyph.wf()
                    &&& glyph.rect() == rect
                    &&& glyph.instructions() == Seq::<u8>::empty()
                    &&& glyph.contours() == contour_views(contours@)
                },
                Err(e) => outline_error(Seq::empty(), contour_views(contours@)) == Some(e),
            },
    {
        let instructions: Vec<u8> = Vec::new();
        match check_outline(&instructions, &contours) {
            Some(e) => Err(e),
            None => Ok(Glyph { rect, glyph_data: GlyphData::Simple { instructions, contours } }),
        }
    }

    /// Whether the outline of the glyph can be encoded.
    pub fn is_wf(&self) -> (r: bool)
        ensures
            r == self.wf(),
    {
        match &self.glyph_data {
            GlyphData::Simple { instructions, contours } => check_outline(
                instructions,
                contours,
            ).is_none(),
        }
    }

    /// The glyph of `sprite`: its cell as bounds, the corners of its
    /// contours as outline. Fails where the outline has more contours or
    /// points than a glyph has room for.
    pub fn from(sprite: Sprite) -> (r: Result<Glyph, FontError>)
        requires
            sprite@.valid(),
        ensures
            match r {
                Ok(glyph) => glyph_error(sprite@) is None && is_glyph_of(glyph, sprite@),
                Err(e) => glyph_error(sprite@) == Some(e),
            },
    {
        let contours = sprite.find_contours();
        proof {
            sprite@.lemma_contours_in_grid();
            assert forall|i: int, j: int|
                0 <= i < contours@.len() && 0 <= j < contours@[i]@.len() implies (
            #[trigger] contours@[i]@[j]).0 <= i64::MAX && contours@[i]@[j].1 <= i64::MAX by {
                assert(views(contours@)[i] == contours@[i]@);
                assert(sprite@.contours()[i][j].0 <= sprite.width);
            }
        }
        let outline = into_contours(contours.as_slice());
        let rect = Rect {
            x_min: 0,
            y_min: 0,
            x_max: sprite.width() as i16,
            y_max: sprite.height() as i16,
        };
        Glyph::new(rect, outline)
    }

    /// Appends the encoded glyph to `writer`: contour count, bounds, end
    /// points, instructions, compressed flags and both coordinate streams,
    /// padded to an even length.
    pub fn write(&self, writer: &mut Vec<u8>)
        requires
            self.wf(),
        ensures
            final(writer)@ == old(writer)@ + self.spec_bytes(),
    {
        let mut body: Vec<u8> = Vec::new();
        match &self.glyph_data {
            GlyphData::Simple { instructions, contours } => {
                let ghost views = contour_views(contours@);
                let points = flatten(contours);
                proof {
                    lemma_all_points_len(views);
                }
                let contour_count = contours.len() as u16;
                write_u16(&mut body, contour_count);
                self.rect.write(&mut body);
                let ghost head = body@;

                // endPtsOfContours[n]
                let mut pt_count: u16 = 0;
                let mut i: usize = 0;
                assert(views.take(0) == Seq::<Seq<Coordinate>>::empty());
                while i < contours.len()
                    invariant
                        i <= contours.len(),
                        views == contour_views(contours@),
                        point_total(views) <= 0xffff,
                        forall|j: int| 0 <= j < views.len() ==> (#[trigger] views[j]).len() != 0,
                        pt_count == point_total(views.take(i as int)),
                        body@ == head + end_points(views.take(i as int)),
                    decreases contours.len() - i,
                {
                    proof {
                        let next = views.take(i + 1);
                        assert(next.drop_last() == views.take(i as int));
                        assert(next.last() == views[i as int]);
                        lemma_point_total_monotonic(views, i + 1);
                    }
                    pt_count = pt_count + contours[i].len() as u16;
                    write_u16(&mut body, pt_count - 1);
                    i = i + 1;
                    assert(body@ =~= head + end_points(views.take(i as int)));
                }
                assert(views.take(i as int) == views);

                // instructions
                let instruction_len = instructions.len() as u16;
                write_u16(&mut body, instruction_len);
                write_all(&mut body, instructions.as_slice());

                // flags + coords
                let mut x: i64 = 0;
                let mut y: i64 = 0;
                let mut flags: Vec<u8> = Vec::new();
                let mut dxs: Vec<u8> = Vec::new();
                let mut dys: Vec<u8> = Vec::new();
                let mut k: usize = 0;
                while k < points.len()
                    invariant
                        k <= points.len(),
                        deltas_fit(points@),
                        k == 0 ==> x == 0 && y == 0,
                        k > 0 ==> x == points@[k - 1].x && y == points@[k - 1].y,
                        flags@ == point_flags(points@, k as nat),
                        dxs@ == x_deltas(points@, k as nat),
                        dys@ == y_deltas(points@, k as nat),
                    decreases points.len() - k,
                {
                    let pt = points[k];
                    assert(step_fits(points@, k as int));
                    let base: u8 = if pt.on_curve {
                        ON_CURVE
                    } else {
                        0
                    };
                    let dx: i16 = (pt.x - x) as i16;
                    x = pt.x;
                    let fx = write_dx(&mut dxs, dx);
                    let dy: i16 = (pt.y - y) as i16;
                    y = pt.y;
                    let fy = write_dy(&mut dys, dy);
                    flags.push(base | fx | fy);
                    k = k + 1;
                    assert(flags@ =~= point_flags(points@, k as nat));
                }
                let flags = compress_flags(flags.as_slice());
                write_all(&mut body, flags.as_slice());
                write_all(&mut body, dxs.as_slice());
                write_all(&mut body, dys.as_slice());
                assert(body@ =~= outline_bytes(self.rect(), self.instructions(), self.contours()));
            },
        }
        // each glyph must be u16-aligned
        if body.len() % 2 == 1 {
            body.push(0x00);
        }
        write_all(writer, body.as_slice());
    }

    /// Points in non-compound glyph
    pub fn point_count(&self) -> (n: usize)
        ensures
            n == point_total(self.contours()),
    {
        match &self.glyph_data {
            GlyphData::Simple { instructions, contours } => {
                let points = flatten(contours);
                proof {
                    lemma_all_points_len(contour_views(contours@));
                }
                points.len()
            },
        }
    }

    /// Contours in non-compound glyph
    pub fn contour_count(&self) -> (n: usize)
        ensures
            n == self.contours().len(),
    {
        match &self.glyph_data {
            GlyphData::Simple { instructions, contours } => contours.len(),
        }
    }

    /// Points in compound glyph
    pub fn component_point_count(&self) -> (n: usize)
        ensures
            n == 0,
    {
        match &self.glyph_data {
            GlyphData::Simple { .. } => 0,
        }
    }

    /// Contours in compound glyph
    pub fn component_contour_count(&self) -> (n: usize)
        ensures
            n == 0,
    {
        match &self.glyph_data {
            GlyphData::Simple { .. } => 0,
        }
    }

    /// Bytes of instructions in the glyph
    pub fn instruction_byte_count(&self) -> (n: usize)
        ensures
            n == self.instructions().len(),
    {
        match &self.glyph_data {
            GlyphData::Simple { instructions, contours } => instructions.len(),
        }
    }
}

/// The glyphs of a font, in glyph-id order.
pub struct Glyf {
    glyphs: Vec<Glyph>,
}

/// The glyph table of `glyphs`: one encoded glyph after the other.
pub open spec fn glyf_bytes(glyphs: Seq<Glyph>) -> Seq<u8>
    decreases glyphs.len(),
{
    if glyphs.len() == 0 {
        Seq::empty()
    } else {
        glyf_bytes(glyphs.drop_last()) + glyphs.last().spec_bytes()
    }
}

/// Where each glyph starts in the glyph table, and where the table ends.
pub open spec fn glyph_offsets(glyphs: Seq<Glyph>) -> Seq<nat> {
    Seq::new(glyphs.len() + 1, |i: int| glyf_bytes(glyphs.take(i)).len())
}

/// The largest `aspect` of any of `glyphs`; 0 where there is none.
pub open spec fn max_of(glyphs: Seq<Glyph>, aspect: spec_fn(Glyph) -> nat) -> nat
    decreases glyphs.len(),
{
    if glyphs.len() == 0 {
        0
    } else {
        let rest = max_of(glyphs.drop_last(), aspect);
        if aspect(glyphs.last()) > rest {
            aspect(glyphs.last())
        } else {
            rest
        }
    }
}

/// What the sprites hold, as plain values.
pub open spec fn bitmaps(sprites: Seq<Sprite>) -> Seq<Bitmap> {
    Seq::new(sprites.len(), |i: int| sprites[i]@)
}

/// What keeps the first of the first `n` sprites that cannot become a
/// glyph from becoming one; nothing where each of them can.
pub open spec fn first_glyph_error(sprites: Seq<Bitmap>, n: nat) -> Option<FontError>
    decreases n,
{
    if n == 0 {
        None
    } else {
        match first_glyph_error(sprites, (n - 1) as nat) {
            Some(e) => Some(e),
            None => glyph_error(sprites[n - 1]),
        }
    }
}

/// What keeps `sprites` from becoming a glyph table, if anything: a sprite
/// that cannot become a glyph, or more sprites than a font has glyph ids.
pub open spec fn glyf_error(sprites: Seq<Bitmap>) -> Option<FontError> {
    match first_glyph_error(sprites, sprites.len()) {
        Some(e) => Some(e),
        None => if sprites.len() > 0xffff {
            Some(FontError::TooLarge)
        } else {
            None
        },
    }
}

/// Once a sprite was found that cannot become a glyph, looking further
/// does not change what was found.
pub proof fn lemma_first_glyph_error_stays(sprites: Seq<Bitmap>, n: nat, m: nat)
    requires
        n <= m,
        first_glyph_error(sprites, n) is Some,
    ensures
        first_glyph_error(sprites, m) == first_glyph_error(sprites, n),
    decreases m,
{
    if n < m {
        lemma_first_glyph_error_stays(sprites, n, (m - 1) as nat);
    }
}

impl Glyf {
    /// The glyphs, in glyph-id order.
    pub closed spec fn glyphs(&self) -> Seq<Glyph> {
        self.glyphs@
    }

    /// The maximum profile of the glyphs.
    pub open spec fn spec_maxp(&self) -> MaxP {
        MaxP {
            version: 0x00010000,
            num_glyphs: self.glyphs().len() as u16,
            max_points: max_of(self.glyphs(), |g: Glyph| point_total(g.contours())) as u16,
            max_contours: max_of(self.glyphs(), |g: Glyph| g.contours().len()) as u16,
            max_component_points: 0,
            max_component_contours: 0,
            max_zones: 2,
            max_twilight_points: 0,
            max_storage: 0,
            max_function_defs: 0,
            max_instruction_defs: 0,
            max_stack_elements: 0,
            max_size_of_instructions: max_of(self.glyphs(), |g: Glyph| g.instructions().len()) as u16,
            max_component_elements: 1,
            max_component_depth: 1,
        }
    }

    /// The glyph table of `sprites`, whose glyphs become the glyphs 0, 1, 2
    /// and so on. Fails with what keeps the first sprite that cannot become
    /// a glyph from becoming one, and where there are more sprites than a
    /// font has room for glyphs.
    pub fn from(sprites: Vec<Sprite>) -> (r: Result<Glyf, FontError>)
        requires
            forall|i: int| 0 <= i < sprites@.len() ==> (#[trigger] sprites@[i])@.valid(),
        ensures
            match r {
                Ok(glyf) => {
                    &&& glyf_error(bitmaps(sprites@)) is None
                    &&& FontTable::wf(&glyf)
                    &&& glyf.glyphs().len() == sprites@.len()
                    &&& forall|i: int|
                        0 <= i < sprites@.len() ==> is_glyph_of(
                            #[trigger] glyf.glyphs()[i],
                            sprites@[i]@,
                        )
                },
                Err(e) => glyf_error(bitmaps(sprites@)) == Some(e),
            },
    {
        let ghost all = sprites@;
        let mut rest = sprites;
        let mut glyphs: Vec<Glyph> = Vec::new();
        let count = rest.len();
        let mut i: usize = 0;
        while i < count
            invariant
                i <= count,
                count == all.len(),
                rest@ == all.skip(i as int),
                all == sprites@,
                forall|k: int| 0 <= k < all.len() ==> (#[trigger] all[k])@.valid(),
                first_glyph_error(bitmaps(all), i as nat) is None,
                glyphs@.len() == i,
                forall|k: int| 0 <= k < i ==> is_glyph_of(#[trigger] glyphs@[k], all[k]@),
            decreases count - i,
        {
            let sprite = rest.remove(0);
            assert(sprite == all[i as int]);
            assert(sprite@.valid());
            match Glyph::from(sprite) {
                Ok(glyph) => {
                    assert(bitmaps(all)[i as int] == sprite@);
                    glyphs.push(glyph);
                },
                Err(e) => {
                    proof {
                        assert(bitmaps(all)[i as int] == sprite@);
                        assert(first_glyph_error(bitmaps(all), (i + 1) as nat) == Some(e));
                        lemma_first_glyph_error_stays(bitmaps(all), (i + 1) as nat, all.len());
                    }
                    return Err(e);
                },
            }
            i = i + 1;
            assert(rest@ =~= all.skip(i as int));
        }
        if glyphs.len() > 0xffff {
            return Err(FontError::TooLarge);
        }
        Ok(Glyf { glyphs })
    }

    /// A glyph table of `glyphs`, which become the glyphs 0, 1, 2 and so on.
    /// A font has room for 65535 glyphs.
    pub fn from_glyphs(glyphs: Vec<Glyph>) -> (r: Result<Glyf, FontError>)
        requires
            forall|i: int| 0 <= i < glyphs@.len() ==> (#[trigger] glyphs@[i]).wf(),
        ensures
            match r {
                Ok(glyf) => glyphs@.len() <= 0xffff && FontTable::wf(&glyf) && glyf.glyphs()
                    == glyphs@,
                Err(e) => glyphs@.len() > 0xffff && e == FontError::TooLarge,
            },
    {
        if glyphs.len() > 0xffff {
            return Err(FontError::TooLarge);
        }
        Ok(Glyf { glyphs })
    }

    /// The location table that goes with this glyph table: the offset of
    /// every glyph and of the table's end. Fails where an offset is beyond
    /// 32 bits.
    pub fn generate_loca(&self) -> (r: Result<Loca, FontError>)
        requires
            FontTable::wf(self),
        ensures
            match r {
                Ok(loca) => {
                    &&& FontTable::wf(&loca)
                    &&& loca.offsets().len() == self.glyphs().len() + 1
                    &&& forall|i: int|
                        0 <= i <= self.glyphs().len() ==> #[trigger] loca.offsets()[i]
                            == glyph_offsets(self.glyphs())[i]
                },
                Err(e) => e == FontError::TooLarge && glyf_bytes(self.glyphs()).len() > 0xffff_ffff,
            },
    {
        let mut offsets: Vec<usize> = Vec::new();
        offsets.push(0);
        let mut writer = CountWriter::from(Vec::new());
        let mut i: usize = 0;
        assert(self.glyphs@.take(0) == Seq::<Glyph>::empty());
        while i < self.glyphs.len()
            invariant
                i <= self.glyphs.len(),
                FontTable::wf(self),
                writer.wf(),
                writer.spec_count() == glyf_bytes(self.glyphs@.take(i as int)).len(),
                offsets@.len() == i + 1,
                forall|j: int|
                    0 <= j <= i ==> #[trigger] offsets@[j] == glyph_offsets(self.glyphs@)[j],
            decreases self.glyphs.len() - i,
        {
            let mut scratch: Vec<u8> = Vec::new();
            assert(self.glyphs@[i as int].wf());
            self.glyphs[i].write(&mut scratch);
            writer.write(scratch.as_slice());
            proof {
                let next = self.glyphs@.take(i + 1);
                assert(next.drop_last() == self.glyphs@.take(i as int));
                assert(next.last() == self.glyphs@[i as int]);
            }
            offsets.push(writer.count());
            i = i + 1;
        }
        proof {
            assert(self.glyphs@.take(i as int) == self.glyphs@);
            assert forall|j: int| 0 <= j <= i implies glyph_offsets(self.glyphs@)[j]
                <= glyf_bytes(self.glyphs@).len() by {
                lemma_glyf_bytes_monotonic(self.glyphs@, j);
            }
        }
        if writer.count() > 0xffff_ffff {
            return Err(FontError::TooLarge);
        }
        Ok(Loca::from(offsets))
    }

    /// The largest value of `f` over the glyphs, 0 where there are none.
    fn max_aspect<F: Fn(&Glyph) -> usize>(&self, f: F, Ghost(aspect): Ghost<
        spec_fn(Glyph) -> nat,
    >) -> (r: u16)
        requires
            forall|g: &Glyph| #[trigger] call_requires(f, (g,)),
            forall|g: &Glyph, n: usize| #[trigger] call_ensures(f, (g,), n) ==> n == aspect(*g),
            forall|i: int|
                0 <= i < self.glyphs().len() ==> aspect(#[trigger] self.glyphs()[i]) <= 0xffff,
        ensures
            r == max_of(self.glyphs(), aspect),
    {
        let mut best: usize = 0;
        let mut i: usize = 0;
        assert(self.glyphs@.take(0) == Seq::<Glyph>::empty());
        while i < self.glyphs.len()
            invariant
                i <= self.glyphs.len(),
                forall|g: &Glyph| #[trigger] call_requires(f, (g,)),
                forall|g: &Glyph, n: usize| #[trigger]
                    call_ensures(f, (g,), n) ==> n == aspect(*g),
                forall|j: int|
                    0 <= j < self.glyphs().len() ==> aspect(#[trigger] self.glyphs()[j]) <= 0xffff,
                best == max_of(self.glyphs@.take(i as int), aspect),
                best <= 0xffff,
            decreases self.glyphs.len() - i,
        {
            let value = f(&self.glyphs[i]);
            assert(aspect(self.glyphs()[i as int]) <= 0xffff);
            proof {
                let next = self.glyphs@.take(i + 1);
                assert(next.drop_last() == self.glyphs@.take(i as int));
                assert(next.last() == self.glyphs@[i as int]);
            }
            if value > best {
                best = value;
            }
            i = i + 1;
        }
        assert(self.glyphs@.take(i as int) == self.glyphs@);
        best as u16
    }

    /// The maxComponentDepth refers to the number of levels of recursion used in constructing
    /// the most complex compound glyph. The maximum legal value for maxComponentDepth is 16.
    /// If there are no components within components, all compound glyphs can be deemed simple
    /// and this field can be set to the value one.
    fn max_component_depth(&self) -> (r: u16)
        ensures
            r == 1,
    {
        1
    }

    /// The maximum profile that goes with this glyph table.
    pub fn generate_maxp(&self) -> (r: MaxP)
        requires
            FontTable::wf(self),
        ensures
            r == self.spec_maxp(),
    {
        let ghost points = |g: Glyph| point_total(g.contours());
        let ghost contours = |g: Glyph| g.contours().len();
        let ghost zero = |g: Glyph| 0nat;
        let ghost instructions = |g: Glyph| g.instructions().len();
        proof {
            assert forall|i: int| 0 <= i < self.glyphs().len() implies points(
                #[trigger] self.glyphs()[i],
            ) <= 0xffff && contours(self.glyphs()[i]) <= 0xffff && instructions(self.glyphs()[i])
                <= 0xffff by {
                assert(self.glyphs()[i].wf());
            }
            lemma_max_of_zero(self.glyphs());
        }
        MaxP {
            version: 0x00010000,
            num_glyphs: self.count_glyphs() as u16,
            max_points: self.max_aspect(Glyph::point_count, Ghost(points)),
            max_contours: self.max_aspect(Glyph::contour_count, Ghost(contours)),
            max_component_points: self.max_aspect(Glyph::component_point_count, Ghost(zero)),
            max_component_contours: self.max_aspect(Glyph::component_contour_count, Ghost(zero)),
            max_zones: 2,
            max_twilight_points: 0,
            max_storage: 0,
            max_function_defs: 0,
            max_instruction_defs: 0,
            max_stack_elements: 0,
            max_size_of_instructions: self.max_aspect(
                Glyph::instruction_byte_count,
                Ghost(instructions),
            ),
            max_component_elements: 1,
            max_component_depth: self.max_component_depth(),
        }
    }

    /// Whether the table can be written: every glyph can be encoded, and
    /// there are at most 65535 of them.
    pub fn is_wf(&self) -> (r: bool)
        ensures
            r == FontTable::wf(self),
    {
        if self.glyphs.len() > 0xffff {
            return false;
        }
        let mut i: usize = 0;
        while i < self.glyphs.len()
            invariant
                i <= self.glyphs.len(),
                self.glyphs@.len() <= 0xffff,
                forall|k: int| 0 <= k < i ==> (#[trigger] self.glyphs()[k]).wf(),
            decreases self.glyphs.len() - i,
        {
            if !self.glyphs[i].is_wf() {
                assert(!self.glyphs()[i as int].wf());
                return false;
            }
            i = i + 1;
        }
        true
    }

    /// The number of glyphs.
    pub fn count_glyphs(&self) -> (n: usize)
        ensures
            n == self.glyphs().len(),
    {
        self.glyphs.len()
    }
}

/// The largest of nothing but zeros is zero.
proof fn lemma_max_of_zero(glyphs: Seq<Glyph>)
    ensures
        max_of(glyphs, |g: Glyph| 0nat) == 0,
    decreases glyphs.len(),
{
    if glyphs.len() > 0 {
        lemma_max_of_zero(glyphs.drop_last());
    }
}

/// The glyph table grows with every glyph: no glyph starts behind its end.
pub proof fn lemma_glyf_bytes_monotonic(glyphs: Seq<Glyph>, n: int)
    requires
        0 <= n <= glyphs.len(),
    ensures
        glyf_bytes(glyphs.take(n)).len() <= glyf_bytes(glyphs).len(),
    decreases glyphs.len(),
{
    if n == glyphs.len() {
        assert(glyphs.take(n) == glyphs);
    } else {
        lemma_glyf_bytes_monotonic(glyphs.drop_last(), n);
        assert(glyphs.drop_last().take(n) == glyphs.take(n));
    }
}

impl FontTable for Glyf {
    open spec fn spec_tag() -> Seq<u8> {
        seq![0x67u8, 0x6cu8, 0x79u8, 0x66u8]
    }

    /// Every glyph can be encoded, and there are at most 65535 of them.
    open spec fn wf(&self) -> bool {
        &&& self.glyphs().len() <= 0xffff
        &&& forall|i: int| 0 <= i < self.glyphs().len() ==> (#[trigger] self.glyphs()[i]).wf()
    }

    open spec fn table_bytes(&self) -> Seq<u8> {
        glyf_bytes(self.glyphs())
    }

    fn tag() -> (tag: [u8; 4]) {
        [0x67, 0x6c, 0x79, 0x66]
    }

    fn write(&self, writer: &mut TableWriter) {
        let mut i: usize = 0;
        assert(self.glyphs@.take(0) == Seq::<Glyph>::empty());
        while i < self.glyphs.len()
            invariant
                i <= self.glyphs.len(),
                self.wf(),
                writer.wf(),
                writer.stream() == old(writer).stream() + glyf_bytes(self.glyphs@.take(i as int)),
                writer.sink() == old(writer).sink() + glyf_bytes(self.glyphs@.take(i as int)),
            decreases self.glyphs.len() - i,
        {
            let mut scratch: Vec<u8> = Vec::new();
            assert(self.glyphs@[i as int].wf());
            self.glyphs[i].write(&mut scratch);
            writer.write(scratch.as_slice());
            proof {
                let next = self.glyphs@.take(i + 1);
                assert(next.drop_last() == self.glyphs@.take(i as int));
                assert(next.last() == self.glyphs@[i as int]);
            }
            i = i + 1;
        }
        assert(self.glyphs@.take(i as int) == self.glyphs@);
    }
}

/// Glyph tables of glyphs that are encoded alike are the same.
pub proof fn lemma_glyf_bytes_agree(a: Seq<Glyph>, b: Seq<Glyph>)
    requires
        a.len() == b.len(),
        forall|i: int| 0 <= i < a.len() ==> (#[trigger] a[i]).spec_bytes() == b[i].spec_bytes(),
    ensures
        glyf_bytes(a) == glyf_bytes(b),
    decreases a.len(),
{
    if a.len() > 0 {
        assert(a.last().spec_bytes() == b.last().spec_bytes());
        assert forall|i: int| 0 <= i < a.drop_last().len() implies (#[trigger] a.drop_last()[i]).spec_bytes()
            == b.drop_last()[i].spec_bytes() by {
            assert(a[i].spec_bytes() == b[i].spec_bytes());
        }
        lemma_glyf_bytes_agree(a.drop_last(), b.drop_last());
    }
}

/// Glyphs that agree in an aspect one by one agree in its maximum.
pub proof fn lemma_max_of_agree(a: Seq<Glyph>, b: Seq<Glyph>, aspect: spec_fn(Glyph) -> nat)
    requires
        a.len() == b.len(),
        forall|i: int| 0 <= i < a.len() ==> aspect(#[trigger] a[i]) == aspect(b[i]),
    ensures
        max_of(a, aspect) == max_of(b, aspect),
    decreases a.len(),
{
    if a.len() > 0 {
        assert(aspect(a[a.len() - 1]) == aspect(b[a.len() - 1]));
        assert forall|i: int| 0 <= i < a.drop_last().len() implies aspect(
            #[trigger] a.drop_last()[i],
        ) == aspect(b.drop_last()[i]) by {
            assert(aspect(a[i]) == aspect(b[i]));
        }
        lemma_max_of_agree(a.drop_last(), b.drop_last(), aspect);
    }
}

} // verus!
