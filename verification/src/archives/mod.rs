//! Figures as stored text: one point per line, each line holding the
//! point's kind, its two coordinates, the index of the point it hangs on
//! and its own index; and the codecs that pack such text.

pub mod text;

use crate::archives::text::{
    coordinate_of, count_of, decimal_repr, int_text, nat_text, parse_decimal, parse_signed,
    parse_unsigned, pieces, push_decimal, push_int, push_nat, split, split_bytes, whole_of,
};
use crate::figure::edge::{Edge, EdgeFormat};
use crate::figure::order::parents_first;
use crate::figure::{centered, parents_of, resorted, well_formed, Figure};
use crate::maths::Vector2;
use std::io::Read;
use std::io::Write;
use vstd::prelude::*;

verus! {

/// A point of a stored figure.
#[derive(Clone, Copy, Debug, PartialEq, Eq, Structural)]
pub struct Point {
    /// In thousandths.
    pub x: i64,
    /// In thousandths.
    pub y: i64,
    /// 1 for a line, 2 for a circle.
    pub typ: isize,
    /// The index of the point that this one hangs on.
    pub parent: usize,
    /// This point's own index; 0 is the figure's origin.
    pub index: usize,
}

/// How stored bytes are packed.
#[derive(Clone, Copy, Debug, PartialEq, Eq, Structural)]
pub enum FileEncoding {
    RAW,
    ZLIB,
    GZIP,
}

/// Why stored bytes gave no figure.
#[derive(Clone, Copy, Debug, PartialEq, Eq, Structural)]
pub enum ArchiveError {
    /// A line has not five fields, or a field is no number of its kind.
    ParseError,
    /// A point hangs on a point that no earlier line defines.
    InvalidIndex,
    /// The bytes are not what the codec packs, or the codec failed.
    Corrupt,
}

/// The line is a remark: it begins with `//` or with `#`.
pub open spec fn is_comment(row: Seq<u8>) -> bool {
    (row.len() >= 2 && row[0] == 47 && row[1] == 47) || (row.len() >= 1 && row[0] == 35)
}

/// The line holds no point: it is empty or a remark.
pub open spec fn is_skipped(row: Seq<u8>) -> bool {
    row.len() == 0 || is_comment(row)
}

/// The point that a line writes, if it writes one: five fields between
/// commas, each a number of its kind.
pub open spec fn row_point(row: Seq<u8>) -> Option<Point> {
    let fields = split(row, 44);
    if fields.len() == 5 && whole_of(fields[0]).is_some() && coordinate_of(fields[1]).is_some()
        && coordinate_of(fields[2]).is_some() && count_of(fields[3]).is_some() && count_of(
        fields[4],
    ).is_some() {
        Some(
            Point {
                typ: whole_of(fields[0]).unwrap(),
                x: coordinate_of(fields[1]).unwrap(),
                y: coordinate_of(fields[2]).unwrap(),
                parent: count_of(fields[3]).unwrap(),
                index: count_of(fields[4]).unwrap(),
            },
        )
    } else {
        None
    }
}

/// The points that the first `k` lines write, in order; `None` if one of
/// those lines is neither skipped nor a point.
pub open spec fn rows_points(rows: Seq<Seq<u8>>, k: nat) -> Option<Seq<Point>>
    decreases k,
{
    if k == 0 || k > rows.len() {
        Some(Seq::empty())
    } else {
        match rows_points(rows, (k - 1) as nat) {
            None => None,
            Some(points) => if is_skipped(rows[k - 1]) {
                Some(points)
            } else {
                match row_point(rows[k - 1]) {
                    Some(point) => Some(points.push(point)),
                    None => None,
                }
            },
        }
    }
}

/// The points that a text writes, line by line.
pub open spec fn text_points(raw: Seq<u8>) -> Option<Seq<Point>> {
    rows_points(split(raw, 10), split(raw, 10).len())
}

/// Among the first `k` points, the place of the first whose index is
/// `index`; -1 if there is none.
pub open spec fn defined_at(points: Seq<Point>, index: usize, k: int) -> int
    decreases k,
{
    if k <= 0 || k > points.len() {
        -1
    } else {
        let earlier = defined_at(points, index, k - 1);
        if earlier >= 0 {
            earlier
        } else if points[k - 1].index == index {
            k - 1
        } else {
            -1
        }
    }
}

/// How many of the first `k` points are not the origin: as many segments
/// these points make.
pub open spec fn segments_before(points: Seq<Point>, k: int) -> int
    decreases k,
{
    if k <= 0 || k > points.len() {
        0
    } else {
        segments_before(points, k - 1) + if points[k - 1].index == 0 {
            0int
        } else {
            1int
        }
    }
}

/// The segment that the point at `place` makes: from the point it hangs
/// on, found at `hold`, to itself. It hangs on the segment that the point
/// at `hold` made, or is a root if that point is the origin.
pub open spec fn point_edge(points: Seq<Point>, place: int, hold: int) -> Edge {
    Edge::fresh(
        Vector2 { x: points[hold].x, y: points[hold].y },
        Vector2 { x: points[place].x, y: points[place].y },
        if points[hold].index == 0 {
            -1isize
        } else {
            segments_before(points, hold) as isize
        },
        EdgeFormat::of_code(points[place].typ as int),
    )
}

/// The segments that the first `k` points make, in order: one for every
/// point that is not the origin. `None` if one of them hangs on a point
/// that no earlier line defines.
pub open spec fn points_edges(points: Seq<Point>, k: nat) -> Option<Seq<Edge>>
    decreases k,
{
    if k == 0 || k > points.len() {
        Some(Seq::empty())
    } else {
        match points_edges(points, (k - 1) as nat) {
            None => None,
            Some(edges) => if points[k - 1].index == 0 {
                Some(edges)
            } else {
                let hold = defined_at(points, points[k - 1].parent, k - 1);
                if hold < 0 {
                    None
                } else {
                    Some(edges.push(point_edge(points, k - 1, hold)))
                }
            },
        }
    }
}

/// Every coordinate of every point is in bounds.
pub open spec fn points_in_bounds(points: Seq<Point>) -> bool {
    forall|i: int|
        0 <= i < points.len() ==> crate::maths::coord_in_bounds((#[trigger] points[i]).x as int)
            && crate::maths::coord_in_bounds(points[i].y as int)
}

/// Reads one line that should hold a point.
pub fn parse_row(row: &[u8]) -> (parsed: Option<Point>)
    ensures
        parsed == row_point(row@),
        parsed matches Some(p) ==> crate::maths::coord_in_bounds(p.x as int)
            && crate::maths::coord_in_bounds(p.y as int),
{
    let fields = split_bytes(row, 44);
    if fields.len() != 5 {
        return None;
    }
    assert(pieces(fields@)[0] == fields@[0]@);
    assert(pieces(fields@)[1] == fields@[1]@);
    assert(pieces(fields@)[2] == fields@[2]@);
    assert(pieces(fields@)[3] == fields@[3]@);
    assert(pieces(fields@)[4] == fields@[4]@);
    let typ = match parse_signed(fields[0].as_slice()) {
        Some(v) => v,
        None => {
            return None;
        },
    };
    let x = match parse_decimal(fields[1].as_slice()) {
        Some(v) => v,
        None => {
            return None;
        },
    };
    let y = match parse_decimal(fields[2].as_slice()) {
        Some(v) => v,
        None => {
            return None;
        },
    };
    let parent = match parse_unsigned(fields[3].as_slice()) {
        Some(v) => v,
        None => {
            return None;
        },
    };
    let index = match parse_unsigned(fields[4].as_slice()) {
        Some(v) => v,
        None => {
            return None;
        },
    };
    Some(Point { x, y, typ, parent, index })
}

/// Whether a line holds no point.
pub fn skips(row: &[u8]) -> (skipped: bool)
    ensures
        skipped == is_skipped(row@),
{
    row.len() == 0 || row[0] == 35 || (row.len() >= 2 && row[0] == 47 && row[1] == 47)
}

/// Reads the points of a stored figure.
pub fn parse_points(raw: &[u8]) -> (parsed: Result<Vec<Point>, ArchiveError>)
    ensures
        match parsed {
            Ok(points) => text_points(raw@) == Some(points@) && points_in_bounds(points@)
                && points@.len() <= split(raw@, 10).len(),
            Err(e) => e == ArchiveError::ParseError && text_points(raw@).is_none(),
        },
{
    let rows = split_bytes(raw, 10);
    let mut points: Vec<Point> = Vec::new();
    let mut k: usize = 0;
    while k < rows.len()
        invariant
            k <= rows.len(),
            pieces(rows@) == split(raw@, 10),
            rows_points(pieces(rows@), k as nat) == Some(points@),
            points_in_bounds(points@),
            points@.len() <= k,
        decreases rows.len() - k,
    {
        assert(pieces(rows@)[k as int] == rows@[k as int]@);
        if !skips(rows[k].as_slice()) {
            match parse_row(rows[k].as_slice()) {
                Some(point) => {
                    points.push(point);
                },
                None => {
                    proof {
                        lemma_rows_points_none(pieces(rows@), (k + 1) as nat, rows@.len() as nat);
                    }
                    return Err(ArchiveError::ParseError);
                },
            }
        }
        k += 1;
    }
    Ok(points)
}

/// The points of a figure as they are stored: the origin, which is where
/// the first segment starts, then the end point of every segment in
/// storage order. Point `i + 1` stands for segment `i` and hangs on the
/// point of that segment's parent, or on the origin.
pub open spec fn figure_points(tree: Seq<Edge>) -> Seq<Point> {
    Seq::new(
        tree.len() + 1,
        |i: int|
            if i == 0 {
                Point {
                    x: tree[0].start.x,
                    y: tree[0].start.y,
                    typ: tree[0].format.spec_code() as isize,
                    parent: 0,
                    index: 0,
                }
            } else {
                Point {
                    x: tree[i - 1].end.x,
                    y: tree[i - 1].end.y,
                    typ: tree[i - 1].format.spec_code() as isize,
                    parent: (tree[i - 1].parent + 1) as usize,
                    index: i as usize,
                }
            },
    )
}

/// The five fields of a point, with commas between them.
pub open spec fn point_row(p: Point) -> Seq<u8> {
    int_text(p.typ as int) + seq![44u8] + decimal_repr(p.x as int) + seq![44u8] + decimal_repr(
        p.y as int,
    ) + seq![44u8] + nat_text(p.parent as nat) + seq![44u8] + nat_text(p.index as nat)
}

/// The line that stores a point.
pub open spec fn point_line(p: Point) -> Seq<u8> {
    point_row(p) + seq![10u8]
}

/// The lines that store the first `k` points.
pub open spec fn points_text(points: Seq<Point>, k: nat) -> Seq<u8>
    decreases k,
{
    if k == 0 || k > points.len() {
        Seq::empty()
    } else {
        points_text(points, (k - 1) as nat) + point_line(points[k - 1])
    }
}

/// What `flate2::read::GzDecoder` reads out of the given bytes, to the
/// end; `None` where it reports an error.
pub uninterp spec fn gzip_decoded(bytes: Seq<u8>) -> Option<Seq<u8>>;

/// What `flate2::read::ZlibDecoder` reads out of the given bytes, to the
/// end; `None` where it reports an error.
pub uninterp spec fn zlib_decoded(bytes: Seq<u8>) -> Option<Seq<u8>>;

/// What `flate2::write::GzEncoder`, at its default level, has written once
/// it was given the bytes and finished; `None` where it reports an error.
pub uninterp spec fn gzip_encoded(bytes: Seq<u8>) -> Option<Seq<u8>>;

/// What `flate2::write::ZlibEncoder`, at its default level, has written
/// once it was given the bytes and finished; `None` where it reports an
/// error.
pub uninterp spec fn zlib_encoded(bytes: Seq<u8>) -> Option<Seq<u8>>;

/// The bytes that an optional byte vector holds.
pub open spec fn held(bytes: Option<Vec<u8>>) -> Option<Seq<u8>> {
    match bytes {
        Some(v) => Some(v@),
        None => None,
    }
}

/// Unpacks a gzip stream: reads a `flate2::read::GzDecoder` over the bytes
/// to the end. Nothing is claimed of the result but that it depends on the
/// bytes alone.
#[verifier::external_body]
fn gzip_decode(bytes: &[u8]) -> (out: Option<Vec<u8>>)
    ensures
        held(out) == gzip_decoded(bytes@),
{
    let mut out = Vec::new();
    match flate2::read::GzDecoder::new(bytes).read_to_end(&mut out) {
        Ok(_) => Some(out),
        Err(_) => None,
    }
}

/// Unpacks a zlib stream: reads a `flate2::read::ZlibDecoder` over the
/// bytes to the end. Nothing is claimed of the result but that it depends
/// on the bytes alone.
#[verifier::external_body]
fn zlib_decode(bytes: &[u8]) -> (out: Option<Vec<u8>>)
    ensures
        held(out) == zlib_decoded(bytes@),
{
    let mut out = Vec::new();
    match flate2::read::ZlibDecoder::new(bytes).read_to_end(&mut out) {
        Ok(_) => Some(out),
        Err(_) => None,
    }
}

/// Packs bytes into a gzip stream: writes them all to a
/// `flate2::write::GzEncoder` of the default level and takes what it has
/// written when it finishes. Nothing is claimed of the result but that it
/// depends on the bytes alone.
#[verifier::external_body]
fn gzip_encode(bytes: &[u8]) -> (out: Option<Vec<u8>>)
    ensures
        held(out) == gzip_encoded(bytes@),
{
    let mut encoder = flate2::write::GzEncoder::new(Vec::new(), flate2::Compression::default());
    match encoder.write_all(bytes) {
        Ok(()) => encoder.finish().ok(),
        Err(_) => None,
    }
}

/// Packs bytes into a zlib stream: writes them all to a
/// `flate2::write::ZlibEncoder` of the default level and takes what it has
/// written when it finishes. Nothing is claimed of the result but that it
/// depends on the bytes alone.
#[verifier::external_body]
fn zlib_encode(bytes: &[u8]) -> (out: Option<Vec<u8>>)
    ensures
        held(out) == zlib_encoded(bytes@),
{
    let mut encoder = flate2::write::ZlibEncoder::new(Vec::new(), flate2::Compression::default());
    match encoder.write_all(bytes) {
        Ok(()) => encoder.finish().ok(),
        Err(_) => None,
    }
}

/// What the codec unpacks the bytes to; raw bytes are what they are.
pub open spec fn decoded(bytes: Seq<u8>, encoding: FileEncoding) -> Option<Seq<u8>> {
    match encoding {
        FileEncoding::RAW => Some(bytes),
        FileEncoding::GZIP => gzip_decoded(bytes),
        FileEncoding::ZLIB => zlib_decoded(bytes),
    }
}

/// What the codec packs the bytes to; raw bytes are what they are.
pub open spec fn encoded(bytes: Seq<u8>, encoding: FileEncoding) -> Option<Seq<u8>> {
    match encoding {
        FileEncoding::RAW => Some(bytes),
        FileEncoding::GZIP => gzip_encoded(bytes),
        FileEncoding::ZLIB => zlib_encoded(bytes),
    }
}

/// Unpacks stored bytes.
pub fn decode(bytes: &[u8], encoding: FileEncoding) -> (out: Result<Vec<u8>, ArchiveError>)
    ensures
        match out {
            Ok(text) => decoded(bytes@, encoding) == Some(text@),
            Err(e) => e == ArchiveError::Corrupt && decoded(bytes@, encoding).is_none(),
        },
{
    let unpacked = match encoding {
        FileEncoding::RAW => {
            let copy = crate::archives::text::copy_range(bytes, 0, bytes.len());
            assert(copy@ == bytes@);
            Some(copy)
        },
        FileEncoding::GZIP => gzip_decode(bytes),
        FileEncoding::ZLIB => zlib_decode(bytes),
    };
    match unpacked {
        Some(text) => Ok(text),
        None => Err(ArchiveError::Corrupt),
    }
}

/// Packs bytes to store.
pub fn encode(text: &[u8], encoding: FileEncoding) -> (out: Result<Vec<u8>, ArchiveError>)
    ensures
        match out {
            Ok(bytes) => encoded(text@, encoding) == Some(bytes@),
            Err(e) => e == ArchiveError::Corrupt && encoded(text@, encoding).is_none(),
        },
{
    let packed = match encoding {
        FileEncoding::RAW => {
            let copy = crate::archives::text::copy_range(text, 0, text.len());
            assert(copy@ == text@);
            Some(copy)
        },
        FileEncoding::GZIP => gzip_encode(text),
        FileEncoding::ZLIB => zlib_encode(text),
    };
    match packed {
        Some(bytes) => Ok(bytes),
        None => Err(ArchiveError::Corrupt),
    }
}

/// The figure that points make: see [`points_edges`]. The segments are put
/// into storage order.
pub fn points_to_figure(points: &Vec<Point>) -> (made: Result<Figure, ArchiveError>)
    requires
        points_in_bounds(points@),
        points@.len() <= isize::MAX,
    ensures
        match made {
            Ok(figure) => {
                &&& points_edges(points@, points@.len()) matches Some(edges)
                &&& parents_first(parents_of(edges))
                &&& figure@ == resorted(edges)
                &&& figure.wf()
                &&& figure.should_update
                &&& figure.draw_option.point
                &&& figure.selected.is_none()
                &&& figure.tmp_edge.is_none()
                &&& !figure.pressed
                &&& !figure.presset_root
            },
            Err(e) => e == ArchiveError::InvalidIndex && points_edges(
                points@,
                points@.len(),
            ).is_none(),
        },
{
    let n = points.len();
    let mut edges: Vec<Edge> = Vec::new();
    let mut before: Vec<usize> = Vec::new();
    let mut k: usize = 0;
    while k < n
        invariant
            k <= n,
            n == points@.len(),
            n <= isize::MAX,
            points_in_bounds(points@),
            points_edges(points@, k as nat) == Some(edges@),
            edges@.len() == segments_before(points@, k as int),
            edges@.len() <= k,
            before@.len() == k,
            forall|j: int|
                0 <= j < k ==> #[trigger] before@[j] == segments_before(points@, j) && (
                points@[j].index != 0 ==> before@[j] < edges@.len()),
            forall|i: int|
                0 <= i < edges@.len() ==> -1 <= (#[trigger] edges@[i]).parent < i
                    && edges@[i].in_bounds(),
        decreases n - k,
    {
        let point: Point = points[k];
        before.push(edges.len());
        if point.index != 0 {
            let mut hold: usize = 0;
            while hold < k && points[hold].index != point.parent
                invariant
                    hold <= k <= n,
                    n == points@.len(),
                    defined_at(points@, point.parent, hold as int) == -1,
                decreases k - hold,
            {
                hold += 1;
            }
            if hold == k {
                proof {
                    lemma_points_edges_none(points@, (k + 1) as nat, n as nat);
                }
                return Err(ArchiveError::InvalidIndex);
            }
            proof {
                lemma_defined_at(points@, point.parent, hold as int, k as int);
            }
            let from: Point = points[hold];
            let parent: isize = if from.index == 0 {
                -1
            } else {
                before[hold] as isize
            };
            let edge = Edge::new(
                Vector2 { x: from.x, y: from.y },
                Vector2 { x: point.x, y: point.y },
                parent,
                point.typ,
            );
            assert(edge == point_edge(points@, k as int, hold as int));
            edges.push(edge);
        }
        k += 1;
    }
    proof {
        assert forall|i: int| 0 <= i < edges@.len() implies -1 <= #[trigger] parents_of(edges@)[i]
            < i by {
            assert(parents_of(edges@)[i] == edges@[i].parent);
        }
        crate::figure::order::lemma_parents_first_forest(parents_of(edges@));
    }
    match Figure::new(edges) {
        Ok(figure) => Ok(figure),
        Err(_) => {
            assert(false);
            Err(ArchiveError::InvalidIndex)
        },
    }
}

/// Among the first `k` points, the first with the given index is at
/// `hold` if none before `hold` has it and the point at `hold` has.
pub proof fn lemma_defined_at(points: Seq<Point>, index: usize, hold: int, k: int)
    requires
        0 <= hold < k <= points.len(),
        defined_at(points, index, hold) == -1,
        points[hold].index == index,
    ensures
        defined_at(points, index, k) == hold,
    decreases k - hold,
{
    if k > hold + 1 {
        lemma_defined_at(points, index, hold, k - 1);
    }
}

/// Once the first points fail to give segments, more points do not mend
/// it.
pub proof fn lemma_points_edges_none(points: Seq<Point>, k: nat, n: nat)
    requires
        k <= n <= points.len(),
        points_edges(points, k).is_none(),
    ensures
        points_edges(points, n).is_none(),
    decreases n - k,
{
    if k < n {
        lemma_points_edges_none(points, k, (n - 1) as nat);
    }
}

/// Reads a stored figure: its points, line by line, and the figure that
/// they make. More lines than the machine can count segments for are
/// refused like a line that is no point.
pub fn raw_to_figure(raw: &[u8]) -> (made: Result<Figure, ArchiveError>)
    ensures
        match made {
            Ok(figure) => {
                &&& text_points(raw@) matches Some(points)
                &&& points_edges(points, points.len()) matches Some(edges)
                &&& figure@ == resorted(edges)
                &&& figure.wf()
                &&& figure.should_update
                &&& figure.draw_option.point
                &&& figure.selected.is_none()
                &&& figure.tmp_edge.is_none()
                &&& !figure.pressed
                &&& !figure.presset_root
            },
            Err(ArchiveError::ParseError) => text_points(raw@) matches Some(points) ==> points.len()
                > isize::MAX,
            Err(ArchiveError::InvalidIndex) => {
                &&& text_points(raw@) matches Some(points)
                &&& points_edges(points, points.len()).is_none()
            },
            Err(ArchiveError::Corrupt) => false,
        },
{
    let points = match parse_points(raw) {
        Ok(points) => points,
        Err(_) => {
            return Err(ArchiveError::ParseError);
        },
    };
    if points.len() > isize::MAX as usize {
        return Err(ArchiveError::ParseError);
    }
    points_to_figure(&points)
}

/// The points with every coordinate moved by `center` and clamped into
/// the coordinate bounds.
pub open spec fn moved_points(points: Seq<Point>, center: Vector2) -> Seq<Point> {
    Seq::new(
        points.len(),
        |i: int|
            Point {
                x: crate::maths::clamp(points[i].x + center.x) as i64,
                y: crate::maths::clamp(points[i].y + center.y) as i64,
                ..points[i]
            },
    )
}

/// Reads a stored figure as [`raw_to_figure`] does, with every point moved
/// by `center`.
pub fn import_from_raw(raw: &[u8], center: Vector2) -> (made: Result<Figure, ArchiveError>)
    ensures
        match made {
            Ok(figure) => {
                &&& text_points(raw@) matches Some(points)
                &&& points_edges(moved_points(points, center), points.len()) matches Some(edges)
                &&& figure@ == resorted(edges)
                &&& figure.wf()
            },
            Err(ArchiveError::ParseError) => text_points(raw@) matches Some(points) ==> points.len()
                > isize::MAX,
            Err(ArchiveError::InvalidIndex) => {
                &&& text_points(raw@) matches Some(points)
                &&& points_edges(moved_points(points, center), points.len()).is_none()
            },
            Err(ArchiveError::Corrupt) => false,
        },
{
    let points = match parse_points(raw) {
        Ok(points) => points,
        Err(_) => {
            return Err(ArchiveError::ParseError);
        },
    };
    if points.len() > isize::MAX as usize {
        return Err(ArchiveError::ParseError);
    }
    let mut moved: Vec<Point> = Vec::new();
    let mut i: usize = 0;
    while i < points.len()
        invariant
            i <= points.len(),
            moved@.len() == i,
            forall|j: int| 0 <= j < i ==> #[trigger] moved@[j] == moved_points(points@, center)[j],
            points_in_bounds(moved@),
        decreases points.len() - i,
    {
        let p: Point = points[i];
        let at = crate::figure::edge::shift(Vector2 { x: p.x, y: p.y }, center);
        moved.push(Point { x: at.x, y: at.y, ..p });
        i += 1;
    }
    assert(moved@ =~= moved_points(points@, center));
    points_to_figure(&moved)
}

/// The points that store a figure: see [`figure_points`]. The figure is
/// first moved so that its origin is the origin of the plane.
pub fn figure_to_raw(figure: Figure) -> (points: Vec<Point>)
    requires
        figure.wf(),
        figure@.len() > 0,
    ensures
        points@ == figure_points(centered(figure@, Vector2 { x: 0, y: 0 })),
        points_in_bounds(points@),
{
    points_of(&figure)
}

/// The points that store a figure, as [`figure_to_raw`] gives them; the
/// figure itself stays where it is.
pub fn points_of(figure: &Figure) -> (points: Vec<Point>)
    requires
        figure.wf(),
        figure@.len() > 0,
    ensures
        points@ == figure_points(centered(figure@, Vector2 { x: 0, y: 0 })),
        points_in_bounds(points@),
{
    let ghost tree = centered(figure@, Vector2 { x: 0, y: 0 });
    let n = figure.tree.len();
    let first: Edge = figure.tree[0];
    assert(first.in_bounds());
    let by = Vector2 { x: 0 - first.start.x, y: 0 - first.start.y };
    let mut points: Vec<Point> = Vec::new();
    points.push(
        Point {
            x: crate::maths::clamp_coord(first.start.x + by.x),
            y: crate::maths::clamp_coord(first.start.y + by.y),
            typ: first.format.code(),
            parent: 0,
            index: 0,
        },
    );
    let mut i: usize = 0;
    while i < n
        invariant
            i <= n,
            0 < n,
            n == figure@.len(),
            tree == centered(figure@, Vector2 { x: 0, y: 0 }),
            by == crate::figure::edge::offset(figure@[0].start, Vector2 { x: 0, y: 0 }),
            -crate::maths::LIMIT <= by.x <= crate::maths::LIMIT,
            -crate::maths::LIMIT <= by.y <= crate::maths::LIMIT,
            figure.wf(),
            points@.len() == i + 1,
            forall|j: int| 0 <= j <= i ==> #[trigger] points@[j] == figure_points(tree)[j],
            points_in_bounds(points@),
        decreases n - i,
    {
        let edge: Edge = figure.tree[i];
        assert(edge.in_bounds());
        assert(parents_of(figure@)[i as int] == edge.parent);
        points.push(
            Point {
                x: crate::maths::clamp_coord(edge.end.x + by.x),
                y: crate::maths::clamp_coord(edge.end.y + by.y),
                typ: edge.format.code(),
                parent: (edge.parent + 1) as usize,
                index: i + 1,
            },
        );
        i += 1;
    }
    assert(points@ =~= figure_points(tree));
    points
}

/// Writes the line that stores a point at the end of `out`.
pub fn push_point(out: &mut Vec<u8>, p: Point)
    ensures
        final(out)@ == old(out)@ + point_line(p),
{
    let ghost s0 = out@;
    let ghost l1 = int_text(p.typ as int);
    let ghost l2 = l1 + seq![44u8];
    let ghost l3 = l2 + decimal_repr(p.x as int);
    let ghost l4 = l3 + seq![44u8];
    let ghost l5 = l4 + decimal_repr(p.y as int);
    let ghost l6 = l5 + seq![44u8];
    let ghost l7 = l6 + nat_text(p.parent as nat);
    let ghost l8 = l7 + seq![44u8];
    let ghost l9 = l8 + nat_text(p.index as nat);
    push_int(out, p.typ as i64);
    assert(out@ == s0 + l1);
    out.push(44);
    assert(out@ =~= s0 + l2);
    push_decimal(out, p.x);
    assert(out@ =~= s0 + l3);
    out.push(44);
    assert(out@ =~= s0 + l4);
    push_decimal(out, p.y);
    assert(out@ =~= s0 + l5);
    out.push(44);
    assert(out@ =~= s0 + l6);
    push_nat(out, p.parent as u64);
    assert(out@ =~= s0 + l7);
    out.push(44);
    assert(out@ =~= s0 + l8);
    push_nat(out, p.index as u64);
    assert(out@ =~= s0 + l9);
    out.push(10);
    assert(out@ =~= s0 + (l9 + seq![10u8]));
}

/// Writes the lines that store the points.
pub fn render_points(points: &Vec<Point>) -> (out: Vec<u8>)
    ensures
        out@ == points_text(points@, points@.len()),
{
    let mut out: Vec<u8> = Vec::new();
    let mut k: usize = 0;
    while k < points.len()
        invariant
            k <= points.len(),
            out@ == points_text(points@, k as nat),
        decreases points.len() - k,
    {
        push_point(&mut out, points[k]);
        k += 1;
    }
    out
}

/// Unpacks stored bytes and reads the figure they hold.
pub fn import_figure(bytes: &[u8], encoding: FileEncoding) -> (made: Result<Figure, ArchiveError>)
    ensures
        match made {
            Ok(figure) => {
                &&& decoded(bytes@, encoding) matches Some(raw)
                &&& text_points(raw) matches Some(points)
                &&& points_edges(points, points.len()) matches Some(edges)
                &&& figure@ == resorted(edges)
                &&& figure.wf()
            },
            Err(ArchiveError::Corrupt) => decoded(bytes@, encoding).is_none(),
            Err(ArchiveError::ParseError) => {
                &&& decoded(bytes@, encoding) matches Some(raw)
                &&& text_points(raw) matches Some(points) ==> points.len() > isize::MAX
            },
            Err(ArchiveError::InvalidIndex) => {
                &&& decoded(bytes@, encoding) matches Some(raw)
                &&& text_points(raw) matches Some(points)
                &&& points_edges(points, points.len()).is_none()
            },
        },
{
    match decode(bytes, encoding) {
        Ok(raw) => raw_to_figure(raw.as_slice()),
        Err(_) => Err(ArchiveError::Corrupt),
    }
}

/// The bytes that store a figure: its lines, packed.
pub fn export_figure(figure: Figure, encoding: FileEncoding) -> (out: Result<
    Vec<u8>,
    ArchiveError,
>)
    requires
        figure.wf(),
        figure@.len() > 0,
    ensures
        ({
            let points = figure_points(centered(figure@, Vector2 { x: 0, y: 0 }));
            let raw = points_text(points, points.len());
            match out {
                Ok(bytes) => encoded(raw, encoding) == Some(bytes@),
                Err(e) => e == ArchiveError::Corrupt && encoded(raw, encoding).is_none(),
            }
        }),
{
    let points = figure_to_raw(figure);
    let raw = render_points(&points);
    encode(raw.as_slice(), encoding)
}

/// The segment at `i` starts where its parent ends, or, if it is a root,
/// where the first segment starts.
pub open spec fn hangs_at(tree: Seq<Edge>, i: int) -> bool {
    tree[i].start == if tree[i].parent >= 0 {
        tree[tree[i].parent as int].end
    } else {
        tree[0].start
    }
}

/// Every segment starts where its parent ends, and every root where the
/// first segment starts: the figure hangs together.
pub open spec fn joined(tree: Seq<Edge>) -> bool {
    forall|i: int| 0 <= i < tree.len() ==> #[trigger] hangs_at(tree, i)
}

/// Nothing of the segment is grabbed or moving, and no turn is remembered.
pub open spec fn rests(edge: Edge) -> bool {
    !edge.pressed_start && !edge.pressed_end && !edge.moved && edge.moved_angle == (Vector2 {
        x: 0,
        y: 0,
    })
}

/// Nothing of the figure is grabbed or moving, and no turn is remembered.
pub open spec fn idle(tree: Seq<Edge>) -> bool {
    forall|i: int| 0 <= i < tree.len() ==> rests(#[trigger] tree[i])
}

/// Among the stored points of a figure, the point with a given index is at
/// the place of that index, and before place `k` there are `k - 1` points
/// that make a segment.
pub proof fn lemma_figure_points_places(tree: Seq<Edge>, index: usize, k: int)
    requires
        tree.len() < isize::MAX,
        0 <= k <= tree.len() + 1,
    ensures
        defined_at(figure_points(tree), index, k) == (if index < k {
            index as int
        } else {
            -1
        }),
        segments_before(figure_points(tree), k) == (if k == 0 {
            0
        } else {
            k - 1
        }),
    decreases k,
{
    if k > 0 {
        lemma_figure_points_places(tree, index, k - 1);
        assert(figure_points(tree)[k - 1].index == (k - 1) as usize);
    }
}

/// The segment that the stored point of the segment at `i` makes is that
/// segment, if it hangs on its parent and rests.
pub proof fn lemma_point_makes_edge(tree: Seq<Edge>, i: int)
    requires
        tree.len() < isize::MAX,
        0 <= i < tree.len(),
        -1 <= tree[i].parent < i,
        tree[i].in_bounds(),
        tree[i].settled(),
        rests(tree[i]),
        hangs_at(tree, i),
    ensures
        defined_at(figure_points(tree), figure_points(tree)[i + 1].parent, i + 1) == tree[i].parent
            + 1,
        point_edge(figure_points(tree), i + 1, tree[i].parent + 1) == tree[i],
{
    let points = figure_points(tree);
    let edge = tree[i];
    let hold = (edge.parent + 1) as usize;
    lemma_figure_points_places(tree, hold, i + 1);
    lemma_figure_points_places(tree, hold, hold as int);
    let made = point_edge(points, i + 1, hold as int);
    assert(points[hold as int].index == hold);
    assert(made.parent == edge.parent);
    assert(made.start == edge.start);
    assert(made.end == edge.end);
    assert(made.format == edge.format);
}

/// The points that store a figure make that figure again, segment by
/// segment, if the figure hangs together and is at rest.
pub proof fn lemma_points_round_trip(tree: Seq<Edge>, k: nat)
    requires
        well_formed(tree),
        tree.len() < isize::MAX,
        joined(tree),
        idle(tree),
        crate::figure::all_settled(tree),
        1 <= k <= tree.len() + 1,
    ensures
        points_edges(figure_points(tree), k) == Some(tree.take(k - 1)),
    decreases k,
{
    let points = figure_points(tree);
    if k == 1 {
        assert(points_edges(points, 0) == Some(Seq::<Edge>::empty()));
        assert(tree.take(0) =~= Seq::<Edge>::empty());
    } else {
        lemma_points_round_trip(tree, (k - 1) as nat);
        let i = k - 2;
        assert(parents_of(tree)[i] == tree[i].parent);
        assert(tree[i].in_bounds());
        assert(tree[i].settled());
        assert(rests(tree[i]));
        assert(hangs_at(tree, i));
        lemma_point_makes_edge(tree, i);
        assert(points[k - 1].index != 0);
        assert(tree.take(k - 2).push(tree[i]) =~= tree.take(k - 1));
    }
}

/// A figure whose first segment starts at the origin of the plane is where
/// centring puts it.
pub proof fn lemma_centered_at_origin(tree: Seq<Edge>)
    requires
        crate::figure::all_in_bounds(tree),
        tree.len() > 0 ==> tree[0].start == (Vector2 { x: 0, y: 0 }),
    ensures
        centered(tree, Vector2 { x: 0, y: 0 }) == tree,
{
    if tree.len() > 0 {
        assert forall|j: int| 0 <= j < tree.len() implies #[trigger] centered(
            tree,
            Vector2 { x: 0, y: 0 },
        )[j] == tree[j] by {
            assert(tree[j].in_bounds());
        }
        assert(centered(tree, Vector2 { x: 0, y: 0 }) =~= tree);
    }
}

/// A figure that hangs together, is at rest and starts at the origin comes
/// back from its stored points: the points make its segments, and the
/// figure read from them is the figure put into storage order.
pub proof fn lemma_export_import_points(tree: Seq<Edge>)
    requires
        well_formed(tree),
        0 < tree.len() < isize::MAX,
        joined(tree),
        idle(tree),
        crate::figure::all_settled(tree),
        tree[0].start == (Vector2 { x: 0, y: 0 }),
    ensures
        ({
            let points = figure_points(centered(tree, Vector2 { x: 0, y: 0 }));
            points_edges(points, points.len()) == Some(tree)
        }),
{
    lemma_centered_at_origin(tree);
    lemma_points_round_trip(tree, (tree.len() + 1) as nat);
    assert(tree.take(tree.len() as int) =~= tree);
}

/// The point can be stored: its coordinates are in bounds and its kind can
/// be negated.
pub open spec fn storable(p: Point) -> bool {
    &&& crate::maths::coord_in_bounds(p.x as int)
    &&& crate::maths::coord_in_bounds(p.y as int)
    &&& p.typ > isize::MIN
}

/// The row of a storable point reads back as the point; it is no remark,
/// is not empty, and holds no line break.
pub proof fn lemma_row_round_trip(p: Point)
    requires
        storable(p),
    ensures
        row_point(point_row(p)) == Some(p),
        !is_skipped(point_row(p)),
        forall|i: int| 0 <= i < point_row(p).len() ==> point_row(p)[i] != 10,
{
    let f0 = int_text(p.typ as int);
    let f1 = decimal_repr(p.x as int);
    let f2 = decimal_repr(p.y as int);
    let f3 = nat_text(p.parent as nat);
    let f4 = nat_text(p.index as nat);
    let comma = seq![44u8];
    crate::archives::text::lemma_written_plain(p.parent as nat, p.typ as int);
    crate::archives::text::lemma_written_plain(p.index as nat, p.x as int);
    crate::archives::text::lemma_written_plain(0, p.y as int);
    let r4 = f4;
    let r3 = f3 + comma + r4;
    let r2 = f2 + comma + r3;
    let r1 = f1 + comma + r2;
    let r0 = f0 + comma + r1;
    assert(r0 =~= point_row(p));
    crate::archives::text::lemma_split_one(f4, 44);
    crate::archives::text::lemma_split_first(f3, r4, 44);
    crate::archives::text::lemma_split_first(f2, r3, 44);
    crate::archives::text::lemma_split_first(f1, r2, 44);
    crate::archives::text::lemma_split_first(f0, r1, 44);
    assert(split(r0, 44) =~= seq![f0, f1, f2, f3, f4]);
    crate::archives::text::lemma_signed_round_trip(p.typ as int);
    crate::archives::text::lemma_decimal_round_trip(p.x as int);
    crate::archives::text::lemma_decimal_round_trip(p.y as int);
    crate::archives::text::lemma_unsigned_round_trip(p.parent as nat);
    crate::archives::text::lemma_unsigned_round_trip(p.index as nat);
    assert(point_row(p)[0] == f0[0]);
}

/// The rows of the first `k` points.
pub open spec fn points_rows(points: Seq<Point>, k: nat) -> Seq<Seq<u8>> {
    Seq::new(k, |i: int| point_row(points[i]))
}

/// The text of storable points falls into their rows and an empty piece
/// behind the last line break.
pub proof fn lemma_text_rows(points: Seq<Point>, k: nat)
    requires
        k <= points.len(),
        forall|i: int| 0 <= i < points.len() ==> storable(#[trigger] points[i]),
    ensures
        split(points_text(points, k), 10) == points_rows(points, k).push(Seq::empty()),
        points_text(points, k).len() == 0 || points_text(points, k).last() == 10,
    decreases k,
{
    let empty = Seq::<u8>::empty();
    if k == 0 {
        crate::archives::text::lemma_split_one(empty, 10);
        assert(points_rows(points, 0).push(empty) =~= seq![empty]);
    } else {
        lemma_text_rows(points, (k - 1) as nat);
        let before = points_text(points, (k - 1) as nat);
        let row = point_row(points[k - 1]);
        let line = point_line(points[k - 1]);
        lemma_row_round_trip(points[k - 1]);
        crate::archives::text::lemma_split_concat(before, line, 10);
        crate::archives::text::lemma_split_one(empty, 10);
        crate::archives::text::lemma_split_first(row, empty, 10);
        assert(row + seq![10u8] + empty =~= line);
        assert(split(line, 10) =~= seq![row, empty]);
        assert(points_rows(points, (k - 1) as nat).push(empty).drop_last() =~= points_rows(
            points,
            (k - 1) as nat,
        ));
        assert(points_rows(points, (k - 1) as nat) + seq![row, empty] =~= points_rows(
            points,
            k,
        ).push(empty));
        assert(line.last() == 10);
    }
}

/// The rows of storable points read back as the points.
pub proof fn lemma_rows_round_trip(points: Seq<Point>, k: nat)
    requires
        k <= points.len(),
        forall|i: int| 0 <= i < points.len() ==> storable(#[trigger] points[i]),
    ensures
        rows_points(points_rows(points, points.len()).push(Seq::empty()), k) == Some(
            points.take(k as int),
        ),
    decreases k,
{
    let rows = points_rows(points, points.len()).push(Seq::empty());
    if k == 0 {
        assert(points.take(0) =~= Seq::<Point>::empty());
    } else {
        lemma_rows_round_trip(points, (k - 1) as nat);
        lemma_row_round_trip(points[k - 1]);
        assert(rows[k - 1] == point_row(points[k - 1]));
        assert(points.take(k - 1).push(points[k - 1]) =~= points.take(k as int));
    }
}

/// The text that stores points reads back as the same points.
pub proof fn lemma_text_round_trip(points: Seq<Point>)
    requires
        forall|i: int| 0 <= i < points.len() ==> storable(#[trigger] points[i]),
    ensures
        text_points(points_text(points, points.len())) == Some(points),
{
    let n = points.len();
    let rows = points_rows(points, n).push(Seq::empty());
    lemma_text_rows(points, n);
    lemma_rows_round_trip(points, n);
    assert(points.take(n as int) =~= points);
    assert(is_skipped(rows[n as int]));
    assert(rows_points(rows, (n + 1) as nat) == rows_points(rows, n));
}

/// A figure that hangs together, is at rest and starts at the origin of
/// the plane comes back from the text that stores it: reading the text
/// gives the figure's segments, which are then put into storage order. So
/// the figure read holds every segment of the figure written, each with
/// its points and format, and each hanging on the segment it hung on.
pub proof fn lemma_export_import(tree: Seq<Edge>)
    requires
        well_formed(tree),
        0 < tree.len() < isize::MAX,
        joined(tree),
        idle(tree),
        crate::figure::all_settled(tree),
        tree[0].start == (Vector2 { x: 0, y: 0 }),
    ensures
        ({
            let points = figure_points(centered(tree, Vector2 { x: 0, y: 0 }));
            let raw = points_text(points, points.len());
            &&& text_points(raw) == Some(points)
            &&& points_edges(points, points.len()) == Some(tree)
        }),
        resorted(tree).len() == tree.len(),
        forall|x: usize|
            x < tree.len() ==> #[trigger] crate::figure::order::canonical(parents_of(tree)).contains(
                x,
            ),
        forall|j: int|
            0 <= j < tree.len() ==> {
                let from = crate::figure::order::canonical(parents_of(tree))[j] as int;
                let now = #[trigger] resorted(tree)[j];
                &&& 0 <= from < tree.len()
                &&& now == Edge { parent: now.parent, ..tree[from] }
                &&& tree[from].parent == -1 ==> now.parent == -1
                &&& tree[from].parent != -1 ==> 0 <= now.parent < j
                    && crate::figure::order::canonical(parents_of(tree))[now.parent as int]
                    == tree[from].parent
            },
{
    crate::figure::order::lemma_parents_first_forest(parents_of(tree));
    crate::figure::lemma_resorted(tree);
    lemma_export_import_points(tree);
    lemma_centered_at_origin(tree);
    let points = figure_points(tree);
    assert forall|i: int| 0 <= i < points.len() implies storable(#[trigger] points[i]) by {
        if i == 0 {
            assert(tree[0].in_bounds());
        } else {
            assert(tree[i - 1].in_bounds());
        }
    }
    lemma_text_round_trip(points);
}

/// Once the first lines fail to give points, more lines do not mend it.
pub proof fn lemma_rows_points_none(rows: Seq<Seq<u8>>, k: nat, n: nat)
    requires
        k <= n <= rows.len(),
        rows_points(rows, k).is_none(),
    ensures
        rows_points(rows, n).is_none(),
    decreases n - k,
{
    if k < n {
        lemma_rows_points_none(rows, k, (n - 1) as nat);
    }
}

} // verus!
