//! The mesh file format: four header lines (dimension, vertex count, face
//! count, corners per face), then lines of positions (`v `), normals (`vn`)
//! and faces (`f `), in the manner of a Wavefront `.obj` file. Any other line
//! is skipped.
//!
//! A coordinate is kept as the text that the file writes for it; reading that
//! text as a floating-point number is left to the caller. A face corner
//! `p/t/n` is read as the pair of its position index `p` and normal index `n`.

use vstd::prelude::*;
use crate::decimal::{parse_u16, parse_usize, u16_text, usize_text};
use crate::text::{fields, split_fields, split_words, texts, words};

verus! {

/// The four numbers at the head of a mesh file, one per line.
#[derive(Clone, Copy, Debug, PartialEq, Eq, Structural)]
pub struct Header {
    /// The dimension of the positions; with 3, each position and normal gets
    /// a fourth coordinate of zero.
    pub dim: usize,
    /// The number of vertices that the file announces.
    pub vert_count: usize,
    /// The number of faces that the file announces.
    pub ngon_count: usize,
    /// The number of corners of every face.
    pub ngon_size: usize,
}

/// Why one line of the body cannot be read.
#[derive(Clone, Copy, Debug, PartialEq, Eq, Structural)]
pub enum LineFault {
    /// The line's prefix ends inside a multi-byte character.
    SplitCharacter,
    /// A position or normal has the wrong number of coordinates.
    ComponentCount,
    /// A face has fewer corners than the header's corners per face.
    MissingCorner,
    /// A corner's position or normal index is not a number that fits in 16 bits.
    InvalidIndex,
    /// A corner has fewer than three `/`-separated parts.
    MissingNormalIndex,
}

/// Why a mesh file cannot be read.
#[derive(Clone, Copy, Debug, PartialEq, Eq, Structural)]
pub enum WavefrontError {
    /// The file has fewer than four lines.
    MissingHeaderLine,
    /// A header line (numbered from 0) is not an unsigned decimal that fits in a `usize`.
    InvalidHeaderNumber { line: usize },
    /// A body line (numbered from 0 in the whole file) cannot be read.
    BadLine { line: usize, fault: LineFault },
}

/// The four coordinates of a position or normal, as text. `w` is absent
/// where the file is three-dimensional: that coordinate is zero.
#[derive(Clone, Debug, PartialEq, Eq)]
pub struct Coordinates {
    pub x: Vec<u8>,
    pub y: Vec<u8>,
    pub z: Vec<u8>,
    pub w: Option<Vec<u8>>,
}

/// The contents of [`Coordinates`].
#[verifier::ext_equal]
pub struct CoordinatesText {
    pub x: Seq<u8>,
    pub y: Seq<u8>,
    pub z: Seq<u8>,
    pub w: Option<Seq<u8>>,
}

impl View for Coordinates {
    type V = CoordinatesText;

    open spec fn view(&self) -> CoordinatesText {
        CoordinatesText {
            x: self.x@,
            y: self.y@,
            z: self.z@,
            w: match self.w {
                Some(t) => Some(t@),
                None => None,
            },
        }
    }
}

/// The contents of a vector of coordinates.
pub open spec fn coordinate_texts(v: Seq<Coordinates>) -> Seq<CoordinatesText> {
    v.map_values(|c: Coordinates| c@)
}

/// What one line of the body holds, in the abstract.
pub enum LineRecord {
    Position(CoordinatesText),
    Normal(CoordinatesText),
    Face(Seq<(u16, u16)>),
    Other,
}

/// What one line of the body holds.
#[derive(Clone, Debug, PartialEq, Eq)]
pub enum Record {
    /// A `v ` line.
    Position(Coordinates),
    /// A `vn` line.
    Normal(Coordinates),
    /// An `f ` line: its corners, each a (position index, normal index) pair.
    Face(Vec<(u16, u16)>),
    /// Any other line.
    Other,
}

impl View for Record {
    type V = LineRecord;

    open spec fn view(&self) -> LineRecord {
        match self {
            Record::Position(c) => LineRecord::Position(c@),
            Record::Normal(c) => LineRecord::Normal(c@),
            Record::Face(cs) => LineRecord::Face(cs@),
            Record::Other => LineRecord::Other,
        }
    }
}

/// A whole mesh file, read.
#[derive(Clone, Debug, PartialEq, Eq)]
pub struct Wavefront {
    pub header: Header,
    /// The `v ` lines, in file order.
    pub positions: Vec<Coordinates>,
    /// The `vn` lines, in file order.
    pub normals: Vec<Coordinates>,
    /// The corners of all `f ` lines, in file order.
    pub corners: Vec<(u16, u16)>,
}

/// The contents of a [`Wavefront`].
#[verifier::ext_equal]
pub struct WavefrontModel {
    pub header: Header,
    pub positions: Seq<CoordinatesText>,
    pub normals: Seq<CoordinatesText>,
    pub corners: Seq<(u16, u16)>,
}

impl View for Wavefront {
    type V = WavefrontModel;

    open spec fn view(&self) -> WavefrontModel {
        WavefrontModel {
            header: self.header,
            positions: coordinate_texts(self.positions@),
            normals: coordinate_texts(self.normals@),
            corners: self.corners@,
        }
    }
}

/// A line with the two spaces that the reader appends before looking at it,
/// so that a line always has a two-byte prefix.
pub open spec fn padded(line: Seq<u8>) -> Seq<u8> {
    line + seq![32u8, 32u8]
}

/// `b` continues a multi-byte UTF-8 character.
pub open spec fn is_continuation(b: u8) -> bool {
    0x80 <= b < 0xc0
}

/// Byte offset `k` of `s` falls between two characters, or at the end.
pub open spec fn char_boundary(s: Seq<u8>, k: int) -> bool {
    k == s.len() || (0 <= k < s.len() && !is_continuation(s[k]))
}

/// The coordinates that the words `ws` of a position or normal line give.
pub open spec fn coordinates_of(ws: Seq<Seq<u8>>, dim: usize) -> Option<CoordinatesText> {
    if dim == 3 {
        if ws.len() == 3 {
            Some(CoordinatesText { x: ws[0], y: ws[1], z: ws[2], w: None })
        } else {
            None
        }
    } else if ws.len() == 4 {
        Some(CoordinatesText { x: ws[0], y: ws[1], z: ws[2], w: Some(ws[3]) })
    } else {
        None
    }
}

/// The (position index, normal index) pair of a corner `p/t/n`: the first and
/// the third of its `/`-separated parts.
pub open spec fn corner_of(w: Seq<u8>) -> Result<(u16, u16), LineFault> {
    let fs = fields(w, 47);
    match u16_text(fs[0]) {
        None => Err(LineFault::InvalidIndex),
        Some(p) => if fs.len() < 3 {
            Err(LineFault::MissingNormalIndex)
        } else {
            match u16_text(fs[2]) {
                None => Err(LineFault::InvalidIndex),
                Some(n) => Ok((p, n)),
            }
        },
    }
}

/// The first `k` corners of a face whose words are `ws`, read in order; the
/// first fault met stops the reading.
pub open spec fn corners_upto(ws: Seq<Seq<u8>>, k: nat) -> Result<Seq<(u16, u16)>, LineFault>
    decreases k,
{
    if k == 0 {
        Ok(Seq::empty())
    } else {
        match corners_upto(ws, (k - 1) as nat) {
            Err(f) => Err(f),
            Ok(cs) => if k - 1 >= ws.len() {
                Err(LineFault::MissingCorner)
            } else {
                match corner_of(ws[k - 1]) {
                    Err(f) => Err(f),
                    Ok(c) => Ok(cs.push(c)),
                }
            },
        }
    }
}

/// What a body line holds, given the header's dimension and corners per face.
pub open spec fn record_of(line: Seq<u8>, dim: usize, ngon_size: usize) -> Result<LineRecord, LineFault> {
    let s = padded(line);
    if !char_boundary(s, 2) {
        Err(LineFault::SplitCharacter)
    } else if s[0] == 118 && s[1] == 32 {
        match coordinates_of(words(s.skip(2)), dim) {
            Some(c) => Ok(LineRecord::Position(c)),
            None => Err(LineFault::ComponentCount),
        }
    } else if s[0] == 118 && s[1] == 110 {
        if !char_boundary(s, 3) {
            Err(LineFault::SplitCharacter)
        } else {
            match coordinates_of(words(s.skip(3)), dim) {
                Some(c) => Ok(LineRecord::Normal(c)),
                None => Err(LineFault::ComponentCount),
            }
        }
    } else if s[0] == 102 && s[1] == 32 {
        match corners_upto(words(s.skip(2)), ngon_size as nat) {
            Ok(cs) => Ok(LineRecord::Face(cs)),
            Err(f) => Err(f),
        }
    } else {
        Ok(LineRecord::Other)
    }
}

/// A header line read as a number.
pub open spec fn header_number(lines: Seq<Seq<u8>>, k: int) -> Result<usize, WavefrontError> {
    if k >= lines.len() {
        Err(WavefrontError::MissingHeaderLine)
    } else {
        match usize_text(lines[k]) {
            Some(v) => Ok(v),
            None => Err(WavefrontError::InvalidHeaderNumber { line: k as usize }),
        }
    }
}

/// The header of a file with lines `lines`, its four lines read in order.
pub open spec fn header_of(lines: Seq<Seq<u8>>) -> Result<Header, WavefrontError> {
    match header_number(lines, 0) {
        Err(e) => Err(e),
        Ok(dim) => match header_number(lines, 1) {
            Err(e) => Err(e),
            Ok(vert_count) => match header_number(lines, 2) {
                Err(e) => Err(e),
                Ok(ngon_count) => match header_number(lines, 3) {
                    Err(e) => Err(e),
                    Ok(ngon_size) => Ok(Header { dim, vert_count, ngon_count, ngon_size }),
                },
            },
        },
    }
}

/// A model that has taken in one more line.
pub open spec fn with_record(m: WavefrontModel, r: LineRecord) -> WavefrontModel {
    match r {
        LineRecord::Position(c) => WavefrontModel {
            header: m.header,
            positions: m.positions.push(c),
            normals: m.normals,
            corners: m.corners,
        },
        LineRecord::Normal(c) => WavefrontModel {
            header: m.header,
            positions: m.positions,
            normals: m.normals.push(c),
            corners: m.corners,
        },
        LineRecord::Face(cs) => WavefrontModel {
            header: m.header,
            positions: m.positions,
            normals: m.normals,
            corners: m.corners + cs,
        },
        LineRecord::Other => m,
    }
}

/// The model of a file with no body lines.
pub open spec fn empty_model(h: Header) -> WavefrontModel {
    WavefrontModel { header: h, positions: Seq::empty(), normals: Seq::empty(), corners: Seq::empty() }
}

/// The file's lines up to (not including) line `k` read under header `h`:
/// the body lines from line 4 on, in order, the first bad line stopping the reading.
pub open spec fn body_upto(lines: Seq<Seq<u8>>, h: Header, k: nat) -> Result<WavefrontModel, WavefrontError>
    decreases k,
{
    if k <= 4 {
        Ok(empty_model(h))
    } else {
        match body_upto(lines, h, (k - 1) as nat) {
            Err(e) => Err(e),
            Ok(m) => match record_of(lines[k - 1], h.dim, h.ngon_size) {
                Err(f) => Err(WavefrontError::BadLine { line: (k - 1) as usize, fault: f }),
                Ok(r) => Ok(with_record(m, r)),
            },
        }
    }
}

/// What a mesh file with lines `lines` holds.
pub open spec fn wavefront_text(lines: Seq<Seq<u8>>) -> Result<WavefrontModel, WavefrontError> {
    match header_of(lines) {
        Err(e) => Err(e),
        Ok(h) => body_upto(lines, h, lines.len()),
    }
}

/// Once reading the corners has met a fault, reading further gives that fault.
proof fn lemma_corners_fault_stays(ws: Seq<Seq<u8>>, k: nat, m: nat)
    requires
        k <= m,
        corners_upto(ws, k) is Err,
    ensures
        corners_upto(ws, m) == corners_upto(ws, k),
    decreases m,
{
    if m > k {
        lemma_corners_fault_stays(ws, k, (m - 1) as nat);
    }
}

/// Once reading the body has met a bad line, reading further gives that error.
proof fn lemma_body_fault_stays(lines: Seq<Seq<u8>>, h: Header, k: nat, m: nat)
    requires
        k <= m,
        body_upto(lines, h, k) is Err,
    ensures
        body_upto(lines, h, m) == body_upto(lines, h, k),
    decreases m,
{
    if m > k {
        lemma_body_fault_stays(lines, h, k, (m - 1) as nat);
    }
}

/// Reading the body up to line `k` looks at no line from `k` on, and keeps the header.
proof fn lemma_body_prefix(lines: Seq<Seq<u8>>, extra: Seq<u8>, h: Header, k: nat)
    requires
        k <= lines.len(),
    ensures
        body_upto(lines.push(extra), h, k) == body_upto(lines, h, k),
        body_upto(lines, h, k) matches Ok(m) ==> m.header == h,
    decreases k,
{
    if k > 4 {
        lemma_body_prefix(lines, extra, h, (k - 1) as nat);
        assert(lines.push(extra)[k - 1] == lines[k - 1]);
    }
}

/// A mesh file is read line by line: reading it with one more line at the end
/// is reading it, then reading that line into what it gave.
pub proof fn law_append_line(lines: Seq<Seq<u8>>, extra: Seq<u8>)
    requires
        lines.len() >= 4,
    ensures
        wavefront_text(lines.push(extra)) == match wavefront_text(lines) {
            Err(e) => Err(e),
            Ok(m) => match record_of(extra, m.header.dim, m.header.ngon_size) {
                Err(f) => Err(WavefrontError::BadLine { line: lines.len() as usize, fault: f }),
                Ok(r) => Ok(with_record(m, r)),
            },
        },
{
    let more = lines.push(extra);
    assert forall|k: int| 0 <= k < 4 implies header_number(more, k) == header_number(lines, k) by {
        assert(more[k] == lines[k]);
    }
    assert(header_of(more) == header_of(lines));
    if let Ok(h) = header_of(lines) {
        lemma_body_prefix(lines, extra, h, lines.len());
        assert(more[lines.len() as int] == extra);
        assert(more.len() == lines.len() + 1);
    }
}

/// Lines that are neither positions, normals nor faces change nothing.
pub proof fn law_other_lines_skipped(lines: Seq<Seq<u8>>, extra: Seq<u8>)
    requires
        lines.len() >= 4,
        wavefront_text(lines) matches Ok(m) && record_of(extra, m.header.dim, m.header.ngon_size)
            == Ok::<LineRecord, LineFault>(LineRecord::Other),
    ensures
        wavefront_text(lines.push(extra)) == wavefront_text(lines),
{
    law_append_line(lines, extra);
}

/// Reading one more line of a position, a normal or a face puts what it holds
/// last, in file order, and keeps everything read before where it was: the
/// `k`-th position (normal) of a file is the `k`-th `v ` (`vn`) line, and its
/// corners are those of its `f ` lines one after the other.
pub proof fn law_append_keeps_file_order(lines: Seq<Seq<u8>>, extra: Seq<u8>)
    requires
        lines.len() >= 4,
        wavefront_text(lines) is Ok,
    ensures
        ({
            let m = wavefront_text(lines)->Ok_0;
            let r = record_of(extra, m.header.dim, m.header.ngon_size);
            &&& r is Err ==> wavefront_text(lines.push(extra)) is Err
            &&& r is Ok ==> (wavefront_text(lines.push(extra)) matches Ok(m2) && {
                &&& m2.header == m.header
                &&& m2.positions.len() >= m.positions.len()
                &&& m2.normals.len() >= m.normals.len()
                &&& m2.corners.len() >= m.corners.len()
                &&& forall|k: int| 0 <= k < m.positions.len() ==> #[trigger] m2.positions[k] == m.positions[k]
                &&& forall|k: int| 0 <= k < m.normals.len() ==> #[trigger] m2.normals[k] == m.normals[k]
                &&& forall|k: int| 0 <= k < m.corners.len() ==> #[trigger] m2.corners[k] == m.corners[k]
                &&& match r->Ok_0 {
                    LineRecord::Position(c) => {
                        &&& m2.positions.len() == m.positions.len() + 1
                        &&& m2.positions[m.positions.len() as int] == c
                        &&& m2.normals.len() == m.normals.len()
                        &&& m2.corners.len() == m.corners.len()
                    },
                    LineRecord::Normal(c) => {
                        &&& m2.normals.len() == m.normals.len() + 1
                        &&& m2.normals[m.normals.len() as int] == c
                        &&& m2.positions.len() == m.positions.len()
                        &&& m2.corners.len() == m.corners.len()
                    },
                    LineRecord::Face(cs) => {
                        &&& m2.corners.len() == m.corners.len() + cs.len()
                        &&& forall|k: int| 0 <= k < cs.len() ==> #[trigger] m2.corners[m.corners.len() + k] == cs[k]
                        &&& m2.positions.len() == m.positions.len()
                        &&& m2.normals.len() == m.normals.len()
                    },
                    LineRecord::Other => m2 == m,
                }
            })
        }),
{
    law_append_line(lines, extra);
}

/// How a body line is told apart: a position starts with `v ` and a normal
/// with `vn`, each with its first three words as `x`, `y`, `z` and a fourth
/// word as `w` exactly when the file is not three-dimensional; a face starts
/// with `f ` and has one corner per corner of a face; every other line that
/// does not split a character is skipped.
pub proof fn law_line_kinds(line: Seq<u8>, dim: usize, ngon_size: usize)
    ensures
        record_of(line, dim, ngon_size) matches Ok(LineRecord::Position(c)) ==> {
            let ws = words(padded(line).skip(2));
            &&& line.len() >= 1 && line[0] == 118 && padded(line)[1] == 32
            &&& ws.len() == (if dim == 3 { 3int } else { 4int })
            &&& c.x == ws[0] && c.y == ws[1] && c.z == ws[2]
            &&& (dim == 3 <==> c.w is None)
            &&& (c.w matches Some(t) ==> t == ws[3])
        },
        record_of(line, dim, ngon_size) matches Ok(LineRecord::Normal(c)) ==> {
            let ws = words(padded(line).skip(3));
            &&& line.len() >= 2 && line[0] == 118 && line[1] == 110
            &&& ws.len() == (if dim == 3 { 3int } else { 4int })
            &&& c.x == ws[0] && c.y == ws[1] && c.z == ws[2]
            &&& (dim == 3 <==> c.w is None)
            &&& (c.w matches Some(t) ==> t == ws[3])
        },
        record_of(line, dim, ngon_size) matches Ok(LineRecord::Face(cs)) ==> {
            &&& line.len() >= 1 && line[0] == 102 && padded(line)[1] == 32
            &&& cs.len() == ngon_size
        },
        record_of(line, dim, ngon_size) is Ok && !(padded(line)[0] == 118 && padded(line)[1] == 32) && !(padded(
            line,
        )[0] == 118 && padded(line)[1] == 110) && !(padded(line)[0] == 102 && padded(line)[1] == 32)
            ==> record_of(line, dim, ngon_size) == Ok::<LineRecord, LineFault>(LineRecord::Other),
{
    let s = padded(line);
    if line.len() == 0 {
        assert(s[0] == 32);
    } else if line.len() == 1 {
        assert(s[1] == 32);
    }
    if record_of(line, dim, ngon_size) matches Ok(LineRecord::Face(cs)) {
        lemma_corners_length(words(s.skip(2)), ngon_size as nat);
    }
}

/// Corners read without a fault are as many as asked for.
proof fn lemma_corners_length(ws: Seq<Seq<u8>>, k: nat)
    ensures
        corners_upto(ws, k) matches Ok(cs) ==> cs.len() == k,
    decreases k,
{
    if k > 0 {
        lemma_corners_length(ws, (k - 1) as nat);
    }
}

/// Header line `k`, read as a number.
fn read_header_number(lines: &Vec<Vec<u8>>, k: usize) -> (r: Result<usize, WavefrontError>)
    ensures
        r == header_number(texts(lines@), k as int),
{
    if k >= lines.len() {
        Err(WavefrontError::MissingHeaderLine)
    } else {
        match parse_usize(lines[k].as_slice()) {
            Some(v) => Ok(v),
            None => Err(WavefrontError::InvalidHeaderNumber { line: k }),
        }
    }
}

/// Reads the four header lines.
pub fn read_header(lines: &Vec<Vec<u8>>) -> (r: Result<Header, WavefrontError>)
    ensures
        r == header_of(texts(lines@)),
{
    let dim = match read_header_number(lines, 0) {
        Ok(v) => v,
        Err(e) => return Err(e),
    };
    let vert_count = match read_header_number(lines, 1) {
        Ok(v) => v,
        Err(e) => return Err(e),
    };
    let ngon_count = match read_header_number(lines, 2) {
        Ok(v) => v,
        Err(e) => return Err(e),
    };
    let ngon_size = match read_header_number(lines, 3) {
        Ok(v) => v,
        Err(e) => return Err(e),
    };
    Ok(Header { dim, vert_count, ngon_count, ngon_size })
}

/// The coordinates that the words `ws` give, for dimension `dim`.
fn take_coordinates(ws: Vec<Vec<u8>>, dim: usize) -> (r: Option<Coordinates>)
    ensures
        match r {
            Some(c) => coordinates_of(texts(ws@), dim) == Some(c@),
            None => coordinates_of(texts(ws@), dim) is None,
        },
{
    let ghost t = texts(ws@);
    let mut ws = ws;
    if dim == 3 {
        if ws.len() != 3 {
            return None;
        }
        let z = ws.pop().unwrap();
        let y = ws.pop().unwrap();
        let x = ws.pop().unwrap();
        let c = Coordinates { x, y, z, w: None };
        assert(c@ =~= CoordinatesText { x: t[0], y: t[1], z: t[2], w: None });
        Some(c)
    } else {
        if ws.len() != 4 {
            return None;
        }
        let w = ws.pop().unwrap();
        let z = ws.pop().unwrap();
        let y = ws.pop().unwrap();
        let x = ws.pop().unwrap();
        let c = Coordinates { x, y, z, w: Some(w) };
        assert(c@ =~= CoordinatesText { x: t[0], y: t[1], z: t[2], w: Some(t[3]) });
        Some(c)
    }
}

/// Reads one corner `p/t/n` of a face.
pub fn read_corner(w: &Vec<u8>) -> (r: Result<(u16, u16), LineFault>)
    ensures
        r == corner_of(w@),
{
    let fs = split_fields(w, 47);
    assert(texts(fs@)[0] == fs@[0]@);
    match parse_u16(fs[0].as_slice()) {
        None => Err(LineFault::InvalidIndex),
        Some(p) => if fs.len() < 3 {
            Err(LineFault::MissingNormalIndex)
        } else {
            assert(texts(fs@)[2] == fs@[2]@);
            match parse_u16(fs[2].as_slice()) {
                None => Err(LineFault::InvalidIndex),
                Some(n) => Ok((p, n)),
            }
        },
    }
}

/// Reads the first `ngon_size` corners from the words `ws` of a face line.
fn read_corners(ws: &Vec<Vec<u8>>, ngon_size: usize) -> (r: Result<Vec<(u16, u16)>, LineFault>)
    ensures
        match r {
            Ok(cs) => corners_upto(texts(ws@), ngon_size as nat) == Ok::<Seq<(u16, u16)>, LineFault>(cs@),
            Err(f) => corners_upto(texts(ws@), ngon_size as nat) == Err::<Seq<(u16, u16)>, LineFault>(f),
        },
{
    let mut out: Vec<(u16, u16)> = Vec::new();
    let mut i: usize = 0;
    while i < ngon_size
        invariant
            i <= ngon_size,
            corners_upto(texts(ws@), i as nat) == Ok::<Seq<(u16, u16)>, LineFault>(out@),
        decreases ngon_size - i,
    {
        if i >= ws.len() {
            proof {
                lemma_corners_fault_stays(texts(ws@), (i + 1) as nat, ngon_size as nat);
            }
            return Err(LineFault::MissingCorner);
        }
        assert(texts(ws@)[i as int] == ws@[i as int]@);
        match read_corner(&ws[i]) {
            Err(f) => {
                proof {
                    lemma_corners_fault_stays(texts(ws@), (i + 1) as nat, ngon_size as nat);
                }
                return Err(f);
            },
            Ok(c) => {
                out.push(c);
            },
        }
        i = i + 1;
    }
    Ok(out)
}

/// Reads one body line, given the header's dimension and corners per face.
pub fn read_line(line: &Vec<u8>, dim: usize, ngon_size: usize) -> (r: Result<Record, LineFault>)
    ensures
        match r {
            Ok(rec) => record_of(line@, dim, ngon_size) == Ok::<LineRecord, LineFault>(rec@),
            Err(f) => record_of(line@, dim, ngon_size) == Err::<LineRecord, LineFault>(f),
        },
{
    let mut s = line.clone();
    s.push(32);
    s.push(32);
    assert(s@ =~= padded(line@));
    if s.len() > 2 && s[2] >= 0x80 && s[2] < 0xc0 {
        return Err(LineFault::SplitCharacter);
    }
    if s[0] == 118 && s[1] == 32 {
        let ws = split_words(&s, 2);
        match take_coordinates(ws, dim) {
            Some(c) => Ok(Record::Position(c)),
            None => Err(LineFault::ComponentCount),
        }
    } else if s[0] == 118 && s[1] == 110 {
        if s[3] >= 0x80 && s[3] < 0xc0 {
            return Err(LineFault::SplitCharacter);
        }
        let ws = split_words(&s, 3);
        match take_coordinates(ws, dim) {
            Some(c) => Ok(Record::Normal(c)),
            None => Err(LineFault::ComponentCount),
        }
    } else if s[0] == 102 && s[1] == 32 {
        let ws = split_words(&s, 2);
        match read_corners(&ws, ngon_size) {
            Ok(cs) => Ok(Record::Face(cs)),
            Err(f) => Err(f),
        }
    } else {
        Ok(Record::Other)
    }
}

/// Reads a whole mesh file, given as its lines (without line terminators).
pub fn parse_wavefront(lines: &Vec<Vec<u8>>) -> (r: Result<Wavefront, WavefrontError>)
    ensures
        match r {
            Ok(w) => wavefront_text(texts(lines@)) == Ok::<WavefrontModel, WavefrontError>(w@),
            Err(e) => wavefront_text(texts(lines@)) == Err::<WavefrontModel, WavefrontError>(e),
        },
{
    let ghost t = texts(lines@);
    let header = match read_header(lines) {
        Ok(h) => h,
        Err(e) => return Err(e),
    };
    let mut positions: Vec<Coordinates> = Vec::new();
    let mut normals: Vec<Coordinates> = Vec::new();
    let mut corners: Vec<(u16, u16)> = Vec::new();
    let mut j: usize = 4;
    assert(WavefrontModel {
        header,
        positions: coordinate_texts(positions@),
        normals: coordinate_texts(normals@),
        corners: corners@,
    } =~= empty_model(header));
    while j < lines.len()
        invariant
            4 <= j <= lines.len(),
            t == texts(lines@),
            header_of(t) == Ok::<Header, WavefrontError>(header),
            body_upto(t, header, j as nat) == Ok::<WavefrontModel, WavefrontError>(
                WavefrontModel {
                    header,
                    positions: coordinate_texts(positions@),
                    normals: coordinate_texts(normals@),
                    corners: corners@,
                },
            ),
        decreases lines.len() - j,
    {
        assert(t[j as int] == lines@[j as int]@);
        match read_line(&lines[j], header.dim, header.ngon_size) {
            Err(f) => {
                proof {
                    lemma_body_fault_stays(t, header, (j + 1) as nat, lines@.len());
                }
                return Err(WavefrontError::BadLine { line: j, fault: f });
            },
            Ok(rec) => {
                let ghost old_positions = positions@;
                let ghost old_normals = normals@;
                match rec {
                    Record::Position(c) => {
                        positions.push(c);
                        assert(coordinate_texts(positions@) =~= coordinate_texts(old_positions).push(
                            positions@.last()@,
                        ));
                    },
                    Record::Normal(c) => {
                        normals.push(c);
                        assert(coordinate_texts(normals@) =~= coordinate_texts(old_normals).push(
                            normals@.last()@,
                        ));
                    },
                    Record::Face(cs) => {
                        let mut cs = cs;
                        corners.append(&mut cs);
                    },
                    Record::Other => {},
                }
            },
        }
        j = j + 1;
    }
    let w = Wavefront { header, positions, normals, corners };
    assert(w@ =~= WavefrontModel {
        header,
        positions: coordinate_texts(w.positions@),
        normals: coordinate_texts(w.normals@),
        corners: w.corners@,
    });
    Ok(w)
}

} // verus!
