//! From the positions, normals and face corners of a mesh file to the
//! vertex list and the index list that the viewer hands to the GPU.
//!
//! Coordinates are `f32`s, held here as their IEEE 754 bit patterns; the only
//! thing done with them is comparing with `==` as `f32` does.

use vstd::prelude::*;

verus! {

/// The bit pattern of an `f32` NaN: exponent bits all set, fraction not zero.
pub open spec fn is_nan_bits(b: u32) -> bool {
    b % 0x8000_0000 > 0x7f80_0000
}

/// `f32` equality on bit patterns: neither side is NaN, and both are the same
/// number, where `+0` equals `-0`.
pub open spec fn f32_bits_eq(a: u32, b: u32) -> bool {
    &&& !is_nan_bits(a)
    &&& !is_nan_bits(b)
    &&& (a == b || (a % 0x8000_0000 == 0 && b % 0x8000_0000 == 0))
}

/// `==` on `[f32; 4]`, on bit patterns: all four coordinates equal.
pub open spec fn vec4_eq(a: [u32; 4], b: [u32; 4]) -> bool {
    &&& f32_bits_eq(a[0], b[0])
    &&& f32_bits_eq(a[1], b[1])
    &&& f32_bits_eq(a[2], b[2])
    &&& f32_bits_eq(a[3], b[3])
}

/// Compares two `f32`s, given as bit patterns, as `==` does.
pub fn f32_bits_equal(a: u32, b: u32) -> (r: bool)
    ensures
        r == f32_bits_eq(a, b),
{
    let ma = a % 0x8000_0000;
    let mb = b % 0x8000_0000;
    if ma > 0x7f80_0000 || mb > 0x7f80_0000 {
        false
    } else {
        a == b || (ma == 0 && mb == 0)
    }
}

/// Compares two four-vectors of `f32`s, given as bit patterns, as `==` does.
pub fn vec4_equal(a: &[u32; 4], b: &[u32; 4]) -> (r: bool)
    ensures
        r == vec4_eq(*a, *b),
{
    f32_bits_equal(a[0], b[0]) && f32_bits_equal(a[1], b[1]) && f32_bits_equal(a[2], b[2])
        && f32_bits_equal(a[3], b[3])
}

/// A vertex as the GPU gets it: a position and a normal, each four `f32`s
/// given by their bit patterns.
#[derive(Clone, Copy, Debug, PartialEq, Eq)]
pub struct Vertex {
    pub position: [u32; 4],
    pub normal: [u32; 4],
}

/// Where the splitting of vertices stands after some corners.
pub struct SplitState {
    /// The positions, with the copies made so far appended.
    pub positions: Seq<[u32; 4]>,
    /// The vertices made so far.
    pub vertices: Seq<Vertex>,
    /// The corners, with the rewritten position indices.
    pub corners: Seq<(u16, u16)>,
    /// How many positions have been copied.
    pub adjustment: nat,
}

/// The state before any corner.
pub open spec fn split_start(positions: Seq<[u32; 4]>, corners: Seq<(u16, u16)>) -> SplitState {
    SplitState { positions, vertices: Seq::empty(), corners, adjustment: 0 }
}

/// Corner `i` handled. Vertices are looked up by position index: where no
/// vertex has that index yet, a vertex of the corner's position and normal is
/// appended. Where the vertex there has the same position but another normal,
/// the position is copied to the end, a vertex of the copy and the corner's
/// normal is appended, and the corner `adjustment + 1` places before `i` gets
/// the copy's index, truncated to 16 bits. `None` where an index is out of
/// range or that corner would lie before the first.
pub open spec fn split_step(st: SplitState, normals: Seq<[u32; 4]>, i: nat) -> Option<SplitState> {
    let p = st.corners[i as int].0 as int;
    let n = st.corners[i as int].1 as int;
    if p >= st.positions.len() || n >= normals.len() {
        None
    } else if p < st.vertices.len() {
        let v = st.vertices[p];
        if !vec4_eq(v.normal, normals[n]) && vec4_eq(v.position, st.positions[p]) {
            if i < st.adjustment + 1 {
                None
            } else {
                let k = i - st.adjustment - 1;
                Some(
                    SplitState {
                        positions: st.positions.push(st.positions[p]),
                        vertices: st.vertices.push(Vertex { position: st.positions[p], normal: normals[n] }),
                        corners: st.corners.update(
                            k,
                            ((st.positions.len() % 0x10000) as u16, st.corners[k].1),
                        ),
                        adjustment: st.adjustment + 1,
                    },
                )
            }
        } else {
            Some(st)
        }
    } else {
        Some(
            SplitState {
                positions: st.positions,
                vertices: st.vertices.push(Vertex { position: st.positions[p], normal: normals[n] }),
                corners: st.corners,
                adjustment: st.adjustment,
            },
        )
    }
}

/// The state after the first `k` corners, `None` once a step has failed.
pub open spec fn split_upto(
    positions: Seq<[u32; 4]>,
    normals: Seq<[u32; 4]>,
    corners: Seq<(u16, u16)>,
    k: nat,
) -> Option<SplitState>
    decreases k,
{
    if k == 0 {
        Some(split_start(positions, corners))
    } else {
        match split_upto(positions, normals, corners, (k - 1) as nat) {
            None => None,
            Some(st) => split_step(st, normals, (k - 1) as nat),
        }
    }
}

/// Once a step has failed, every later state is `None`.
proof fn lemma_split_none_stays(
    positions: Seq<[u32; 4]>,
    normals: Seq<[u32; 4]>,
    corners: Seq<(u16, u16)>,
    k: nat,
    m: nat,
)
    requires
        k <= m,
        split_upto(positions, normals, corners, k) is None,
    ensures
        split_upto(positions, normals, corners, m) is None,
    decreases m,
{
    if m > k {
        lemma_split_none_stays(positions, normals, corners, k, (m - 1) as nat);
    }
}

/// After the first corner there is a vertex, and fewer copies than corners handled.
proof fn lemma_split_adjustment(
    positions: Seq<[u32; 4]>,
    normals: Seq<[u32; 4]>,
    corners: Seq<(u16, u16)>,
    k: nat,
)
    ensures
        split_upto(positions, normals, corners, k) matches Some(st) ==> (k == 0 ==> st.vertices.len() == 0)
            && (k > 0 ==> st.adjustment < k) && st.adjustment <= k,
    decreases k,
{
    if k > 0 {
        lemma_split_adjustment(positions, normals, corners, (k - 1) as nat);
    }
}

/// Splitting only ever fails on a corner whose position or normal index is
/// out of range: a corner never has to be rewritten before the first one.
pub proof fn law_split_fails_only_on_missing_index(
    positions: Seq<[u32; 4]>,
    normals: Seq<[u32; 4]>,
    corners: Seq<(u16, u16)>,
    k: nat,
)
    requires
        k < corners.len(),
        split_upto(positions, normals, corners, k) is Some,
    ensures
        ({
            let st = split_upto(positions, normals, corners, k).unwrap();
            split_upto(positions, normals, corners, k + 1) is None <==> (st.corners[k as int].0 >= st.positions.len()
                || st.corners[k as int].1 >= normals.len())
        }),
{
    lemma_split_adjustment(positions, normals, corners, k);
}

/// The positions grow by one copy per split, keeping those before; corners from
/// the current one on are still as read.
proof fn lemma_split_shape(
    positions: Seq<[u32; 4]>,
    normals: Seq<[u32; 4]>,
    corners: Seq<(u16, u16)>,
    k: nat,
)
    requires
        k <= corners.len(),
    ensures
        split_upto(positions, normals, corners, k) matches Some(st) ==> {
            &&& st.positions.len() == positions.len() + st.adjustment
            &&& st.corners.len() == corners.len()
            &&& forall|j: int| k <= j < corners.len() ==> #[trigger] st.corners[j] == corners[j]
        },
    decreases k,
{
    if k > 0 {
        lemma_split_shape(positions, normals, corners, (k - 1) as nat);
        lemma_split_adjustment(positions, normals, corners, (k - 1) as nat);
    }
}

/// What handling corner `k` does, stated through the number of copies made
/// before it (how far the position list has grown): a corner whose position
/// index has no vertex yet appends the vertex of its position and normal; a
/// corner that meets the vertex of its position index with an equal position
/// but another normal copies the position to the end, appends the vertex of
/// the copy and its normal, and gives the corner (copies + 1) places before it
/// the copy's index (truncated to 16 bits), leaving every other corner as it
/// was; any other corner changes nothing.
pub proof fn law_split_step(
    positions: Seq<[u32; 4]>,
    normals: Seq<[u32; 4]>,
    corners: Seq<(u16, u16)>,
    k: nat,
)
    requires
        k < corners.len(),
        split_upto(positions, normals, corners, k + 1) is Some,
    ensures
        ({
            let a = split_upto(positions, normals, corners, k).unwrap();
            let b = split_upto(positions, normals, corners, k + 1).unwrap();
            let p = corners[k as int].0 as int;
            let n = corners[k as int].1 as int;
            let copies = a.positions.len() - positions.len();
            &&& a.corners[k as int] == corners[k as int]
            &&& p < a.positions.len() && n < normals.len()
            &&& if p >= a.vertices.len() {
                &&& b.vertices == a.vertices.push(Vertex { position: a.positions[p], normal: normals[n] })
                &&& b.positions == a.positions
                &&& b.corners == a.corners
            } else if vec4_eq(a.vertices[p].position, a.positions[p]) && !vec4_eq(a.vertices[p].normal, normals[n]) {
                &&& 0 <= copies < k
                &&& b.vertices == a.vertices.push(Vertex { position: a.positions[p], normal: normals[n] })
                &&& b.positions == a.positions.push(a.positions[p])
                &&& b.corners.len() == a.corners.len()
                &&& b.corners[k - copies - 1] == ((a.positions.len() % 0x10000) as u16, a.corners[k - copies - 1].1)
                &&& forall|j: int| 0 <= j < b.corners.len() && j != k - copies - 1 ==> #[trigger] b.corners[j] == a.corners[j]
            } else {
                &&& b.vertices == a.vertices
                &&& b.positions == a.positions
                &&& b.corners == a.corners
            }
        }),
{
    lemma_split_shape(positions, normals, corners, k);
    lemma_split_adjustment(positions, normals, corners, k);
}

/// Every position and vertex of a state is made of input positions and normals.
pub open spec fn made_of_inputs(st: SplitState, positions: Seq<[u32; 4]>, normals: Seq<[u32; 4]>) -> bool {
    &&& forall|j: int| 0 <= j < st.positions.len() ==> positions.contains(#[trigger] st.positions[j])
    &&& forall|j: int|
        0 <= j < st.vertices.len() ==> positions.contains((#[trigger] st.vertices[j]).position)
            && normals.contains(st.vertices[j].normal)
}

/// Splitting keeps the number of corners, adds at most one vertex per corner,
/// and only ever copies input positions and normals.
pub proof fn lemma_split_facts(
    positions: Seq<[u32; 4]>,
    normals: Seq<[u32; 4]>,
    corners: Seq<(u16, u16)>,
    k: nat,
)
    requires
        k <= corners.len(),
    ensures
        split_upto(positions, normals, corners, k) matches Some(st) ==> {
            &&& st.corners.len() == corners.len()
            &&& st.vertices.len() <= k
            &&& st.adjustment <= k
            &&& made_of_inputs(st, positions, normals)
        },
    decreases k,
{
    if k > 0 {
        lemma_split_facts(positions, normals, corners, (k - 1) as nat);
        if let Some(st) = split_upto(positions, normals, corners, (k - 1) as nat) {
            let i = (k - 1) as nat;
            let p = st.corners[i as int].0 as int;
            let n = st.corners[i as int].1 as int;
            if p < st.positions.len() && n < normals.len() {
                assert(positions.contains(st.positions[p]));
                assert(normals.contains(normals[n]));
            }
        }
    }
}

/// Builds the vertex list from the corners, splitting a vertex where a
/// position meets a second normal; gives the vertices and the rewritten
/// corners, or `None` where a step fails (see [`split_step`]).
pub fn split_vertices(positions: Vec<[u32; 4]>, normals: &Vec<[u32; 4]>, corners: Vec<(u16, u16)>) -> (r:
    Option<(Vec<Vertex>, Vec<(u16, u16)>)>)
    ensures
        r is None <==> split_upto(positions@, normals@, corners@, corners@.len()) is None,
        r matches Some(out) ==> split_upto(positions@, normals@, corners@, corners@.len()) matches Some(st)
            && st.vertices == out.0@ && st.corners == out.1@,
        r matches Some(out) ==> {
            &&& out.1@.len() == corners@.len()
            &&& out.0@.len() <= corners@.len()
            &&& forall|j: int|
                0 <= j < out.0@.len() ==> positions@.contains((#[trigger] out.0@[j]).position)
                    && normals@.contains(out.0@[j].normal)
        },
{
    let ghost p0 = positions@;
    let ghost c0 = corners@;
    let mut pos = positions;
    let mut cs = corners;
    let mut vertices: Vec<Vertex> = Vec::new();
    let mut adjustment: usize = 0;
    let len = cs.len();
    let mut i: usize = 0;
    while i < len
        invariant
            i <= len,
            len == c0.len(),
            p0 == positions@,
            c0 == corners@,
            adjustment <= i,
            split_upto(p0, normals@, c0, i as nat) == Some(
                SplitState {
                    positions: pos@,
                    vertices: vertices@,
                    corners: cs@,
                    adjustment: adjustment as nat,
                },
            ),
            cs@.len() == len,
        decreases len - i,
    {
        let (p16, n16) = cs[i];
        let p = p16 as usize;
        let n = n16 as usize;
        if p >= pos.len() || n >= normals.len() {
            proof {
                lemma_split_none_stays(p0, normals@, c0, (i + 1) as nat, len as nat);
            }
            return None;
        }
        if p < vertices.len() {
            let v = vertices[p];
            if !vec4_equal(&v.normal, &normals[n]) && vec4_equal(&v.position, &pos[p]) {
                if i < adjustment + 1 {
                    proof {
                        lemma_split_none_stays(p0, normals@, c0, (i + 1) as nat, len as nat);
                    }
                    return None;
                }
                let k = i - adjustment - 1;
                let position = pos[p];
                let tag = (pos.len() % 0x10000) as u16;
                let normal_index = cs[k].1;
                cs[k] = (tag, normal_index);
                pos.push(position);
                vertices.push(Vertex { position, normal: normals[n] });
                adjustment = adjustment + 1;
            }
        } else {
            let position = pos[p];
            vertices.push(Vertex { position, normal: normals[n] });
        }
        i = i + 1;
    }
    proof {
        lemma_split_facts(p0, normals@, c0, len as nat);
    }
    Some((vertices, cs))
}

/// The kind of primitive that a mesh is drawn with.
#[derive(Clone, Copy, Debug, PartialEq, Eq, Structural)]
pub enum Primitive {
    /// Faces drawn filled.
    TriangleStrip,
    /// Faces drawn as wireframe.
    LineStrip,
}

/// The kind of primitive that the index buffer is made for.
#[derive(Clone, Copy, Debug, PartialEq, Eq, Structural)]
pub enum IndexPrimitive {
    TriangleStrip,
    LineLoop,
}

/// The index buffer's primitive for a mesh drawn as `prim`: a wireframe is
/// drawn as closed line loops.
pub open spec fn index_primitive_of(prim: Primitive) -> IndexPrimitive {
    match prim {
        Primitive::TriangleStrip => IndexPrimitive::TriangleStrip,
        Primitive::LineStrip => IndexPrimitive::LineLoop,
    }
}

/// A filled mesh is drawn as a triangle strip and a wireframe as line loops,
/// and the two never share an index primitive.
pub proof fn law_index_primitive(prim: Primitive)
    ensures
        index_primitive_of(Primitive::TriangleStrip) == IndexPrimitive::TriangleStrip,
        index_primitive_of(Primitive::LineStrip) == IndexPrimitive::LineLoop,
        (index_primitive_of(prim) == IndexPrimitive::LineLoop) <==> (prim == Primitive::LineStrip),
{
}

/// The index buffer's primitive for a mesh drawn as `prim`.
pub fn index_primitive(prim: Primitive) -> (r: IndexPrimitive)
    ensures
        r == index_primitive_of(prim),
{
    match prim {
        Primitive::TriangleStrip => IndexPrimitive::TriangleStrip,
        Primitive::LineStrip => IndexPrimitive::LineLoop,
    }
}

/// The corners are reordered for a wireframe of quadrilaterals: with four
/// corners (or a multiple of four) per face, drawn as lines.
pub open spec fn reorders(ngon_size: usize, prim: Primitive) -> bool {
    ngon_size % 4 == 0 && prim == Primitive::LineStrip
}

/// Where corner `j` of `len` comes from after reordering: in each complete
/// block of four, the last two trade places in even blocks and the first two
/// in odd blocks; corners past the last complete block stay.
pub open spec fn wire_partner(j: int, len: int) -> int {
    if 0 <= j < len - len % 4 {
        let r = j % 4;
        if (j / 4) % 2 == 0 {
            if r == 2 {
                j + 1
            } else if r == 3 {
                j - 1
            } else {
                j
            }
        } else {
            if r == 0 {
                j + 1
            } else if r == 1 {
                j - 1
            } else {
                j
            }
        }
    } else {
        j
    }
}

/// The corners in the order that a wireframe of `prim` with `ngon_size`
/// corners per face is drawn in.
pub open spec fn wire_order(s: Seq<(u16, u16)>, ngon_size: usize, prim: Primitive) -> Seq<(u16, u16)> {
    if reorders(ngon_size, prim) {
        Seq::new(s.len(), |j: int| s[wire_partner(j, s.len() as int)])
    } else {
        s
    }
}

/// The partner of a corner is in range, and its partner is the corner itself.
proof fn lemma_wire_partner(j: int, len: int)
    requires
        0 <= j < len,
    ensures
        0 <= wire_partner(j, len) < len,
        wire_partner(wire_partner(j, len), len) == j,
{
    let p = wire_partner(j, len);
    if j < len - len % 4 {
        assert(len - len % 4 == 4 * (len / 4));
        assert(j == 4 * (j / 4) + j % 4);
        assert(p == 4 * (j / 4) + p % 4 && p / 4 == j / 4);
        assert(p < len - len % 4);
    }
}

/// Reordering for a wireframe twice gives back the order it started from.
pub proof fn law_wire_order_involution(s: Seq<(u16, u16)>, ngon_size: usize, prim: Primitive)
    ensures
        wire_order(wire_order(s, ngon_size, prim), ngon_size, prim) == s,
{
    if reorders(ngon_size, prim) {
        let once = wire_order(s, ngon_size, prim);
        let twice = wire_order(once, ngon_size, prim);
        assert forall|j: int| 0 <= j < s.len() implies #[trigger] twice[j] == s[j] by {
            lemma_wire_partner(j, s.len() as int);
        }
        assert(twice =~= s);
    }
}

/// In the wireframe order of quadrilaterals, every complete block `b` of four
/// corners `c0 c1 c2 c3` becomes `c0 c1 c3 c2` when `b` is even and
/// `c1 c0 c2 c3` when `b` is odd; corners after the last complete block stay,
/// and nothing moves when the corners are not reordered.
pub proof fn law_wire_order_blocks(s: Seq<(u16, u16)>, ngon_size: usize, prim: Primitive)
    ensures
        wire_order(s, ngon_size, prim).len() == s.len(),
        !(ngon_size % 4 == 0 && prim == Primitive::LineStrip) ==> wire_order(s, ngon_size, prim) == s,
        ngon_size % 4 == 0 && prim == Primitive::LineStrip ==> {
            let w = wire_order(s, ngon_size, prim);
            &&& forall|b: int|
                0 <= b && 4 * b + 3 < s.len() && b % 2 == 0 ==> {
                    &&& #[trigger] w[4 * b] == s[4 * b]
                    &&& w[4 * b + 1] == s[4 * b + 1]
                    &&& w[4 * b + 2] == s[4 * b + 3]
                    &&& w[4 * b + 3] == s[4 * b + 2]
                }
            &&& forall|b: int|
                0 <= b && 4 * b + 3 < s.len() && b % 2 == 1 ==> {
                    &&& #[trigger] w[4 * b] == s[4 * b + 1]
                    &&& w[4 * b + 1] == s[4 * b]
                    &&& w[4 * b + 2] == s[4 * b + 2]
                    &&& w[4 * b + 3] == s[4 * b + 3]
                }
            &&& forall|j: int| s.len() - s.len() % 4 <= j < s.len() ==> #[trigger] w[j] == s[j]
        },
{
    if ngon_size % 4 == 0 && prim == Primitive::LineStrip {
        let len = s.len() as int;
        let w = wire_order(s, ngon_size, prim);
        assert forall|b: int| 0 <= b && 4 * b + 3 < len implies (#[trigger] w[4 * b] == (if b % 2 == 0 { s[4 * b] } else { s[4 * b + 1] })
            && w[4 * b + 1] == (if b % 2 == 0 { s[4 * b + 1] } else { s[4 * b] })
            && w[4 * b + 2] == (if b % 2 == 0 { s[4 * b + 3] } else { s[4 * b + 2] })
            && w[4 * b + 3] == (if b % 2 == 0 { s[4 * b + 2] } else { s[4 * b + 3] })) by {
            assert(len - len % 4 == 4 * (len / 4));
            assert((4 * b) / 4 == b && (4 * b + 1) / 4 == b && (4 * b + 2) / 4 == b && (4 * b + 3) / 4 == b);
            assert((4 * b) % 4 == 0 && (4 * b + 1) % 4 == 1 && (4 * b + 2) % 4 == 2 && (4 * b + 3) % 4 == 3);
        }
    }
}

/// Reorders the corners for drawing a wireframe of quadrilaterals.
pub fn wireframe_order(corners: &mut Vec<(u16, u16)>, ngon_size: usize, prim: Primitive)
    ensures
        final(corners)@ == wire_order(old(corners)@, ngon_size, prim),
{
    let ghost s = corners@;
    if ngon_size % 4 == 0 && prim == Primitive::LineStrip {
        let len = corners.len();
        let quads = len / 4;
        let mut i: usize = 0;
        while i < quads
            invariant
                quads == len / 4,
                len == s.len(),
                i <= quads,
                corners@.len() == len,
                forall|j: int| 0 <= j < 4 * i ==> #[trigger] corners@[j] == s[wire_partner(j, len as int)],
                forall|j: int| 4 * i <= j < len ==> #[trigger] corners@[j] == s[j],
            decreases quads - i,
        {
            let adj = 2 * ((i + 1) % 2);
            let a = 4 * i + adj;
            let first = corners[a];
            let second = corners[a + 1];
            corners[a] = second;
            corners[a + 1] = first;
            assert forall|j: int| 0 <= j < 4 * (i + 1) implies #[trigger] corners@[j] == s[wire_partner(
                j,
                len as int,
            )] by {
                if j >= 4 * i {
                    assert(j / 4 == i);
                    assert(j % 4 == j - 4 * i);
                }
            }
            i = i + 1;
        }
        assert(corners@ =~= wire_order(s, ngon_size, prim));
    }
}

/// The restart marker that ends a primitive in an index buffer.
pub open spec fn restart() -> (u16, u16) {
    (0xffff, 0xffff)
}

/// The corners in groups of `ngon_size`, each group (the last one perhaps
/// shorter) preceded by a restart marker.
pub open spec fn with_restarts(s: Seq<(u16, u16)>, ngon_size: nat) -> Seq<(u16, u16)>
    decreases s.len(),
{
    if ngon_size == 0 || s.len() == 0 {
        s
    } else if s.len() <= ngon_size {
        seq![restart()] + s
    } else {
        seq![restart()] + s.take(ngon_size as int) + with_restarts(s.skip(ngon_size as int), ngon_size)
    }
}

/// Entry `j` of the corners with restart markers, given `ngon_size` = `n`:
/// every `n + 1`-th entry, from the first on, is a restart marker, and the
/// others are the corners in order.
pub open spec fn restart_layout_entry(s: Seq<(u16, u16)>, n: nat, j: int) -> (u16, u16) {
    let m = n as int + 1;
    if j % m == 0 {
        restart()
    } else {
        s[(j / m) * (n as int) + j % m - 1]
    }
}

/// The corners with restart markers have one marker per group of `n`
/// corners (counting a last, shorter group), at every `n + 1`-th place.
pub proof fn law_restart_layout(s: Seq<(u16, u16)>, n: nat)
    requires
        n > 0,
    ensures
        with_restarts(s, n).len() == s.len() + (s.len() + n - 1) / (n as int),
        forall|j: int|
            0 <= j < with_restarts(s, n).len() ==> #[trigger] with_restarts(s, n)[j]
                == restart_layout_entry(s, n, j),
        forall|j: int|
            0 <= j < with_restarts(s, n).len() && #[trigger] (j % (n as int + 1)) != 0 ==> 0 <= (j / (n as int
                + 1)) * (n as int) + j % (n as int + 1) - 1 < s.len(),
    decreases s.len(),
{
    let t = with_restarts(s, n);
    let len = s.len() as int;
    let ni = n as int;
    let m = ni + 1;
    if len == 0 {
        vstd::arithmetic::div_mod::lemma_fundamental_div_mod_converse(ni - 1, ni, 0, ni - 1);
    } else if len <= ni {
        vstd::arithmetic::div_mod::lemma_fundamental_div_mod_converse(len + ni - 1, ni, 1, len - 1);
        assert forall|j: int| 0 <= j < t.len() implies #[trigger] t[j] == restart_layout_entry(s, n, j) by {
            vstd::arithmetic::div_mod::lemma_fundamental_div_mod_converse(j, m, 0, j);
        }
        assert forall|j: int| 0 <= j < t.len() && #[trigger] (j % m) != 0 implies 0 <= (j / m) * ni + j % m
            - 1 < len by {
            vstd::arithmetic::div_mod::lemma_fundamental_div_mod_converse(j, m, 0, j);
        }
    } else {
        let rest = s.skip(ni);
        law_restart_layout(rest, n);
        let tr = with_restarts(rest, n);
        vstd::arithmetic::div_mod::lemma_div_plus_one(len - 1, ni);
        assert(rest.len() + ni - 1 == len - 1);
        assert forall|j: int| 0 <= j < t.len() implies #[trigger] t[j] == restart_layout_entry(s, n, j) by {
            if j <= ni {
                vstd::arithmetic::div_mod::lemma_fundamental_div_mod_converse(j, m, 0, j);
            } else {
                let j2 = j - m;
                assert(t[j] == tr[j2]);
                let q2 = j2 / m;
                let r2 = j2 % m;
                vstd::arithmetic::div_mod::lemma_fundamental_div_mod(j2, m);
                assert(0 <= r2 < m) by {
                    vstd::arithmetic::div_mod::lemma_mod_bound(j2, m);
                }
                assert(j == (q2 + 1) * m + r2) by (nonlinear_arith)
                    requires
                        j2 == m * q2 + r2,
                        j == j2 + m,
                ;
                vstd::arithmetic::div_mod::lemma_fundamental_div_mod_converse(j, m, q2 + 1, r2);
                assert((q2 + 1) * ni == q2 * ni + ni) by (nonlinear_arith);
                if r2 != 0 {
                    assert(j2 % m != 0);
                    assert(rest[q2 * ni + r2 - 1] == s[q2 * ni + r2 - 1 + ni]);
                }
            }
        }
        assert forall|j: int| 0 <= j < t.len() && #[trigger] (j % m) != 0 implies 0 <= (j / m) * ni + j % m
            - 1 < len by {
            if j <= ni {
                vstd::arithmetic::div_mod::lemma_fundamental_div_mod_converse(j, m, 0, j);
            } else {
                let j2 = j - m;
                let q2 = j2 / m;
                let r2 = j2 % m;
                vstd::arithmetic::div_mod::lemma_fundamental_div_mod(j2, m);
                assert(0 <= r2 < m) by {
                    vstd::arithmetic::div_mod::lemma_mod_bound(j2, m);
                }
                assert(j == (q2 + 1) * m + r2) by (nonlinear_arith)
                    requires
                        j2 == m * q2 + r2,
                        j == j2 + m,
                ;
                vstd::arithmetic::div_mod::lemma_fundamental_div_mod_converse(j, m, q2 + 1, r2);
                assert((q2 + 1) * ni == q2 * ni + ni) by (nonlinear_arith);
                assert(j2 % m != 0);
                assert(0 <= j2 < tr.len());
            }
        }
    }
}

/// One more corner: it opens a new group when the corners so far fill whole groups.
proof fn lemma_restarts_push(t: Seq<(u16, u16)>, x: (u16, u16), n: nat)
    requires
        n > 0,
    ensures
        with_restarts(t.push(x), n) == (if t.len() % n == 0 {
            with_restarts(t, n).push(restart()).push(x)
        } else {
            with_restarts(t, n).push(x)
        }),
    decreases t.len(),
{
    let tx = t.push(x);
    if t.len() < n {
        vstd::arithmetic::div_mod::lemma_small_mod(t.len(), n);
        if t.len() == 0 {
            assert(with_restarts(tx, n) =~= seq![restart(), x]);
            assert(with_restarts(t, n).push(restart()).push(x) =~= seq![restart(), x]);
        } else {
            assert(with_restarts(tx, n) =~= with_restarts(t, n).push(x));
        }
    } else {
        let rest = t.skip(n as int);
        assert(tx.take(n as int) =~= t.take(n as int));
        assert(tx.skip(n as int) =~= rest.push(x));
        lemma_restarts_push(rest, x, n);
        assert((rest.len() as int) % (n as int) == (t.len() as int) % (n as int)) by {
            vstd::arithmetic::div_mod::lemma_mod_sub_multiples_vanish(t.len() as int, n as int);
        }
        if t.len() == n {
            vstd::arithmetic::div_mod::lemma_mod_self_0(n as int);
            assert(t.take(n as int) =~= t);
            assert(rest =~= Seq::<(u16, u16)>::empty());
            assert(with_restarts(rest.push(x), n) =~= seq![restart(), x]);
            assert(with_restarts(tx, n) =~= with_restarts(t, n).push(restart()).push(x));
        } else if t.len() % n == 0 {
            assert(with_restarts(tx, n) =~= with_restarts(t, n).push(restart()).push(x));
        } else {
            assert(with_restarts(tx, n) =~= with_restarts(t, n).push(x));
        }
    }
}

/// Puts a restart marker before every group of `ngon_size` corners.
pub fn insert_restarts(corners: &Vec<(u16, u16)>, ngon_size: usize) -> (r: Vec<(u16, u16)>)
    requires
        ngon_size > 0 || corners@.len() == 0,
    ensures
        r@ == with_restarts(corners@, ngon_size as nat),
{
    let mut out: Vec<(u16, u16)> = Vec::new();
    let mut j: usize = 0;
    assert(corners@.take(0) =~= Seq::<(u16, u16)>::empty());
    while j < corners.len()
        invariant
            j <= corners@.len(),
            ngon_size > 0 || corners@.len() == 0,
            out@ == with_restarts(corners@.take(j as int), ngon_size as nat),
        decreases corners.len() - j,
    {
        proof {
            lemma_restarts_push(corners@.take(j as int), corners@[j as int], ngon_size as nat);
            assert(corners@.take(j + 1) =~= corners@.take(j as int).push(corners@[j as int]));
        }
        if j % ngon_size == 0 {
            out.push((0xffff, 0xffff));
        }
        out.push(corners[j]);
        j = j + 1;
    }
    assert(corners@.take(corners@.len() as int) =~= corners@);
    out
}

/// The position index of each corner.
pub open spec fn position_indices_of(s: Seq<(u16, u16)>) -> Seq<u16> {
    s.map_values(|c: (u16, u16)| c.0)
}

/// The position index of each corner, in order.
pub fn position_indices(corners: &Vec<(u16, u16)>) -> (r: Vec<u16>)
    ensures
        r@ == position_indices_of(corners@),
{
    let mut out: Vec<u16> = Vec::new();
    let mut j: usize = 0;
    while j < corners.len()
        invariant
            j <= corners@.len(),
            out@ =~= position_indices_of(corners@.take(j as int)),
        decreases corners.len() - j,
    {
        out.push(corners[j].0);
        assert(corners@.take(j + 1) =~= corners@.take(j as int).push(corners@[j as int]));
        j = j + 1;
    }
    assert(corners@.take(corners@.len() as int) =~= corners@);
    out
}

/// What the GPU gets for a mesh: its vertices, and indices into them
/// separated by restart markers.
#[derive(Clone, Debug, PartialEq, Eq)]
pub struct Mesh {
    pub vertices: Vec<Vertex>,
    pub indices: Vec<u16>,
    pub primitive: IndexPrimitive,
}

/// The vertices and indices of a mesh, `None` where splitting the vertices
/// fails.
pub open spec fn mesh_of(
    positions: Seq<[u32; 4]>,
    normals: Seq<[u32; 4]>,
    corners: Seq<(u16, u16)>,
    ngon_size: usize,
    prim: Primitive,
) -> Option<(Seq<Vertex>, Seq<u16>)> {
    match split_upto(positions, normals, corners, corners.len()) {
        None => None,
        Some(st) => Some(
            (
                st.vertices,
                position_indices_of(with_restarts(wire_order(st.corners, ngon_size, prim), ngon_size as nat)),
            ),
        ),
    }
}

/// The index list of a mesh holds one index per corner plus one restart
/// marker `0xffff` per face (the last perhaps incomplete), the markers at every
/// `ngon_size + 1`-th place from the first on.
pub proof fn law_mesh_index_layout(
    positions: Seq<[u32; 4]>,
    normals: Seq<[u32; 4]>,
    corners: Seq<(u16, u16)>,
    ngon_size: usize,
    prim: Primitive,
)
    requires
        ngon_size > 0,
        mesh_of(positions, normals, corners, ngon_size, prim) is Some,
    ensures
        mesh_of(positions, normals, corners, ngon_size, prim) matches Some((vs, idx)) && {
            &&& vs.len() <= corners.len()
            &&& idx.len() == corners.len() + (corners.len() + ngon_size - 1) / (ngon_size as int)
            &&& forall|j: int| 0 <= j < idx.len() && j % (ngon_size as int + 1) == 0 ==> #[trigger] idx[j] == 0xffff
        },
{
    lemma_split_facts(positions, normals, corners, corners.len());
    let st = split_upto(positions, normals, corners, corners.len()).unwrap();
    let w = wire_order(st.corners, ngon_size, prim);
    law_restart_layout(w, ngon_size as nat);
    let t = with_restarts(w, ngon_size as nat);
    let idx = position_indices_of(t);
    assert forall|j: int| 0 <= j < idx.len() && j % (ngon_size as int + 1) == 0 implies #[trigger] idx[j] == 0xffff by {
        assert(t[j] == restart_layout_entry(w, ngon_size as nat, j));
    }
}

/// The mesh's vertices are those of splitting, and each index that is not a
/// restart marker is the position index of its corner after splitting (so a
/// corner that splitting rewrote points at the copied position): for `n`
/// corners per face, entry `j` with `j % (n + 1) != 0` belongs to corner
/// `(j / (n + 1)) * n + j % (n + 1) - 1`, taken in wireframe order where the
/// corners are reordered and as split otherwise.
pub proof fn law_mesh_indices_follow_split_corners(
    positions: Seq<[u32; 4]>,
    normals: Seq<[u32; 4]>,
    corners: Seq<(u16, u16)>,
    ngon_size: usize,
    prim: Primitive,
)
    requires
        ngon_size > 0,
        split_upto(positions, normals, corners, corners.len()) is Some,
    ensures
        ({
            let st = split_upto(positions, normals, corners, corners.len()).unwrap();
            let m = ngon_size as int + 1;
            mesh_of(positions, normals, corners, ngon_size, prim) matches Some((vs, idx)) && {
                &&& vs == st.vertices
                &&& forall|j: int|
                    0 <= j < idx.len() && j % m != 0 ==> {
                        let c = (j / m) * (ngon_size as int) + j % m - 1;
                        &&& 0 <= c < st.corners.len()
                        &&& #[trigger] idx[j] == wire_order(st.corners, ngon_size, prim)[c].0
                        &&& !reorders(ngon_size, prim) ==> idx[j] == st.corners[c].0
                    }
            }
        }),
{
    lemma_split_facts(positions, normals, corners, corners.len());
    let st = split_upto(positions, normals, corners, corners.len()).unwrap();
    let w = wire_order(st.corners, ngon_size, prim);
    law_restart_layout(w, ngon_size as nat);
    law_wire_order_blocks(st.corners, ngon_size, prim);
    let t = with_restarts(w, ngon_size as nat);
    let idx = position_indices_of(t);
    let m = ngon_size as int + 1;
    assert forall|j: int| 0 <= j < idx.len() && j % m != 0 implies {
        let c = (j / m) * (ngon_size as int) + j % m - 1;
        &&& 0 <= c < st.corners.len()
        &&& #[trigger] idx[j] == w[c].0
        &&& !reorders(ngon_size, prim) ==> idx[j] == st.corners[c].0
    } by {
        assert(t[j] == restart_layout_entry(w, ngon_size as nat, j));
        assert(j % (ngon_size as int + 1) != 0);
    }
}

/// Builds the mesh that the GPU draws from the (scaled) positions, the
/// normals and the face corners of a mesh file.
pub fn build_mesh(
    positions: Vec<[u32; 4]>,
    normals: &Vec<[u32; 4]>,
    corners: Vec<(u16, u16)>,
    ngon_size: usize,
    prim: Primitive,
) -> (r: Option<Mesh>)
    requires
        ngon_size > 0 || corners@.len() == 0,
    ensures
        r is None <==> mesh_of(positions@, normals@, corners@, ngon_size, prim) is None,
        r matches Some(m) ==> mesh_of(positions@, normals@, corners@, ngon_size, prim) == Some(
            (m.vertices@, m.indices@),
        ) && m.primitive == index_primitive_of(prim),
{
    let ghost c0 = corners@;
    let (vertices, mut split) = match split_vertices(positions, normals, corners) {
        Some(out) => out,
        None => return None,
    };
    wireframe_order(&mut split, ngon_size, prim);
    let grouped = insert_restarts(&split, ngon_size);
    let indices = position_indices(&grouped);
    Some(Mesh { vertices, indices, primitive: index_primitive(prim) })
}

} // verus!
