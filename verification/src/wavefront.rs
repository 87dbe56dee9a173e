//! The mesh: vertices and triangular faces.
//!
//! Vertices are object-space points in decimal fixed point; every face
//! holds three indices into the vertex list, already resolved to be
//! in range.

use vstd::prelude::*;
use vstd::slice::slice_subrange;
use crate::geometry::pt_in_range;
use crate::geometry::Point3D;
use crate::shading::MAX_WORLD;

verus! {

/// A triangular face: three indices into the mesh's vertex list.
#[derive(Clone, Copy, Debug, PartialEq, Eq, Structural)]
pub struct Face {
    pub a: usize,
    pub b: usize,
    pub c: usize,
}

/// A triangulated mesh.
#[derive(Debug)]
pub struct Mesh {
    pub vertices: Vec<Point3D>,
    pub faces: Vec<Face>,
}

impl Mesh {
    /// Every face index addresses a vertex, and every vertex is within the
    /// world-coordinate capacity.
    pub open spec fn wf(self) -> bool {
        &&& forall|i: int|
            0 <= i < self.faces.len() ==> (#[trigger] self.faces[i]).a < self.vertices.len()
                && self.faces[i].b < self.vertices.len() && self.faces[i].c < self.vertices.len()
        &&& forall|i: int|
            0 <= i < self.vertices.len() ==> pt_in_range(
                #[trigger] self.vertices[i],
                MAX_WORLD as int,
            )
    }

    /// Checks well-formedness: every face index in range and every vertex
    /// within capacity.
    pub fn is_valid(&self) -> (r: bool)
        ensures
            r == self.wf(),
    {
        let nv = self.vertices.len();
        let mut i: usize = 0;
        while i < self.faces.len()
            invariant
                nv == self.vertices.len(),
                0 <= i <= self.faces.len(),
                forall|j: int|
                    0 <= j < i ==> (#[trigger] self.faces[j]).a < self.vertices.len()
                        && self.faces[j].b < self.vertices.len() && self.faces[j].c
                        < self.vertices.len(),
            decreases self.faces.len() - i,
        {
            let f = self.faces[i];
            if f.a >= nv || f.b >= nv || f.c >= nv {
                proof {
                    let j = i as int;
                    assert(self.faces[j].a >= self.vertices.len() || self.faces[j].b
                        >= self.vertices.len() || self.faces[j].c >= self.vertices.len());
                }
                return false;
            }
            proof {
                assert forall|j: int| 0 <= j < i + 1 implies (#[trigger] self.faces[j]).a
                    < self.vertices.len() && self.faces[j].b < self.vertices.len()
                    && self.faces[j].c < self.vertices.len() by {
                    if j == i as int {
                        assert(self.faces[j] == f);
                    }
                }
            }
            i = i + 1;
        }
        let mut i: usize = 0;
        while i < self.vertices.len()
            invariant
                0 <= i <= self.vertices.len(),
                forall|j: int|
                    0 <= j < i ==> pt_in_range(#[trigger] self.vertices[j], MAX_WORLD as int),
            decreases self.vertices.len() - i,
        {
            let v = self.vertices[i];
            if v.x < -MAX_WORLD || v.x > MAX_WORLD || v.y < -MAX_WORLD || v.y > MAX_WORLD || v.z
                < -MAX_WORLD || v.z > MAX_WORLD {
                proof {
                    assert(!pt_in_range(self.vertices[i as int], MAX_WORLD as int));
                }
                return false;
            }
            proof {
                assert forall|j: int| 0 <= j < i + 1 implies pt_in_range(
                    #[trigger] self.vertices[j],
                    MAX_WORLD as int,
                ) by {
                    if j == i as int {
                        assert(self.vertices[j] == v);
                    }
                }
            }
            i = i + 1;
        }
        true
    }
}


/// A load failure; any of these aborts the whole load.
#[derive(Clone, Copy, Debug, PartialEq, Eq, Structural)]
pub enum LoadError {
    /// A vertex line with a missing, malformed or out-of-capacity
    /// coordinate token.
    BadVertex,
    /// A face line with a missing or malformed index group.
    BadFace,
    /// A face index that addresses no vertex after conversion.
    BadIndex,
}

/// Token separators inside a line: space, tab, carriage return.
pub open spec fn is_space(b: u8) -> bool {
    b == 32 || b == 9 || b == 13
}

/// An ASCII decimal digit.
pub open spec fn is_digit(b: u8) -> bool {
    48 <= b <= 57
}

/// Position of the first newline at or after `i`, or the length.
pub open spec fn find_nl(s: Seq<u8>, i: int) -> int
    decreases s.len() - i,
{
    if i < 0 || i >= s.len() {
        s.len() as int
    } else if s[i] == 10 {
        i
    } else {
        find_nl(s, i + 1)
    }
}

/// Position of the first non-separator at or after `i`, or the length.
pub open spec fn skip_spaces(s: Seq<u8>, i: int) -> int
    decreases s.len() - i,
{
    if i < 0 || i >= s.len() {
        s.len() as int
    } else if is_space(s[i]) {
        skip_spaces(s, i + 1)
    } else {
        i
    }
}

/// Position of the first separator at or after `i`, or the length: the
/// end of the token starting at `i`.
pub open spec fn token_end(s: Seq<u8>, i: int) -> int
    decreases s.len() - i,
{
    if i < 0 || i >= s.len() {
        s.len() as int
    } else if is_space(s[i]) {
        i
    } else {
        token_end(s, i + 1)
    }
}

/// Position of the first slash at or after `i`, or the length.
pub open spec fn find_slash(s: Seq<u8>, i: int) -> int
    decreases s.len() - i,
{
    if i < 0 || i >= s.len() {
        s.len() as int
    } else if s[i] == 47 {
        i
    } else {
        find_slash(s, i + 1)
    }
}

/// The scanners stay within `[i, s.len()]`.
pub proof fn lemma_scan_range(s: Seq<u8>, i: int)
    requires
        0 <= i <= s.len(),
    ensures
        i <= find_nl(s, i) <= s.len(),
        i <= skip_spaces(s, i) <= s.len(),
        i <= token_end(s, i) <= s.len(),
        i <= find_slash(s, i) <= s.len(),
    decreases s.len() - i,
{
    if i < s.len() {
        lemma_scan_range(s, i + 1);
    }
}

/// Largest significant-digit value a mantissa may collect: 34 digits,
/// the window in which the fixed-point result is still computed exactly.
pub const MANT_CAP: u128 = 10_000_000_000_000_000_000_000_000_000_000_000;

/// The state of the mantissa scanner: validity, whether the decimal point
/// was seen, whether any digit was seen, the significant digits collected
/// so far, the run of zeros not yet absorbed into them, and the count of
/// fraction digits.
pub struct MantScan {
    pub ok: bool,
    pub dot: bool,
    pub has: bool,
    pub m: int,
    pub z: int,
    pub fdig: int,
}

/// One character of a mantissa.  A second point or a non-digit
/// invalidates the token.  A zero digit joins a pending run, so trailing
/// zeros never count as significant; a nonzero digit absorbs the run.  A
/// mantissa of more than 34 significant digits is beyond capacity and
/// invalidates the token.
pub open spec fn mant_step(st: MantScan, c: u8) -> MantScan {
    if !st.ok {
        st
    } else if c == 46 {
        if st.dot {
            MantScan { ok: false, ..st }
        } else {
            MantScan { dot: true, ..st }
        }
    } else if is_digit(c) {
        let fd = if st.dot {
            st.fdig + 1
        } else {
            st.fdig
        };
        if c == 48 {
            MantScan { has: true, z: st.z + 1, fdig: fd, ..st }
        } else if st.m * pow10(st.z + 1) + (c - 48) > MANT_CAP {
            MantScan { ok: false, fdig: fd, ..st }
        } else {
            MantScan { has: true, m: st.m * pow10(st.z + 1) + (c - 48), z: 0, fdig: fd, ..st }
        }
    } else {
        MantScan { ok: false, ..st }
    }
}

/// The scan of a whole mantissa, left to right.
pub open spec fn mant_scan(s: Seq<u8>) -> MantScan
    decreases s.len(),
{
    if s.len() == 0 {
        MantScan { ok: true, dot: false, has: false, m: 0, z: 0, fdig: 0 }
    } else {
        mant_step(mant_scan(s.drop_last()), s.last())
    }
}

/// Ten to the `k`.
pub open spec fn pow10(k: int) -> int
    decreases k,
{
    if k <= 0 {
        1
    } else {
        10 * pow10(k - 1)
    }
}

/// Position of the first exponent marker (`e` or `E`) at or after `i`,
/// or the length.
pub open spec fn find_exp(s: Seq<u8>, i: int) -> int
    decreases s.len() - i,
{
    if i < 0 || i >= s.len() {
        s.len() as int
    } else if s[i] == 101 || s[i] == 69 {
        i
    } else {
        find_exp(s, i + 1)
    }
}

/// The running value of a plain digit string.
pub struct DigScan {
    pub ok: bool,
    pub val: int,
}

/// The scan of a digit string: digits only, the exact value.
pub open spec fn dig_scan(s: Seq<u8>) -> DigScan
    decreases s.len(),
{
    if s.len() == 0 {
        DigScan { ok: true, val: 0 }
    } else {
        let st = dig_scan(s.drop_last());
        if !st.ok || !is_digit(s.last()) {
            DigScan { ok: false, val: 0 }
        } else {
            DigScan { ok: true, val: st.val * 10 + (s.last() - 48) }
        }
    }
}

/// The value of an exponent part: an optional sign and at least one digit.
pub open spec fn exp_value(s: Seq<u8>) -> Option<int> {
    let signed = s.len() > 0 && (s[0] == 43 || s[0] == 45);
    let body = if signed {
        s.skip(1)
    } else {
        s
    };
    let st = dig_scan(body);
    if st.ok && body.len() >= 1 {
        if s.len() > 0 && s[0] == 45 {
            Some(-st.val)
        } else {
            Some(st.val)
        }
    } else {
        Option::None
    }
}

/// The fixed-point value of a coordinate token: an optional sign, a
/// mantissa with at most one decimal point and at least one digit, and an
/// optional exponent part (`e` or `E`, an optional sign, at least one
/// digit).  The value scaled by one million is truncated toward zero.
/// Nothing comes back for a token over 100 bytes, a mantissa of more than
/// 34 significant digits, or a value beyond the world capacity.
pub open spec fn coord_value(tok: Seq<u8>) -> Option<i64> {
    if tok.len() > 100 {
        Option::None
    } else {
        let sl: int = if tok.len() > 0 && (tok[0] == 43 || tok[0] == 45) {
            1
        } else {
            0
        };
        let ep = find_exp(tok, sl);
        let st = mant_scan(tok.subrange(sl, ep));
        let ex = if ep < tok.len() {
            exp_value(tok.subrange(ep + 1, tok.len() as int))
        } else {
            Some(0int)
        };
        match ex {
            Some(e) => {
                if st.ok && st.has {
                    let shift = st.z + 6 + e - st.fdig;
                    let mag = if st.m == 0 {
                        0
                    } else if shift >= 0 {
                        st.m * pow10(shift)
                    } else {
                        st.m / pow10(-shift)
                    };
                    if mag <= MAX_WORLD {
                        if tok.len() > 0 && tok[0] == 45 {
                            Some((-mag) as i64)
                        } else {
                            Some(mag as i64)
                        }
                    } else {
                        Option::None
                    }
                } else {
                    Option::None
                }
            },
            Option::None => Option::None,
        }
    }
}

/// The state of the face-index scanner.
pub struct IdxScan {
    pub ok: bool,
    pub val: int,
}

/// The scan of an index token body: digits only, value capped at `10^12`
/// (an index beyond that addresses no realizable vertex list and the
/// token is rejected as malformed).
pub open spec fn idx_scan(s: Seq<u8>) -> IdxScan
    decreases s.len(),
{
    if s.len() == 0 {
        IdxScan { ok: true, val: 0 }
    } else {
        let st = idx_scan(s.drop_last());
        if !st.ok || !is_digit(s.last()) {
            IdxScan { ok: false, val: 0 }
        } else if st.val * 10 + (s.last() - 48) > 1_000_000_000_000 {
            IdxScan { ok: false, val: 0 }
        } else {
            IdxScan { ok: true, val: st.val * 10 + (s.last() - 48) }
        }
    }
}

/// The value of an index token: an optional sign and at least one digit.
pub open spec fn index_value(tok: Seq<u8>) -> Option<i64> {
    let signed = tok.len() > 0 && (tok[0] == 43 || tok[0] == 45);
    let body = if signed {
        tok.skip(1)
    } else {
        tok
    };
    let st = idx_scan(body);
    if st.ok && body.len() >= 1 {
        if tok.len() > 0 && tok[0] == 45 {
            Some((-st.val) as i64)
        } else {
            Some(st.val as i64)
        }
    } else {
        Option::None
    }
}

/// A line that declares a vertex: it begins with `v` and a space.
pub open spec fn is_vertex_line(line: Seq<u8>) -> bool {
    line.len() >= 2 && line[0] == 118 && line[1] == 32
}

/// A line that declares a face: it begins with `f` and a space.
pub open spec fn is_face_line(line: Seq<u8>) -> bool {
    line.len() >= 2 && line[0] == 102 && line[1] == 32
}

/// The vertex a `v` line declares: its first three tokens as fixed-point
/// coordinates.  Missing or invalid tokens give nothing; extra tokens are
/// ignored.
pub open spec fn vertex_line_value(line: Seq<u8>) -> Option<Point3D> {
    let a0 = skip_spaces(line, 1);
    let a1 = token_end(line, a0);
    let b0 = skip_spaces(line, a1);
    let b1 = token_end(line, b0);
    let c0 = skip_spaces(line, b1);
    let c1 = token_end(line, c0);
    if a0 == line.len() || b0 == line.len() || c0 == line.len() {
        Option::None
    } else {
        match (coord_value(line.subrange(a0, a1)), coord_value(line.subrange(b0, b1)), coord_value(
            line.subrange(c0, c1),
        )) {
            (Some(x), Some(y), Some(z)) => Some(Point3D { x, y, z }),
            _ => Option::None,
        }
    }
}

/// The still 1-based index triple an `f` line declares: of each of its
/// first three tokens, the part before the first slash, as an integer.
pub open spec fn face_line_value(line: Seq<u8>) -> Option<(i64, i64, i64)> {
    let a0 = skip_spaces(line, 1);
    let a1 = token_end(line, a0);
    let b0 = skip_spaces(line, a1);
    let b1 = token_end(line, b0);
    let c0 = skip_spaces(line, b1);
    let c1 = token_end(line, c0);
    if a0 == line.len() || b0 == line.len() || c0 == line.len() {
        Option::None
    } else {
        let ga = line.subrange(a0, a1);
        let gb = line.subrange(b0, b1);
        let gc = line.subrange(c0, c1);
        match (index_value(ga.subrange(0, find_slash(ga, 0))), index_value(
            gb.subrange(0, find_slash(gb, 0)),
        ), index_value(gc.subrange(0, find_slash(gc, 0)))) {
            (Some(a), Some(b), Some(c)) => Some((a, b, c)),
            _ => Option::None,
        }
    }
}

/// The parse of the text from `pos` on, line by line, onto the vertices
/// and 1-based face triples collected so far.  A recognized line that
/// does not parse stops everything with its error; an unrecognized line
/// (comments among them) is ignored.
pub open spec fn parse_rec(
    s: Seq<u8>,
    pos: int,
    vs: Seq<Point3D>,
    fs: Seq<(i64, i64, i64)>,
) -> Result<(Seq<Point3D>, Seq<(i64, i64, i64)>), LoadError>
    decreases s.len() - pos via parse_rec_decreases
{
    if pos < 0 || pos >= s.len() {
        Ok((vs, fs))
    } else {
        let e = find_nl(s, pos);
        let next = if e < s.len() {
            e + 1
        } else {
            s.len() as int
        };
        let line = s.subrange(pos, e);
        if is_vertex_line(line) {
            match vertex_line_value(line) {
                Some(p) => parse_rec(s, next, vs.push(p), fs),
                Option::None => Err(LoadError::BadVertex),
            }
        } else if is_face_line(line) {
            match face_line_value(line) {
                Some(t) => parse_rec(s, next, vs, fs.push(t)),
                Option::None => Err(LoadError::BadFace),
            }
        } else {
            parse_rec(s, next, vs, fs)
        }
    }
}

#[via_fn]
proof fn parse_rec_decreases(s: Seq<u8>, pos: int, vs: Seq<Point3D>, fs: Seq<(i64, i64, i64)>) {
    if 0 <= pos < s.len() {
        lemma_scan_range(s, pos);
    }
}

/// Up to the first newline there is no newline, and the scan stops on
/// one.
pub proof fn lemma_find_nl_chars(s: Seq<u8>, i: int)
    requires
        0 <= i <= s.len(),
    ensures
        forall|k: int| i <= k < find_nl(s, i) ==> s[k] != 10,
        find_nl(s, i) < s.len() ==> s[find_nl(s, i)] == 10,
    decreases s.len() - i,
{
    if i < s.len() && s[i] != 10 {
        lemma_find_nl_chars(s, i + 1);
    }
}

/// A recognized line that does not parse poisons the whole load: if the
/// text from `pos` on contains, at a line start `p`, a vertex or face
/// line whose tokens do not parse, then the parse from `pos` returns an
/// error — never a partial mesh.
pub proof fn lemma_bad_line_fails(
    s: Seq<u8>,
    pos: int,
    vs: Seq<Point3D>,
    fs: Seq<(i64, i64, i64)>,
    p: int,
)
    requires
        0 <= pos <= s.len(),
        pos <= p < s.len(),
        p == pos || s[p - 1] == 10,
        ({
            let line = s.subrange(p, find_nl(s, p));
            ||| is_vertex_line(line) && vertex_line_value(line) is None
            ||| is_face_line(line) && face_line_value(line) is None
        }),
    ensures
        parse_rec(s, pos, vs, fs) is Err,
    decreases s.len() - pos,
{
    let e = find_nl(s, pos);
    lemma_scan_range(s, pos);
    lemma_find_nl_chars(s, pos);
    let next = if e < s.len() {
        e + 1
    } else {
        s.len() as int
    };
    let line = s.subrange(pos, e);
    if p == pos {
        // this very line is the bad one, so the parse stops here
    } else {
        // the bad line starts after a newline, which cannot lie inside the
        // current line: the walk reaches it
        assert(s[p - 1] == 10);
        assert(p - 1 >= e);
        assert(e < s.len());
        assert(next <= p);
        if is_vertex_line(line) {
            match vertex_line_value(line) {
                Some(q) => {
                    lemma_bad_line_fails(s, next, vs.push(q), fs, p);
                },
                Option::None => {},
            }
        } else if is_face_line(line) {
            match face_line_value(line) {
                Some(t) => {
                    lemma_bad_line_fails(s, next, vs, fs.push(t), p);
                },
                Option::None => {},
            }
        } else {
            lemma_bad_line_fails(s, next, vs, fs, p);
        }
    }
}

/// The same, for the whole mesh text: a recognized line that does not
/// parse means the load fails and no mesh comes back.
pub proof fn lemma_bad_line_no_mesh(s: Seq<u8>, p: int)
    requires
        0 <= p < s.len(),
        p == 0 || s[p - 1] == 10,
        ({
            let line = s.subrange(p, find_nl(s, p));
            ||| is_vertex_line(line) && vertex_line_value(line) is None
            ||| is_face_line(line) && face_line_value(line) is None
        }),
    ensures
        mesh_value(s) is Err,
{
    lemma_bad_line_fails(s, 0, Seq::empty(), Seq::empty(), p);
}

/// The first-newline scan is pinned by its characterization: no newline
/// before `r`, and `r` is a newline or the end.
pub proof fn lemma_find_nl_unique(s: Seq<u8>, i: int, r: int)
    requires
        0 <= i <= r <= s.len(),
        forall|k: int| i <= k < r ==> s[k] != 10,
        r == s.len() || s[r] == 10,
    ensures
        find_nl(s, i) == r,
    decreases r - i,
{
    if i < r {
        lemma_find_nl_unique(s, i + 1, r);
    }
}

/// The parse looks only at the text from its position on: equal suffixes
/// parse equally.
pub proof fn lemma_parse_suffix(
    s1: Seq<u8>,
    p1: int,
    s2: Seq<u8>,
    p2: int,
    vs: Seq<Point3D>,
    fs: Seq<(i64, i64, i64)>,
)
    requires
        0 <= p1 <= s1.len(),
        0 <= p2 <= s2.len(),
        s1.subrange(p1, s1.len() as int) == s2.subrange(p2, s2.len() as int),
    ensures
        parse_rec(s1, p1, vs, fs) == parse_rec(s2, p2, vs, fs),
    decreases s1.len() - p1,
{
    assert(s1.subrange(p1, s1.len() as int).len() == s1.len() - p1);
    assert(s2.subrange(p2, s2.len() as int).len() == s2.len() - p2);
    assert(s1.len() - p1 == s2.len() - p2);
    if p1 < s1.len() {
        assert forall|k: int| 0 <= k < s1.len() - p1 implies #[trigger] s1[p1 + k] == s2[p2 + k] by {
            let su1 = s1.subrange(p1, s1.len() as int);
            let su2 = s2.subrange(p2, s2.len() as int);
            assert(su1[k] == s1[p1 + k]);
            assert(su2[k] == s2[p2 + k]);
            assert(su1[k] == su2[k]);
        }
        let e1 = find_nl(s1, p1);
        lemma_scan_range(s1, p1);
        lemma_find_nl_chars(s1, p1);
        let d = e1 - p1;
        assert forall|k: int| p2 <= k < p2 + d implies s2[k] != 10 by {
            assert(s1[p1 + (k - p2)] == s2[k]);
        }
        if e1 < s1.len() {
            assert(s2[p2 + d] == s1[p1 + d] == 10);
        }
        lemma_find_nl_unique(s2, p2, p2 + d);
        let line1 = s1.subrange(p1, e1);
        let line2 = s2.subrange(p2, p2 + d);
        assert forall|k: int| 0 <= k < d implies line1[k] == line2[k] by {
            assert(line1[k] == s1[p1 + k]);
            assert(line2[k] == s2[p2 + k]);
        }
        assert(line1 =~= line2);
        let n1 = if e1 < s1.len() {
            e1 + 1
        } else {
            s1.len() as int
        };
        let n2 = if p2 + d < s2.len() {
            p2 + d + 1
        } else {
            s2.len() as int
        };
        assert forall|k: int| 0 <= k < s1.len() - n1 implies s1.subrange(n1, s1.len() as int)[k]
            == s2.subrange(n2, s2.len() as int)[k] by {
            assert(s1.subrange(n1, s1.len() as int)[k] == s1[n1 + k]);
            assert(s2.subrange(n2, s2.len() as int)[k] == s2[n2 + k]);
            assert(s1[p1 + (n1 - p1 + k)] == s2[p2 + (n1 - p1 + k)]);
            assert(n1 + k == p1 + (n1 - p1 + k) && n2 + k == p2 + (n1 - p1 + k));
        }
        assert(s1.subrange(n1, s1.len() as int) =~= s2.subrange(n2, s2.len() as int));
        if is_vertex_line(line1) {
            match vertex_line_value(line1) {
                Some(q) => {
                    lemma_parse_suffix(s1, n1, s2, n2, vs.push(q), fs);
                },
                Option::None => {},
            }
        } else if is_face_line(line1) {
            match face_line_value(line1) {
                Some(t) => {
                    lemma_parse_suffix(s1, n1, s2, n2, vs, fs.push(t));
                },
                Option::None => {},
            }
        } else {
            lemma_parse_suffix(s1, n1, s2, n2, vs, fs);
        }
    }
}

/// Inserting one unrecognized line (comments among them) at a line
/// boundary changes nothing: the walk from any position inside the leading
/// text parses the same with and without it.
proof fn lemma_insert_walk(
    a: Seq<u8>,
    line: Seq<u8>,
    b: Seq<u8>,
    pos: int,
    vs: Seq<Point3D>,
    fs: Seq<(i64, i64, i64)>,
)
    requires
        a.len() == 0 || a[a.len() - 1] == 10,
        forall|k: int| 0 <= k < line.len() ==> line[k] != 10,
        !is_vertex_line(line),
        !is_face_line(line),
        0 <= pos <= a.len(),
    ensures
        parse_rec(a + line.push(10) + b, pos, vs, fs) == parse_rec(a + b, pos, vs, fs),
    decreases a.len() - pos + 1,
{
    let sm = a + line.push(10) + b;
    let so = a + b;
    assert(sm.len() == a.len() + line.len() + 1 + b.len());
    if pos == a.len() {
        // the inserted line stands here; it is skipped whole
        let e = pos + line.len();
        assert forall|k: int| pos <= k < e implies sm[k] != 10 by {
            assert(sm[k] == line.push(10)[k - a.len()] == line[k - a.len()]);
        }
        assert(sm[e] == line.push(10)[line.len() as int] == 10);
        lemma_find_nl_unique(sm, pos, e);
        assert(sm.subrange(pos, e) =~= line);
        assert(parse_rec(sm, pos, vs, fs) == parse_rec(sm, e + 1, vs, fs));
        assert(sm.subrange(e + 1, sm.len() as int) =~= so.subrange(pos, so.len() as int));
        lemma_parse_suffix(sm, e + 1, so, pos, vs, fs);
    } else {
        // inside the leading text both walks see the same line
        assert(a.len() >= 1 && a[a.len() - 1] == 10);
        assert forall|k: int| 0 <= k < a.len() implies sm[k] == a[k] && so[k] == a[k] by {}
        let e = find_nl(so, pos);
        lemma_scan_range(so, pos);
        lemma_find_nl_chars(so, pos);
        assert(e <= a.len() - 1) by {
            if e > a.len() - 1 {
                assert(so[a.len() - 1] != 10);
            }
        }
        assert(so[e] == 10);
        assert forall|k: int| pos <= k < e implies sm[k] != 10 by {
            assert(sm[k] == so[k]);
        }
        assert(sm[e] == so[e] == 10);
        lemma_find_nl_unique(sm, pos, e);
        let lm = sm.subrange(pos, e);
        let lo = so.subrange(pos, e);
        assert(lm =~= lo);
        if is_vertex_line(lo) {
            match vertex_line_value(lo) {
                Some(q) => {
                    lemma_insert_walk(a, line, b, e + 1, vs.push(q), fs);
                },
                Option::None => {},
            }
        } else if is_face_line(lo) {
            match face_line_value(lo) {
                Some(t) => {
                    lemma_insert_walk(a, line, b, e + 1, vs, fs.push(t));
                },
                Option::None => {},
            }
        } else {
            lemma_insert_walk(a, line, b, e + 1, vs, fs);
        }
    }
}

/// Comment invariance: inserting an unrecognized line — one beginning
/// with `#` among them — at any line boundary, or removing one, leaves
/// the parsed mesh unchanged.
pub proof fn lemma_comment_line_ignored(a: Seq<u8>, line: Seq<u8>, b: Seq<u8>)
    requires
        a.len() == 0 || a[a.len() - 1] == 10,
        forall|k: int| 0 <= k < line.len() ==> line[k] != 10,
        !is_vertex_line(line),
        !is_face_line(line),
    ensures
        mesh_value(a + line.push(10) + b) == mesh_value(a + b),
{
    lemma_insert_walk(a, line, b, 0, Seq::empty(), Seq::empty());
}

/// Every 1-based triple addresses a vertex among `n`.
pub open spec fn faces_in_range(fs: Seq<(i64, i64, i64)>, n: int) -> bool {
    forall|i: int|
        0 <= i < fs.len() ==> 1 <= (#[trigger] fs[i]).0 <= n && 1 <= fs[i].1 <= n && 1 <= fs[i].2
            <= n
}

/// The parse of a whole mesh text: the line-by-line parse, then the
/// check that every face index addresses a declared vertex.
pub open spec fn mesh_value(s: Seq<u8>) -> Result<
    (Seq<Point3D>, Seq<(i64, i64, i64)>),
    LoadError,
> {
    match parse_rec(s, 0, Seq::empty(), Seq::empty()) {
        Ok((vs, fs)) => if faces_in_range(fs, vs.len() as int) {
            Ok((vs, fs))
        } else {
            Err(LoadError::BadIndex)
        },
        Err(e) => Err(e),
    }
}

/// The built mesh carries the parsed vertices and the parsed triples
/// shifted to 0-based indices.
pub open spec fn mesh_matches(mesh: Mesh, vs: Seq<Point3D>, fs: Seq<(i64, i64, i64)>) -> bool {
    &&& mesh.vertices@ == vs
    &&& mesh.faces.len() == fs.len()
    &&& forall|k: int|
        0 <= k < fs.len() ==> (#[trigger] mesh.faces[k]).a + 1 == fs[k].0 && mesh.faces[k].b + 1
            == fs[k].1 && mesh.faces[k].c + 1 == fs[k].2
}


/// Ten to the `k` is positive.
pub proof fn lemma_pow10_pos(k: int)
    ensures
        pow10(k) >= 1,
    decreases k,
{
    if k > 0 {
        lemma_pow10_pos(k - 1);
    }
}

/// Ten to the `k` never shrinks as `k` grows.
pub proof fn lemma_pow10_mono(a: int, b: int)
    requires
        a <= b,
    ensures
        pow10(a) <= pow10(b),
    decreases b - a,
{
    if a < b {
        lemma_pow10_mono(a, b - 1);
        lemma_pow10_pos(b - 1);
    }
}

/// The concrete powers of ten the parser computes with.
pub proof fn lemma_pow10_values()
    ensures
        pow10(6) == 1_000_000,
        pow10(9) == 1_000_000_000,
        pow10(34) == 10_000_000_000_000_000_000_000_000_000_000_000,
        pow10(35) == 100_000_000_000_000_000_000_000_000_000_000_000,
{
    assert(pow10(0) == 1);
    assert(pow10(1) == 10);
    assert(pow10(2) == 100);
    assert(pow10(3) == 1000);
    assert(pow10(4) == 10000);
    assert(pow10(5) == 100000);
    assert(pow10(6) == 1000000);
    assert(pow10(7) == 10000000);
    assert(pow10(8) == 100000000);
    assert(pow10(9) == 1000000000);
    assert(pow10(10) == 10000000000);
    assert(pow10(11) == 100000000000);
    assert(pow10(12) == 1000000000000);
    assert(pow10(13) == 10000000000000);
    assert(pow10(14) == 100000000000000);
    assert(pow10(15) == 1000000000000000);
    assert(pow10(16) == 10000000000000000);
    assert(pow10(17) == 100000000000000000);
    assert(pow10(18) == 1000000000000000000);
    assert(pow10(19) == 10000000000000000000);
    assert(pow10(20) == 100000000000000000000);
    assert(pow10(21) == 1000000000000000000000);
    assert(pow10(22) == 10000000000000000000000);
    assert(pow10(23) == 100000000000000000000000);
    assert(pow10(24) == 1000000000000000000000000);
    assert(pow10(25) == 10000000000000000000000000);
    assert(pow10(26) == 100000000000000000000000000);
    assert(pow10(27) == 1000000000000000000000000000);
    assert(pow10(28) == 10000000000000000000000000000);
    assert(pow10(29) == 100000000000000000000000000000);
    assert(pow10(30) == 1000000000000000000000000000000);
    assert(pow10(31) == 10000000000000000000000000000000);
    assert(pow10(32) == 100000000000000000000000000000000);
    assert(pow10(33) == 1000000000000000000000000000000000);
    assert(pow10(34) == 10000000000000000000000000000000000);
    assert(pow10(35) == 100000000000000000000000000000000000);
}

/// The mantissa scanner's numeric state stays within its envelope.
pub proof fn lemma_mant_bounds(s: Seq<u8>)
    ensures
        0 <= mant_scan(s).m <= MANT_CAP,
        0 <= mant_scan(s).z,
        0 <= mant_scan(s).fdig,
    decreases s.len(),
{
    if s.len() > 0 {
        lemma_mant_bounds(s.drop_last());
        let st = mant_scan(s.drop_last());
        lemma_pow10_pos(st.z + 1);
        assert(st.m * pow10(st.z + 1) >= 0) by (nonlinear_arith)
            requires
                st.m >= 0,
                pow10(st.z + 1) >= 1,
        ;
    }
}

/// The digit scanner's value never goes negative.
pub proof fn lemma_dig_nonneg(s: Seq<u8>)
    ensures
        dig_scan(s).val >= 0,
    decreases s.len(),
{
    if s.len() > 0 {
        lemma_dig_nonneg(s.drop_last());
    }
}

/// A parsed coordinate is within the world capacity.
pub proof fn lemma_coord_range(tok: Seq<u8>)
    ensures
        match coord_value(tok) {
            Some(v) => -MAX_WORLD <= v <= MAX_WORLD,
            Option::None => true,
        },
{
    if tok.len() <= 100 {
        let sl: int = if tok.len() > 0 && (tok[0] == 43 || tok[0] == 45) {
            1
        } else {
            0
        };
        let ep = find_exp(tok, sl);
        let st = mant_scan(tok.subrange(sl, ep));
        lemma_mant_bounds(tok.subrange(sl, ep));
        let ex = if ep < tok.len() {
            exp_value(tok.subrange(ep + 1, tok.len() as int))
        } else {
            Some(0int)
        };
        match ex {
            Some(e) => {
                let shift = st.z + 6 + e - st.fdig;
                lemma_pow10_pos(shift);
                lemma_pow10_pos(-shift);
                if st.m != 0 && shift >= 0 {
                    assert(st.m * pow10(shift) >= 0) by (nonlinear_arith)
                        requires
                            st.m >= 0,
                            pow10(shift) >= 1,
                    ;
                }
                if st.m != 0 && shift < 0 {
                    assert(st.m / pow10(-shift) >= 0) by (nonlinear_arith)
                        requires
                            st.m >= 0,
                            pow10(-shift) >= 1,
                    ;
                }
            },
            Option::None => {},
        }
    }
}

/// Position of the first newline at or after `from`.
fn find_nl_exec(s: &[u8], from: usize) -> (r: usize)
    requires
        from <= s@.len(),
    ensures
        r == find_nl(s@, from as int),
        from <= r <= s@.len(),
{
    let n = s.len();
    let mut i = from;
    while i < n
        invariant
            from <= i <= n,
            n == s@.len(),
            find_nl(s@, from as int) == find_nl(s@, i as int),
        decreases n - i,
    {
        if s[i] == 10 {
            return i;
        }
        i = i + 1;
    }
    i
}

/// Position of the first non-separator at or after `from`.
fn skip_spaces_exec(s: &[u8], from: usize) -> (r: usize)
    requires
        from <= s@.len(),
    ensures
        r == skip_spaces(s@, from as int),
        from <= r <= s@.len(),
{
    let n = s.len();
    let mut i = from;
    while i < n
        invariant
            from <= i <= n,
            n == s@.len(),
            skip_spaces(s@, from as int) == skip_spaces(s@, i as int),
        decreases n - i,
    {
        let c = s[i];
        if !(c == 32 || c == 9 || c == 13) {
            return i;
        }
        i = i + 1;
    }
    i
}

/// Position of the first separator at or after `from`.
fn token_end_exec(s: &[u8], from: usize) -> (r: usize)
    requires
        from <= s@.len(),
    ensures
        r == token_end(s@, from as int),
        from <= r <= s@.len(),
{
    let n = s.len();
    let mut i = from;
    while i < n
        invariant
            from <= i <= n,
            n == s@.len(),
            token_end(s@, from as int) == token_end(s@, i as int),
        decreases n - i,
    {
        let c = s[i];
        if c == 32 || c == 9 || c == 13 {
            return i;
        }
        i = i + 1;
    }
    i
}

/// Position of the first slash at or after `from`.
fn find_slash_exec(s: &[u8], from: usize) -> (r: usize)
    requires
        from <= s@.len(),
    ensures
        r == find_slash(s@, from as int),
        from <= r <= s@.len(),
{
    let n = s.len();
    let mut i = from;
    while i < n
        invariant
            from <= i <= n,
            n == s@.len(),
            find_slash(s@, from as int) == find_slash(s@, i as int),
        decreases n - i,
    {
        if s[i] == 47 {
            return i;
        }
        i = i + 1;
    }
    i
}

/// Ten to the `k`, exactly, in 128 bits.
fn pow10_u128(k: usize) -> (r: u128)
    requires
        k <= 35,
    ensures
        r == pow10(k as int),
{
    proof {
        lemma_pow10_values();
    }
    let mut r: u128 = 1;
    let mut j: usize = 0;
    while j < k
        invariant
            0 <= j <= k <= 35,
            r == pow10(j as int),
        decreases k - j,
    {
        proof {
            lemma_pow10_values();
            lemma_pow10_mono(j as int, 34);
            lemma_pow10_pos(j as int);
        }
        r = r * 10;
        j = j + 1;
    }
    r
}

/// Position of the first exponent marker at or after `from`.
fn find_exp_exec(s: &[u8], from: usize) -> (r: usize)
    requires
        from <= s@.len(),
    ensures
        r == find_exp(s@, from as int),
        from <= r <= s@.len(),
{
    let n = s.len();
    let mut i = from;
    while i < n
        invariant
            from <= i <= n,
            n == s@.len(),
            find_exp(s@, from as int) == find_exp(s@, i as int),
        decreases n - i,
    {
        let c = s[i];
        if c == 101 || c == 69 {
            return i;
        }
        i = i + 1;
    }
    i
}

/// Parses the exponent part after the marker: the sign flag and the digit
/// value, saturated at ten million — enough to decide any outcome, since
/// the fixed-point window is far narrower.
fn parse_exp(tok: &[u8], from: usize) -> (r: (bool, i64))
    requires
        from <= tok@.len(),
    ensures
        ({
            let ev = exp_value(tok@.subrange(from as int, tok@.len() as int));
            match ev {
                Some(v) => r.0 && ((-10_000_000 <= v <= 10_000_000 && r.1 == v) || (v > 10_000_000
                    && r.1 == 10_000_000) || (v < -10_000_000 && r.1 == -10_000_000)),
                Option::None => !r.0,
            }
        }),
{
    let n = tok.len();
    let ghost part = tok@.subrange(from as int, n as int);
    let has_sign = from < n && (tok[from] == 43 || tok[from] == 45);
    let neg = from < n && tok[from] == 45;
    let start: usize = if has_sign {
        from + 1
    } else {
        from
    };
    let ghost body = if has_sign {
        part.skip(1)
    } else {
        part
    };
    let mut i = start;
    let mut ok = true;
    let mut val: i64 = 0;
    proof {
        assert(body =~= tok@.subrange(start as int, n as int));
        assert(body.take(0) =~= Seq::<u8>::empty());
    }
    while i < n
        invariant
            start <= i <= n,
            n == tok@.len(),
            body == tok@.subrange(start as int, n as int),
            0 <= val <= 10_000_000,
            ({
                let st = dig_scan(body.take(i - start));
                &&& st.ok == ok
                &&& (st.val <= 10_000_000 ==> val == st.val)
                &&& (st.val > 10_000_000 ==> val == 10_000_000)
            }),
        decreases n - i,
    {
        let c = tok[i];
        proof {
            assert(body.take(i - start + 1).drop_last() =~= body.take(i - start));
            assert(body.take(i - start + 1).last() == body[i - start]);
            assert(body[i - start] == tok@[i as int]);
            lemma_dig_nonneg(body.take(i - start));
        }
        if ok {
            if 48 <= c && c <= 57 {
                let d = (c - 48) as i64;
                let val2 = val * 10 + d;
                if val2 > 10_000_000 {
                    val = 10_000_000;
                } else {
                    val = val2;
                }
            } else {
                ok = false;
                val = 0;
            }
        }
        i = i + 1;
    }
    proof {
        assert(body.take(n - start) =~= body);
        lemma_dig_nonneg(body);
    }
    if ok && n > start {
        if neg {
            (true, -val)
        } else {
            (true, val)
        }
    } else {
        (false, 0)
    }
}

/// Parses one coordinate token to its fixed-point value.
fn parse_coord(tok: &[u8]) -> (r: Option<i64>)
    ensures
        r == coord_value(tok@),
{
    let n = tok.len();
    if n > 100 {
        return Option::None;
    }
    let has_sign = n > 0 && (tok[0] == 43 || tok[0] == 45);
    let neg = n > 0 && tok[0] == 45;
    let start: usize = if has_sign {
        1
    } else {
        0
    };
    let ep = find_exp_exec(tok, start);
    let ghost mant = tok@.subrange(start as int, ep as int);
    let mut i = start;
    let mut ok = true;
    let mut dot = false;
    let mut has = false;
    let mut m: u128 = 0;
    let mut z: usize = 0;
    let mut fdig: usize = 0;
    proof {
        assert(mant.take(0) =~= Seq::<u8>::empty());
    }
    while i < ep
        invariant
            start <= i <= ep <= n,
            n == tok@.len() <= 100,
            mant == tok@.subrange(start as int, ep as int),
            z <= i,
            fdig <= i,
            0 <= m <= MANT_CAP,
            mant_scan(mant.take(i - start)) == (MantScan {
                ok,
                dot,
                has,
                m: m as int,
                z: z as int,
                fdig: fdig as int,
            }),
        decreases ep - i,
    {
        let c = tok[i];
        proof {
            assert(mant.take(i - start + 1).drop_last() =~= mant.take(i - start));
            assert(mant.take(i - start + 1).last() == mant[i - start]);
            assert(mant[i - start] == tok@[i as int]);
            lemma_pow10_values();
        }
        if ok {
            if c == 46 {
                if dot {
                    ok = false;
                } else {
                    dot = true;
                }
            } else if 48 <= c && c <= 57 {
                if dot {
                    fdig = fdig + 1;
                }
                if c == 48 {
                    z = z + 1;
                    has = true;
                } else {
                    let d = (c - 48) as u128;
                    if m == 0 {
                        // only leading zeros are pending: the value so far is zero
                        proof {
                            lemma_pow10_pos(z as int + 1);
                            assert((0int) * pow10(z as int + 1) == 0) by (nonlinear_arith);
                        }
                        m = d;
                        z = 0;
                        has = true;
                    } else if z >= 35 {
                        proof {
                            lemma_pow10_mono(35, z as int + 1);
                            assert((m as int) * pow10(z as int + 1) + (c - 48) > MANT_CAP as int)
                                by (nonlinear_arith)
                                requires
                                    m >= 1,
                                    c >= 48,
                                    pow10(z as int + 1)
                                        >= 100_000_000_000_000_000_000_000_000_000_000_000,
                            ;
                        }
                        ok = false;
                    } else {
                        let p = pow10_u128(z + 1);
                        proof {
                            lemma_pow10_pos(z as int + 1);
                            lemma_pow10_mono(z as int + 1, 35);
                            lemma_pow10_values();
                        }
                        if m > MANT_CAP / p {
                            proof {
                                lemma_div_step(m as int, MANT_CAP as int, p as int);
                            }
                            ok = false;
                        } else {
                            proof {
                                lemma_mul_within(m as int, MANT_CAP as int, p as int);
                            }
                            let m2 = m * p + d;
                            if m2 > MANT_CAP {
                                ok = false;
                            } else {
                                m = m2;
                                z = 0;
                                has = true;
                            }
                        }
                    }
                }
            } else {
                ok = false;
            }
        }
        i = i + 1;
    }
    proof {
        assert(mant.take(ep - start) =~= mant);
    }
    let (eok, eval): (bool, i64) = if ep < n {
        parse_exp(tok, ep + 1)
    } else {
        (true, 0)
    };
    if !(ok && has && eok) {
        return Option::None;
    }
    let ghost st = mant_scan(mant);
    let ghost etrue = (if ep < n {
        exp_value(tok@.subrange(ep as int + 1, n as int))
    } else {
        Some(0int)
    })->Some_0;
    if m == 0 {
        proof {
            assert(coord_value(tok@) == Some(0i64));
        }
        return Some(0);
    }
    let shift: i64 = (z as i64) + 6 + eval - (fdig as i64);
    proof {
        lemma_pow10_values();
        if -10_000_000 <= etrue <= 10_000_000 {
            assert(eval == etrue);
        } else if etrue > 10_000_000 {
            assert(eval == 10_000_000 && st.z + 6 + etrue - st.fdig > 8);
        } else {
            assert(eval == -10_000_000 && st.z + 6 + etrue - st.fdig < -34);
        }
    }
    let ghost tshift = st.z + 6 + etrue - st.fdig;
    if shift > 8 {
        proof {
            assert(tshift > 8);
            lemma_pow10_mono(9, tshift);
            assert(st.m * pow10(tshift) > MAX_WORLD as int) by (nonlinear_arith)
                requires
                    st.m >= 1,
                    pow10(tshift) >= 1_000_000_000,
                    MAX_WORLD < 1_000_000_000,
            ;
        }
        return Option::None;
    }
    if shift < -34 {
        proof {
            assert(tshift < -34);
            lemma_pow10_mono(35, -tshift);
            assert(st.m / pow10(-tshift) == 0) by (nonlinear_arith)
                requires
                    0 <= st.m <= MANT_CAP,
                    pow10(-tshift) >= pow10(35) == 10 * (MANT_CAP as int),
            ;
            assert(coord_value(tok@) == Some(0i64));
        }
        return Some(0);
    }
    proof {
        assert(eval == etrue && shift == tshift);
    }
    let mag: u128 = if shift >= 0 {
        if m > MAX_WORLD as u128 {
            proof {
                lemma_pow10_pos(tshift);
                assert(st.m * pow10(tshift) >= st.m) by (nonlinear_arith)
                    requires
                        st.m >= 1,
                        pow10(tshift) >= 1,
                ;
            }
            return Option::None;
        }
        let p = pow10_u128(shift as usize);
        proof {
            lemma_pow10_pos(tshift);
            lemma_pow10_mono(tshift, 8);
            assert(0 <= (m as int) * (p as int) <= 75_000_000 * 100_000_000) by (nonlinear_arith)
                requires
                    0 <= m <= 75_000_000,
                    1 <= p <= 100_000_000,
            ;
        }
        m * p
    } else {
        let p = pow10_u128((-shift) as usize);
        proof {
            lemma_pow10_pos(-tshift);
        }
        m / p
    };
    proof {
        if tshift >= 0 {
            assert(mag == st.m * pow10(tshift));
        } else {
            lemma_pow10_pos(-tshift);
            assert(mag == st.m / pow10(-tshift));
            assert(st.m / pow10(-tshift) <= st.m) by (nonlinear_arith)
                requires
                    st.m >= 0,
                    pow10(-tshift) >= 1,
            ;
        }
    }
    if mag > MAX_WORLD as u128 {
        return Option::None;
    }
    if neg {
        Some(-(mag as i64))
    } else {
        Some(mag as i64)
    }
}

/// Dividing out the multiplier: `m > cap / p` forces `m * p` past `cap`.
proof fn lemma_div_step(m: int, cap: int, p: int)
    requires
        p >= 1,
        cap >= 0,
        m > cap / p,
    ensures
        m * p > cap,
{
    let d = cap / p;
    assert(cap == d * p + cap % p && 0 <= cap % p < p) by (nonlinear_arith)
        requires
            p >= 1,
            cap >= 0,
            d == cap / p,
    ;
    assert(m * p >= (d + 1) * p && (d + 1) * p == d * p + p) by (nonlinear_arith)
        requires
            m >= d + 1,
            p >= 1,
    ;
}

/// Staying within the divided cap keeps the product within the cap.
proof fn lemma_mul_within(m: int, cap: int, p: int)
    requires
        p >= 1,
        cap >= 0,
        0 <= m <= cap / p,
    ensures
        0 <= m * p <= cap,
{
    let d = cap / p;
    assert(cap == d * p + cap % p && 0 <= cap % p < p) by (nonlinear_arith)
        requires
            p >= 1,
            cap >= 0,
            d == cap / p,
    ;
    assert(0 <= m * p <= d * p) by (nonlinear_arith)
        requires
            0 <= m <= d,
            p >= 1,
    ;
}

/// Parses one index token to its integer value.
fn parse_index(tok: &[u8]) -> (r: Option<i64>)
    ensures
        r == index_value(tok@),
{
    let n = tok.len();
    let has_sign = n > 0 && (tok[0] == 43 || tok[0] == 45);
    let start: usize = if has_sign {
        1
    } else {
        0
    };
    let ghost body = if has_sign {
        tok@.skip(1)
    } else {
        tok@
    };
    let mut i = start;
    let mut ok = true;
    let mut val: i64 = 0;
    proof {
        assert(body.take(0) =~= Seq::<u8>::empty());
    }
    while i < n
        invariant
            start <= i <= n,
            n == tok@.len(),
            start == (if has_sign {
                1int
            } else {
                0int
            }),
            has_sign == (tok@.len() > 0 && (tok@[0] == 43 || tok@[0] == 45)),
            body == (if has_sign {
                tok@.skip(1)
            } else {
                tok@
            }),
            0 <= val <= 1_000_000_000_000,
            idx_scan(body.take(i - start)) == (IdxScan { ok, val: val as int }),
        decreases n - i,
    {
        let c = tok[i];
        proof {
            assert(body.take(i - start + 1).drop_last() =~= body.take(i - start));
            assert(body.take(i - start + 1).last() == body[i - start]);
            assert(body[i - start] == tok@[i as int]);
        }
        if ok {
            if 48 <= c && c <= 57 {
                let d = (c - 48) as i64;
                if val * 10 + d > 1_000_000_000_000 {
                    ok = false;
                    val = 0;
                } else {
                    val = val * 10 + d;
                }
            } else {
                ok = false;
                val = 0;
            }
        }
        i = i + 1;
    }
    proof {
        assert(body.take(n - start) =~= body);
    }
    if ok && n > start {
        if has_sign && tok[0] == 45 {
            Some(-val)
        } else {
            Some(val)
        }
    } else {
        Option::None
    }
}

/// Parses the three coordinate tokens of a vertex line.
fn parse_vertex_line(line: &[u8]) -> (r: Option<Point3D>)
    requires
        line@.len() >= 1,
    ensures
        r == vertex_line_value(line@),
{
    let a0 = skip_spaces_exec(line, 1);
    let a1 = token_end_exec(line, a0);
    let b0 = skip_spaces_exec(line, a1);
    let b1 = token_end_exec(line, b0);
    let c0 = skip_spaces_exec(line, b1);
    let c1 = token_end_exec(line, c0);
    if a0 == line.len() || b0 == line.len() || c0 == line.len() {
        return Option::None;
    }
    let tx = parse_coord(slice_subrange(line, a0, a1));
    let ty = parse_coord(slice_subrange(line, b0, b1));
    let tz = parse_coord(slice_subrange(line, c0, c1));
    match (tx, ty, tz) {
        (Some(x), Some(y), Some(z)) => Some(Point3D { x, y, z }),
        _ => Option::None,
    }
}

/// Parses the three index groups of a face line; of each group only the
/// part before the first slash is read.
fn parse_face_line(line: &[u8]) -> (r: Option<(i64, i64, i64)>)
    requires
        line@.len() >= 1,
    ensures
        r == face_line_value(line@),
{
    let a0 = skip_spaces_exec(line, 1);
    let a1 = token_end_exec(line, a0);
    let b0 = skip_spaces_exec(line, a1);
    let b1 = token_end_exec(line, b0);
    let c0 = skip_spaces_exec(line, b1);
    let c1 = token_end_exec(line, c0);
    if a0 == line.len() || b0 == line.len() || c0 == line.len() {
        return Option::None;
    }
    let ga = slice_subrange(line, a0, a1);
    let gb = slice_subrange(line, b0, b1);
    let gc = slice_subrange(line, c0, c1);
    let sa = find_slash_exec(ga, 0);
    let sb = find_slash_exec(gb, 0);
    let sc = find_slash_exec(gc, 0);
    let ia = parse_index(slice_subrange(ga, 0, sa));
    let ib = parse_index(slice_subrange(gb, 0, sb));
    let ic = parse_index(slice_subrange(gc, 0, sc));
    match (ia, ib, ic) {
        (Some(a), Some(b), Some(c)) => Some((a, b, c)),
        _ => Option::None,
    }
}

/// Every vertex a successful parse collects is within the world capacity.
proof fn lemma_parse_vertices_range(
    s: Seq<u8>,
    pos: int,
    vs: Seq<Point3D>,
    fs: Seq<(i64, i64, i64)>,
)
    requires
        forall|i: int| 0 <= i < vs.len() ==> pt_in_range(#[trigger] vs[i], MAX_WORLD as int),
    ensures
        match parse_rec(s, pos, vs, fs) {
            Ok(pair) => forall|i: int|
                0 <= i < pair.0.len() ==> pt_in_range(#[trigger] pair.0[i], MAX_WORLD as int),
            Err(_) => true,
        },
    decreases s.len() - pos,
{
    if pos < 0 || pos >= s.len() {
    } else {
        let e = find_nl(s, pos);
        lemma_scan_range(s, pos);
        let next = if e < s.len() {
            e + 1
        } else {
            s.len() as int
        };
        let line = s.subrange(pos, e);
        if is_vertex_line(line) {
            match vertex_line_value(line) {
                Some(p) => {
                    let a0 = skip_spaces(line, 1);
                    let a1 = token_end(line, a0);
                    let b0 = skip_spaces(line, a1);
                    let b1 = token_end(line, b0);
                    let c0 = skip_spaces(line, b1);
                    let c1 = token_end(line, c0);
                    lemma_coord_range(line.subrange(a0, a1));
                    lemma_coord_range(line.subrange(b0, b1));
                    lemma_coord_range(line.subrange(c0, c1));
                    assert(pt_in_range(p, MAX_WORLD as int));
                    assert forall|i: int| 0 <= i < vs.push(p).len() implies pt_in_range(
                        #[trigger] vs.push(p)[i],
                        MAX_WORLD as int,
                    ) by {
                        if i < vs.len() {
                            assert(vs.push(p)[i] == vs[i]);
                        }
                    }
                    lemma_parse_vertices_range(s, next, vs.push(p), fs);
                },
                Option::None => {},
            }
        } else if is_face_line(line) {
            match face_line_value(line) {
                Some(t) => {
                    lemma_parse_vertices_range(s, next, vs, fs.push(t));
                },
                Option::None => {},
            }
        } else {
            lemma_parse_vertices_range(s, next, vs, fs);
        }
    }
}

/// Parses a whole mesh text: vertex lines (`v` and three decimal
/// coordinates), face lines (`f` and three slash-delimited index groups,
/// of which the leading 1-based vertex index is read), everything else —
/// comments among it — ignored.  Returns the mesh with indices resolved
/// to 0-based, or the first line's error; a face index that addresses no
/// vertex is an error of its own.
pub fn parse(input: &[u8]) -> (r: Result<Mesh, LoadError>)
    ensures
        match r {
            Ok(mesh) => match mesh_value(input@) {
                Ok(pair) => mesh_matches(mesh, pair.0, pair.1) && mesh.wf(),
                Err(_) => false,
            },
            Err(e) => match mesh_value(input@) {
                Ok(_) => false,
                Err(e2) => e == e2,
            },
        },
{
    let n = input.len();
    let mut pos: usize = 0;
    let mut vertices: Vec<Point3D> = Vec::new();
    let mut faces1: Vec<(i64, i64, i64)> = Vec::new();
    while pos < n
        invariant
            pos <= n,
            n == input@.len(),
            parse_rec(input@, 0, Seq::empty(), Seq::empty()) == parse_rec(
                input@,
                pos as int,
                vertices@,
                faces1@,
            ),
        decreases n - pos,
    {
        let e = find_nl_exec(input, pos);
        let line = slice_subrange(input, pos, e);
        let ghost pre_vs = vertices@;
        let ghost pre_fs = faces1@;
        if line.len() >= 2 && line[0] == 118 && line[1] == 32 {
            match parse_vertex_line(line) {
                Some(p) => { vertices.push(p); },
                Option::None => {
                    proof {
                        assert(parse_rec(input@, pos as int, pre_vs, pre_fs) == Err::<
                            (Seq<Point3D>, Seq<(i64, i64, i64)>),
                            LoadError,
                        >(LoadError::BadVertex));
                    }
                    return Err(LoadError::BadVertex);
                },
            }
        } else if line.len() >= 2 && line[0] == 102 && line[1] == 32 {
            match parse_face_line(line) {
                Some(t) => { faces1.push(t); },
                Option::None => {
                    proof {
                        assert(parse_rec(input@, pos as int, pre_vs, pre_fs) == Err::<
                            (Seq<Point3D>, Seq<(i64, i64, i64)>),
                            LoadError,
                        >(LoadError::BadFace));
                    }
                    return Err(LoadError::BadFace);
                },
            }
        }
        let next = if e < n {
            e + 1
        } else {
            n
        };
        proof {
            assert(parse_rec(input@, pos as int, pre_vs, pre_fs) == parse_rec(
                input@,
                next as int,
                vertices@,
                faces1@,
            ));
        }
        pos = next;
    }
    proof {
        assert(parse_rec(input@, 0, Seq::empty(), Seq::empty()) == Ok::<
            (Seq<Point3D>, Seq<(i64, i64, i64)>),
            LoadError,
        >((vertices@, faces1@)));
        lemma_parse_vertices_range(input@, 0, Seq::empty(), Seq::empty());
    }
    let nv = vertices.len();
    let mut faces: Vec<Face> = Vec::new();
    let mut k: usize = 0;
    while k < faces1.len()
        invariant
            0 <= k <= faces1.len(),
            nv == vertices.len(),
            parse_rec(input@, 0, Seq::empty(), Seq::empty()) == Ok::<
                (Seq<Point3D>, Seq<(i64, i64, i64)>),
                LoadError,
            >((vertices@, faces1@)),
            forall|i: int|
                0 <= i < vertices@.len() ==> pt_in_range(#[trigger] vertices@[i], MAX_WORLD as int),
            faces.len() == k,
            forall|j: int|
                0 <= j < k ==> 1 <= (#[trigger] faces1@[j]).0 <= nv && 1 <= faces1@[j].1 <= nv && 1
                    <= faces1@[j].2 <= nv,
            forall|j: int|
                0 <= j < k ==> (#[trigger] faces@[j]).a + 1 == faces1@[j].0 && faces@[j].b + 1
                    == faces1@[j].1 && faces@[j].c + 1 == faces1@[j].2,
        decreases faces1.len() - k,
    {
        let (ia, ib, ic) = faces1[k];
        if ia < 1 || ib < 1 || ic < 1 || (ia as u64) > (nv as u64) || (ib as u64) > (nv as u64)
            || (ic as u64) > (nv as u64) {
            proof {
                let j = k as int;
                assert(!(1 <= faces1@[j].0 <= nv && 1 <= faces1@[j].1 <= nv && 1 <= faces1@[j].2
                    <= nv));
                assert(!faces_in_range(faces1@, nv as int));
            }
            return Err(LoadError::BadIndex);
        }
        let f = Face { a: (ia - 1) as usize, b: (ib - 1) as usize, c: (ic - 1) as usize };
        faces.push(f);
        proof {
            assert forall|j: int| 0 <= j < k + 1 implies 1 <= (#[trigger] faces1@[j]).0 <= nv && 1
                <= faces1@[j].1 <= nv && 1 <= faces1@[j].2 <= nv by {}
        }
        k = k + 1;
    }
    let mesh = Mesh { vertices, faces };
    proof {
        assert(faces_in_range(faces1@, nv as int));
        assert(mesh_matches(mesh, mesh.vertices@, faces1@));
        assert forall|i: int| 0 <= i < mesh.faces.len() implies (#[trigger] mesh.faces[i]).a
            < mesh.vertices.len() && mesh.faces[i].b < mesh.vertices.len() && mesh.faces[i].c
            < mesh.vertices.len() by {
            assert(1 <= faces1@[i].0 <= nv);
        }
        assert(mesh.wf());
    }
    Ok(mesh)
}

} // verus!
