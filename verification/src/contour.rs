use vstd::prelude::*;
use vstd::set_lib::{lemma_int_range, lemma_len_subset, set_int_range};
use crate::fill::lemma_grid_index;

verus! {

broadcast use vstd::set::axiom_set_insert_len;

/// An RGBA picture and the parameters of a contour trace: a pixel is opaque
/// when its alpha exceeds `limit`; `hq` cuts diagonal corners.
pub struct Picture {
    pub pixels: Seq<u8>,
    pub width: int,
    pub height: int,
    pub limit: int,
    pub hq: bool,
}

impl Picture {
    pub open spec fn size(self) -> int {
        self.width * self.height
    }

    pub open spec fn opaque(self, p: int) -> bool {
        self.pixels[4 * p + 3] > self.limit
    }

    /// A picture whose pixel buffer matches its dimensions.
    pub open spec fn wf(self) -> bool {
        &&& self.width > 0
        &&& self.height > 0
        &&& self.pixels.len() == self.width * self.height * 4
    }
}

/// Horizontal step of the eight directions, counter-clockwise from the
/// upper left.
pub open spec fn dx(d: int) -> int {
    if d <= 2 { -1 } else if d == 3 || d == 7 { 0 } else { 1 }
}

/// Vertical step of the eight directions.
pub open spec fn dy(d: int) -> int {
    if d == 0 || d == 6 || d == 7 { -1 } else if d == 1 || d == 5 { 0 } else { 1 }
}

/// The neighbour of pixel `p` in direction `d`, if it lies inside the grid.
pub open spec fn neighbor8(width: int, height: int, p: int, d: int) -> Option<int> {
    let x = p % width + dx(d);
    let y = p / width + dy(d);
    if 0 <= x < width && 0 <= y < height {
        Some(y * width + x)
    } else {
        None
    }
}

/// The side of `p` in direction `d` faces the outside or a clear pixel.
pub open spec fn open_side(pic: Picture, p: int, d: int) -> bool {
    match neighbor8(pic.width, pic.height, p, d) {
        None => true,
        Some(q) => !pic.opaque(q),
    }
}

/// An opaque pixel with an open side to its left, below, right or above.
pub open spec fn edge(pic: Picture, p: int) -> bool {
    pic.opaque(p) && (open_side(pic, p, 1) || open_side(pic, p, 3) || open_side(pic, p, 5)
        || open_side(pic, p, 7))
}

/// The first edge pixel met turning from `direction`, with the direction it
/// lies in, trying the directions from `offset` on.
pub open spec fn probe(width: int, height: int, edges: Seq<bool>, current: int, direction: int, offset: int) -> Option<(int, int)>
    decreases 8 - offset,
{
    if offset < 0 || offset >= 8 {
        None
    } else {
        let candidate = (direction + offset) % 8;
        match neighbor8(width, height, current, candidate) {
            Some(q) => if edges[q] {
                Some((q, candidate))
            } else {
                probe(width, height, edges, current, direction, offset + 1)
            },
            None => probe(width, height, edges, current, direction, offset + 1),
        }
    }
}

/// A contour trace in progress. `visited` holds `pixel * 8 + direction` for
/// each position and heading left already.
pub struct Trace {
    pub current: int,
    pub direction: int,
    pub contour: Seq<int>,
    pub visited: Set<int>,
    pub done: bool,
}

/// A trace that starts at `start`, heading up-left when nothing opaque lies
/// above it and down-left otherwise.
pub open spec fn trace_start(pic: Picture, start: int) -> Trace {
    Trace {
        current: start,
        direction: if open_side(pic, start, 7) { 2 } else { 4 },
        contour: seq![start],
        visited: Set::empty(),
        done: false,
    }
}

/// With `hq`, a diagonal step to `found` whose corner pixel is opaque goes to
/// that corner instead.
pub open spec fn cut_corner(pic: Picture, current: int, found: int) -> Option<int> {
    if pic.hq && found % 2 == 0 {
        match neighbor8(pic.width, pic.height, current, (found + 1) % 8) {
            Some(a) => if pic.opaque(a) { Some(a) } else { None },
            None => None,
        }
    } else {
        None
    }
}

/// One move of the trace: stop on a position and heading seen before, on a
/// pixel with no edge neighbour, or on returning to `start`.
pub open spec fn step(pic: Picture, edges: Seq<bool>, start: int, s: Trace) -> Trace {
    if s.done {
        s
    } else if s.visited.contains(s.current * 8 + s.direction) {
        Trace { current: s.current, direction: s.direction, contour: s.contour, visited: s.visited, done: true }
    } else {
        let visited = s.visited.insert(s.current * 8 + s.direction);
        match probe(pic.width, pic.height, edges, s.current, s.direction, 0) {
            None => Trace { current: s.current, direction: s.direction, contour: s.contour, visited, done: true },
            Some((q, found)) => {
                let (next, direction) = match cut_corner(pic, s.current, found) {
                    Some(a) => (a, (found + 7) % 8),
                    None => (q, (found + 6 + found % 2) % 8),
                };
                if next == start {
                    Trace { current: s.current, direction: s.direction, contour: s.contour, visited, done: true }
                } else {
                    Trace { current: next, direction, contour: s.contour.push(next), visited, done: false }
                }
            },
        }
    }
}

/// The trace after `k` moves.
pub open spec fn iterate(pic: Picture, edges: Seq<bool>, start: int, k: nat) -> Trace
    decreases k,
{
    if k == 0 {
        trace_start(pic, start)
    } else {
        step(pic, edges, start, iterate(pic, edges, start, (k - 1) as nat))
    }
}

/// The contour traced from `start`: every trace stops within `8 * size + 1`
/// moves, and a stopped trace stays as it is.
pub open spec fn contour_of(pic: Picture, edges: Seq<bool>, start: int) -> Seq<int> {
    iterate(pic, edges, start, (8 * pic.size() + 1) as nat).contour
}

/// Every `stride`-th point of `c` from index `j` on.
pub open spec fn thinned(c: Seq<int>, stride: int, j: int) -> Seq<int>
    decreases c.len() + stride - j,
{
    if j >= c.len() || j < 0 || stride <= 0 {
        Seq::empty()
    } else {
        seq![c[j]] + thinned(c, stride, j + stride)
    }
}

/// The state of the scan over start pixels: edge pixels not yet taken by a
/// contour, the points kept and the point count of each contour.
pub struct Traced {
    pub edges: Seq<bool>,
    pub points: Seq<int>,
    pub counts: Seq<int>,
}

/// Every edge pixel of the picture.
pub open spec fn initial_edges(pic: Picture) -> Seq<bool> {
    Seq::new(pic.size() as nat, |p: int| edge(pic, p))
}

/// Traces from `start` if it is still an edge pixel: a contour of more than
/// four points keeps every `stride`-th of them; its pixels stop being edges.
pub open spec fn scan_pixel(pic: Picture, stride: int, s: Traced, start: int) -> Traced {
    if !s.edges[start] {
        s
    } else {
        let c = contour_of(pic, s.edges, start);
        let edges = Seq::new(s.edges.len(), |p: int| s.edges[p] && !c.contains(p));
        if c.len() > 4 {
            let kept = thinned(c, stride, 0);
            Traced { edges, points: s.points + kept, counts: s.counts.push(kept.len() as int) }
        } else {
            Traced { edges, points: s.points, counts: s.counts }
        }
    }
}

/// The scan after the first `k` start pixels, in row-major order.
pub open spec fn scan(pic: Picture, stride: int, k: nat) -> Traced
    decreases k,
{
    if k == 0 {
        Traced { edges: initial_edges(pic), points: Seq::empty(), counts: Seq::empty() }
    } else {
        scan_pixel(pic, stride, scan(pic, stride, (k - 1) as nat), k - 1)
    }
}

/// The contours of the opaque shapes of a picture: the kept points of every
/// contour, concatenated, and the number of points kept of each.
pub open spec fn contours(pic: Picture, skip: int) -> Traced {
    if pic.width == 0 || pic.height == 0 {
        Traced { edges: Seq::empty(), points: Seq::empty(), counts: Seq::empty() }
    } else {
        scan(pic, (if skip < 5000 { skip } else { 5000 }) + 1, pic.size() as nat)
    }
}

pub open spec fn ints(s: Seq<usize>) -> Seq<int> {
    s.map_values(|v: usize| v as int)
}

pub open spec fn picture(pixels: Seq<u8>, width: usize, height: usize, limit: u8, hq: bool) -> Picture {
    Picture { pixels, width: width as int, height: height as int, limit: limit as int, hq }
}

/// Pixel `p` of the grid decomposes into its column and row.
proof fn lemma_coordinates(width: int, height: int, p: int)
    requires
        width > 0,
        height > 0,
        0 <= p < width * height,
    ensures
        0 <= p % width < width,
        0 <= p / width < height,
        p == (p / width) * width + p % width,
{
    vstd::arithmetic::div_mod::lemma_fundamental_div_mod(p, width);
    vstd::arithmetic::div_mod::lemma_div_pos_is_pos(p, width);
    vstd::arithmetic::div_mod::lemma_multiply_divide_lt(p, width, height);
    assert(p == (p / width) * width + p % width) by (nonlinear_arith)
        requires
            p == width * (p / width) + p % width,
    ;
}

/// A neighbour lies inside the grid.
proof fn lemma_neighbor_inside(width: int, height: int, p: int, d: int)
    requires
        width > 0,
        height > 0,
        0 <= p < width * height,
    ensures
        neighbor8(width, height, p, d) matches Some(q) ==> 0 <= q < width * height,
{
    let x = p % width + dx(d);
    let y = p / width + dy(d);
    if 0 <= x < width && 0 <= y < height {
        lemma_grid_index(x, y, width, height);
    }
}

/// The neighbour of pixel `index` in direction `direction`.
fn neighbor_at(width: usize, height: usize, index: usize, direction: usize) -> (r: Option<usize>)
    requires
        width > 0,
        height > 0,
        index < width * height,
        width * height <= usize::MAX,
        direction < 8,
    ensures
        match r {
            Some(q) => neighbor8(width as int, height as int, index as int, direction as int) == Some(q as int)
                && q < width * height,
            None => neighbor8(width as int, height as int, index as int, direction as int) is None,
        },
{
    proof {
        lemma_coordinates(width as int, height as int, index as int);
    }
    let x = index % width;
    let y = index / width;
    let nx: usize;
    if direction <= 2 {
        if x == 0 {
            return None;
        }
        nx = x - 1;
    } else if direction == 3 || direction == 7 {
        nx = x;
    } else {
        if x + 1 >= width {
            return None;
        }
        nx = x + 1;
    }
    let ny: usize;
    if direction == 0 || direction == 6 || direction == 7 {
        if y == 0 {
            return None;
        }
        ny = y - 1;
    } else if direction == 1 || direction == 5 {
        ny = y;
    } else {
        if y + 1 >= height {
            return None;
        }
        ny = y + 1;
    }
    proof {
        lemma_grid_index(nx as int, ny as int, width as int, height as int);
    }
    Some(ny * width + nx)
}

fn is_opaque(pixels: &[u8], limit: u8, index: usize) -> (r: bool)
    requires
        4 * index + 3 < pixels@.len() <= usize::MAX,
    ensures
        r == (pixels@[4 * index + 3] > limit),
{
    pixels[4 * index + 3] > limit
}

fn open_side_at(pixels: &[u8], width: usize, height: usize, limit: u8, index: usize, direction: usize) -> (r: bool)
    requires
        width > 0,
        height > 0,
        index < width * height,
        pixels@.len() == width * height * 4,
        width * height * 4 <= usize::MAX,
        direction < 8,
    ensures
        r == open_side(picture(pixels@, width, height, limit, false), index as int, direction as int),
{
    match neighbor_at(width, height, index, direction) {
        None => true,
        Some(q) => !is_opaque(pixels, limit, q),
    }
}

fn edges_of(pixels: &[u8], width: usize, height: usize, limit: u8) -> (r: Vec<bool>)
    requires
        width > 0,
        height > 0,
        pixels@.len() == width * height * 4,
        width * height * 4 <= usize::MAX,
    ensures
        r@ == initial_edges(picture(pixels@, width, height, limit, false)),
{
    let n = width * height;
    let ghost pic = picture(pixels@, width, height, limit, false);
    let mut r: Vec<bool> = Vec::new();
    let mut i: usize = 0;
    while i < n
        invariant
            n == width * height,
            width > 0,
            height > 0,
            pixels@.len() == width * height * 4,
            width * height * 4 <= usize::MAX,
            pic == picture(pixels@, width, height, limit, false),
            i <= n,
            r@.len() == i,
            forall|p: int| 0 <= p < i ==> r@[p] == edge(pic, p),
        decreases n - i,
    {
        let e = is_opaque(pixels, limit, i) && (open_side_at(pixels, width, height, limit, i, 1)
            || open_side_at(pixels, width, height, limit, i, 3)
            || open_side_at(pixels, width, height, limit, i, 5)
            || open_side_at(pixels, width, height, limit, i, 7));
        r.push(e);
        i = i + 1;
    }
    assert(r@ =~= initial_edges(pic));
    r
}

/// The first edge pixel around `current`, turning from `direction`.
fn probe_at(edges: &Vec<bool>, width: usize, height: usize, current: usize, direction: usize) -> (r: Option<(usize, usize)>)
    requires
        width > 0,
        height > 0,
        current < width * height,
        width * height <= usize::MAX,
        direction < 8,
        edges@.len() == width * height,
    ensures
        match r {
            Some((q, f)) => probe(width as int, height as int, edges@, current as int, direction as int, 0)
                == Some((q as int, f as int)) && q < width * height && f < 8,
            None => probe(width as int, height as int, edges@, current as int, direction as int, 0) is None,
        },
{
    let mut offset: usize = 0;
    while offset < 8
        invariant
            width > 0,
            height > 0,
            current < width * height,
            width * height <= usize::MAX,
            direction < 8,
            edges@.len() == width * height,
            offset <= 8,
            probe(width as int, height as int, edges@, current as int, direction as int, 0)
                == probe(width as int, height as int, edges@, current as int, direction as int, offset as int),
        decreases 8 - offset,
    {
        let candidate = (direction + offset) % 8;
        match neighbor_at(width, height, current, candidate) {
            Some(q) => {
                if edges[q] {
                    return Some((q, candidate));
                }
            },
            None => {},
        }
        offset = offset + 1;
    }
    None
}

/// Bit `d` of a byte.
pub open spec fn bit(b: u8, d: u8) -> bool {
    (b >> d) & 1u8 == 1u8
}

proof fn lemma_bit_set(b: u8, d: u8, e: u8)
    requires
        d < 8,
        e < 8,
    ensures
        bit(b | (1u8 << d), e) == (bit(b, e) || d == e),
        bit(0u8, e) == false,
{
    assert(bit(b | (1u8 << d), e) == (bit(b, e) || d == e)) by (bit_vector)
        requires
            d < 8,
            e < 8,
    ;
    assert(bit(0u8, e) == false) by (bit_vector);
}

proof fn lemma_bit_test(b: u8, d: u8)
    requires
        d < 8,
    ensures
        (b & (1u8 << d) != 0) == bit(b, d),
{
    assert((b & (1u8 << d) != 0) == bit(b, d)) by (bit_vector)
        requires
            d < 8,
    ;
}

/// A stopped trace stays as it is.
proof fn lemma_stopped(pic: Picture, edges: Seq<bool>, start: int, k: nat, m: nat)
    requires
        iterate(pic, edges, start, k).done,
        k <= m,
    ensures
        iterate(pic, edges, start, m) == iterate(pic, edges, start, k),
    decreases m - k,
{
    if k < m {
        lemma_stopped(pic, edges, start, k, (m - 1) as nat);
    }
}

/// Traces the contour through `start`; `visited` is all zero before and after.
fn trace(
    pixels: &[u8],
    width: usize,
    height: usize,
    limit: u8,
    hq: bool,
    edges: &Vec<bool>,
    visited: &mut Vec<u8>,
    start: usize,
) -> (contour: Vec<usize>)
    requires
        width > 0,
        height > 0,
        pixels@.len() == width * height * 4,
        width * height * 4 <= usize::MAX,
        edges@.len() == width * height,
        start < width * height,
        old(visited)@.len() == width * height,
        forall|p: int| 0 <= p < width * height ==> old(visited)@[p] == 0,
    ensures
        final(visited)@.len() == width * height,
        forall|p: int| 0 <= p < width * height ==> final(visited)@[p] == 0,
        ints(contour@) == contour_of(picture(pixels@, width, height, limit, hq), edges@, start as int),
        forall|i: int| 0 <= i < contour@.len() ==> contour@[i] < width * height,
{
    let ghost pic = picture(pixels@, width, height, limit, hq);
    let ghost n: int = width * height;
    let mut contour: Vec<usize> = Vec::new();
    contour.push(start);
    let mut current = start;
    let mut direction: usize = if open_side_at(pixels, width, height, limit, start, 7) { 2 } else { 4 };
    let ghost mut k: nat = 0;
    proof {
        lemma_int_range(0, 8 * n);
        assert(ints(contour@) =~= seq![start as int]);
        assert forall|p: int, e: u8| 0 <= p < n && e < 8 implies
            (#[trigger] bit(visited@[p], e) <==> iterate(pic, edges@, start as int, k).visited.contains(p * 8 + e)) by {
            lemma_bit_set(0u8, 0u8, e);
        };
    }
    loop
        invariant_except_break
            !iterate(pic, edges@, start as int, k).done,
            iterate(pic, edges@, start as int, k).current == current,
            iterate(pic, edges@, start as int, k).direction == direction,
            current < n,
            direction < 8,
            contour@.len() > 0,
            contour@[contour@.len() - 1] == current,
            iterate(pic, edges@, start as int, k).visited.finite(),
            iterate(pic, edges@, start as int, k).visited.len() == k,
            iterate(pic, edges@, start as int, k).visited.subset_of(set_int_range(0, 8 * n)),
            forall|p: int, e: u8| 0 <= p < n && e < 8 ==>
                (#[trigger] bit(visited@[p], e) <==> iterate(pic, edges@, start as int, k).visited.contains(p * 8 + e)),
        invariant
            pic == picture(pixels@, width, height, limit, hq),
            n == width * height,
            width > 0,
            height > 0,
            pixels@.len() == width * height * 4,
            width * height * 4 <= usize::MAX,
            edges@.len() == n,
            start < n,
            set_int_range(0, 8 * n).finite(),
            set_int_range(0, 8 * n).len() == 8 * n,
            iterate(pic, edges@, start as int, k).contour == ints(contour@),
            forall|i: int| 0 <= i < contour@.len() ==> contour@[i] < n,
            visited@.len() == n,
            forall|p: int| 0 <= p < n && !ints(contour@).contains(p) ==> visited@[p] == 0,
        ensures
            iterate(pic, edges@, start as int, k).done,
            k <= 8 * n + 1,
        decreases 8 * n - k,
    {
        let ghost st = iterate(pic, edges@, start as int, k);
        let ghost slot: int = current * 8 + direction;
        let byte = visited[current];
        proof {
            lemma_bit_test(byte, direction as u8);
            lemma_len_subset(st.visited, set_int_range(0, 8 * n));
            assert(bit(visited@[current as int], direction as u8) <==> st.visited.contains(slot));
        }
        if byte & (1u8 << (direction as u8)) != 0 {
            proof {
                k = k + 1;
            }
            break;
        }
        let marked = byte | (1u8 << (direction as u8));
        let ghost old_visited = visited@;
        visited.set(current, marked);
        let ghost seen = st.visited.insert(slot);
        proof {
            assert forall|p: int, e: u8| 0 <= p < n && e < 8 implies
                (#[trigger] bit(visited@[p], e) <==> seen.contains(p * 8 + e)) by {
                if p == current {
                    lemma_bit_set(byte, direction as u8, e);
                } else {
                    assert(visited@[p] == old_visited[p]);
                }
            };
            assert(ints(contour@)[contour@.len() - 1] == current as int);
            assert forall|p: int| 0 <= p < n && !ints(contour@).contains(p) implies visited@[p] == 0 by {
                if p == current {
                    assert(ints(contour@)[contour@.len() - 1] == p);
                }
            };
        }
        let found = probe_at(edges, width, height, current, direction);
        match found {
            None => {
                proof {
                    k = k + 1;
                }
                break;
            },
            Some((q, f)) => {
                let mut next = q;
                let mut turned = (f + 6 + f % 2) % 8;
                if hq && f % 2 == 0 {
                    match neighbor_at(width, height, current, (f + 1) % 8) {
                        Some(a) => {
                            if is_opaque(pixels, limit, a) {
                                next = a;
                                turned = (f + 7) % 8;
                            }
                        },
                        None => {},
                    }
                }
                if next == start {
                    proof {
                        k = k + 1;
                    }
                    break;
                }
                let ghost before = contour@;
                contour.push(next);
                current = next;
                direction = turned;
                proof {
                    k = k + 1;
                    assert(ints(contour@) =~= ints(before).push(next as int));
                    assert(seen.len() == k);
                    assert(seen.subset_of(set_int_range(0, 8 * n)));
                    lemma_len_subset(seen, set_int_range(0, 8 * n));
                    assert forall|p: int| 0 <= p < n && !ints(contour@).contains(p) implies visited@[p] == 0 by {
                        if ints(before).contains(p) {
                            let j = choose|j: int| 0 <= j < ints(before).len() && ints(before)[j] == p;
                            assert(ints(contour@)[j] == p);
                        }
                    };
                }
            },
        }
    }
    proof {
        lemma_stopped(pic, edges@, start as int, k, (8 * n + 1) as nat);
    }
    let mut i: usize = 0;
    while i < contour.len()
        invariant
            i <= contour@.len(),
            n == width * height,
            visited@.len() == n,
            forall|j: int| 0 <= j < contour@.len() ==> contour@[j] < n,
            forall|p: int| 0 <= p < n && visited@[p] != 0 ==> exists|j: int| i <= j < contour@.len() && contour@[j] == p,
        decreases contour@.len() - i,
    {
        let c = contour[i];
        visited.set(c, 0);
        i = i + 1;
    }
    contour
}

/// The contours of the opaque shapes of an RGBA picture, as pixel indices:
/// the kept points of every contour, concatenated, and how many points each
/// contour kept. A pixel is opaque when its alpha exceeds `limit`; every
/// `skip + 1`-th point of a contour is kept (`skip` at most 5000), and only
/// contours of more than four points count.
pub fn bordering(pixels: &[u8], width: usize, height: usize, skip: usize, limit: u8, hq: bool) -> (r: (
    Vec<usize>,
    Vec<usize>,
))
    requires
        pixels@.len() == width * height * 4,
    ensures
        ints(r.0@) == contours(picture(pixels@, width, height, limit, hq), skip as int).points,
        ints(r.1@) == contours(picture(pixels@, width, height, limit, hq), skip as int).counts,
{
    if width == 0 || height == 0 {
        let points: Vec<usize> = Vec::new();
        let counts: Vec<usize> = Vec::new();
        proof {
            assert(ints(points@) =~= Seq::empty());
            assert(ints(counts@) =~= Seq::empty());
        }
        return (points, counts);
    }
    let total = pixels.len();
    let n = width * height;
    let stride = (if skip < 5000 { skip } else { 5000 }) + 1;
    let ghost pic = picture(pixels@, width, height, limit, hq);
    let mut edges = edges_of(pixels, width, height, limit);
    proof {
        assert(edges@ =~= initial_edges(pic));
    }
    let mut visited: Vec<u8> = Vec::new();
    while visited.len() < n
        invariant
            n == width * height,
            visited@.len() <= n,
            forall|p: int| 0 <= p < visited@.len() ==> visited@[p] == 0,
        decreases n - visited@.len(),
    {
        visited.push(0);
    }
    let mut points: Vec<usize> = Vec::new();
    let mut counts: Vec<usize> = Vec::new();
    let mut start: usize = 0;
    proof {
        assert(ints(points@) =~= Seq::empty());
        assert(ints(counts@) =~= Seq::empty());
    }
    while start < n
        invariant
            pic == picture(pixels@, width, height, limit, hq),
            n == width * height,
            width > 0,
            height > 0,
            total == pixels@.len(),
            pixels@.len() == width * height * 4,
            stride == (if skip < 5000 { skip as int } else { 5000 }) + 1,
            start <= n,
            edges@.len() == n,
            visited@.len() == n,
            forall|p: int| 0 <= p < n ==> visited@[p] == 0,
            scan(pic, stride as int, start as nat).edges == edges@,
            scan(pic, stride as int, start as nat).points == ints(points@),
            scan(pic, stride as int, start as nat).counts == ints(counts@),
            forall|i: int| 0 <= i < points@.len() ==> points@[i] < n,
        decreases n - start,
    {
        let ghost s0 = scan(pic, stride as int, start as nat);
        if edges[start] {
            let contour = trace(pixels, width, height, limit, hq, &edges, &mut visited, start);
            let ghost c = ints(contour@);
            let ghost e0 = edges@;
            let ghost p0 = ints(points@);
            if contour.len() > 4 {
                let before = points.len();
                let mut j: usize = 0;
                while j < contour.len()
                    invariant
                        n == width * height,
                        pixels@.len() == width * height * 4,
                        total == pixels@.len(),
                        c == ints(contour@),
                        1 <= stride <= 5001,
                        forall|i: int| 0 <= i < contour@.len() ==> contour@[i] < n,
                        forall|i: int| 0 <= i < points@.len() ==> points@[i] < n,
                        j <= contour@.len(),
                        before <= points@.len(),
                        ints(points@).subrange(0, before as int) == p0,
                        before == p0.len(),
                        ints(points@) + thinned(c, stride as int, j as int) == p0 + thinned(c, stride as int, 0),
                    decreases contour@.len() - j,
                {
                    let ghost prev = ints(points@);
                    points.push(contour[j]);
                    proof {
                        assert(ints(points@) =~= prev.push(c[j as int]));
                        assert(ints(points@) + thinned(c, stride as int, j + stride) =~= prev + thinned(c, stride as int, j as int));
                        assert(thinned(c, stride as int, c.len() as int) =~= Seq::empty());
                        assert(ints(points@).subrange(0, before as int) =~= prev.subrange(0, before as int));
                    }
                    if stride >= contour.len() - j {
                        j = contour.len();
                    } else {
                        j = j + stride;
                    }
                }
                proof {
                    assert(ints(points@) =~= p0 + thinned(c, stride as int, 0));
                }
                counts.push(points.len() - before);
                proof {
                    assert(ints(counts@) =~= s0.counts.push(thinned(c, stride as int, 0).len() as int));
                }
            }
            let mut i: usize = 0;
            while i < contour.len()
                invariant
                    n == width * height,
                    c == ints(contour@),
                    i <= contour@.len(),
                    forall|q: int| 0 <= q < contour@.len() ==> contour@[q] < n,
                    edges@.len() == n,
                    e0.len() == n,
                    forall|p: int| 0 <= p < n ==> #[trigger] edges@[p] == (e0[p] && !c.take(i as int).contains(p)),
                decreases contour@.len() - i,
            {
                let q = contour[i];
                let ghost before = edges@;
                edges.set(q, false);
                proof {
                    assert(c.take(i + 1) =~= c.take(i as int).push(q as int));
                    assert forall|p: int| 0 <= p < n implies #[trigger] edges@[p] == (e0[p] && !c.take(i + 1).contains(p)) by {
                        vstd::seq_lib::lemma_seq_contains_after_push(c.take(i as int), q as int, p);
                        if p != q {
                            assert(edges@[p] == before[p]);
                        }
                    };
                }
                i = i + 1;
            }
            proof {
                assert(c.take(c.len() as int) =~= c);
                assert(edges@ =~= Seq::new(s0.edges.len(), |p: int| s0.edges[p] && !c.contains(p)));
            }
        }
        start = start + 1;
    }
    proof {
        assert(contours(pic, skip as int) == scan(pic, stride as int, n as nat));
    }
    (points, counts)
}

/// The sum of `s`.
pub open spec fn total(s: Seq<int>) -> int
    decreases s.len(),
{
    if s.len() == 0 {
        0
    } else {
        total(s.drop_last()) + s.last()
    }
}

proof fn lemma_scan_counts(pic: Picture, stride: int, k: nat)
    requires
        stride > 0,
    ensures
        total(scan(pic, stride, k).counts) == scan(pic, stride, k).points.len(),
        forall|i: int| 0 <= i < scan(pic, stride, k).counts.len() ==> #[trigger] scan(pic, stride, k).counts[i] >= 1,
    decreases k,
{
    if k > 0 {
        let prev = scan(pic, stride, (k - 1) as nat);
        lemma_scan_counts(pic, stride, (k - 1) as nat);
        let start = k - 1;
        if prev.edges[start] {
            let c = contour_of(pic, prev.edges, start);
            if c.len() > 4 {
                let kept = thinned(c, stride, 0);
                assert(kept.len() >= 1);
                assert(prev.counts.push(kept.len() as int).drop_last() =~= prev.counts);
                let now = scan(pic, stride, k);
                assert forall|i: int| 0 <= i < now.counts.len() implies #[trigger] now.counts[i] >= 1 by {
                    if i < prev.counts.len() {
                        assert(now.counts[i] == prev.counts[i]);
                    }
                };
            }
        }
    }
}

/// The point counts add up to the points returned, and every contour keeps
/// at least one point.
pub proof fn lemma_counts_cover_points(pic: Picture, skip: int)
    requires
        skip >= 0,
    ensures
        total(contours(pic, skip).counts) == contours(pic, skip).points.len(),
        forall|i: int| 0 <= i < contours(pic, skip).counts.len() ==> #[trigger] contours(pic, skip).counts[i] >= 1,
{
    if pic.width != 0 && pic.height != 0 {
        lemma_scan_counts(pic, (if skip < 5000 { skip } else { 5000 }) + 1, pic.size() as nat);
    }
}

proof fn lemma_probe_found(width: int, height: int, edges: Seq<bool>, current: int, direction: int, offset: int)
    ensures
        probe(width, height, edges, current, direction, offset) matches Some((q, f)) ==> {
            &&& edges[q]
            &&& neighbor8(width, height, current, f) == Some(q)
            &&& 0 <= f < 8
        },
    decreases 8 - offset,
{
    if 0 <= offset < 8 {
        lemma_probe_found(width, height, edges, current, direction, offset + 1);
    }
}

/// Every pixel of a trace that starts on an opaque pixel, through edges that
/// are opaque, is an opaque pixel of the picture.
proof fn lemma_trace_opaque(pic: Picture, edges: Seq<bool>, start: int, k: nat)
    requires
        pic.wf(),
        edges.len() == pic.size(),
        forall|p: int| 0 <= p < pic.size() && #[trigger] edges[p] ==> edge(pic, p),
        0 <= start < pic.size(),
        edges[start],
    ensures
        0 <= iterate(pic, edges, start, k).current < pic.size(),
        forall|i: int| 0 <= i < iterate(pic, edges, start, k).contour.len() ==> {
            let p = #[trigger] iterate(pic, edges, start, k).contour[i];
            0 <= p < pic.size() && pic.opaque(p) && (!pic.hq ==> edge(pic, p))
        },
    decreases k,
{
    if k > 0 {
        lemma_trace_opaque(pic, edges, start, (k - 1) as nat);
        let s = iterate(pic, edges, start, (k - 1) as nat);
        let now = iterate(pic, edges, start, k);
        lemma_probe_found(pic.width, pic.height, edges, s.current, s.direction, 0);
        if !s.done && !s.visited.contains(s.current * 8 + s.direction) {
            if let Some((q, found)) = probe(pic.width, pic.height, edges, s.current, s.direction, 0) {
                lemma_neighbor_inside(pic.width, pic.height, s.current, found);
                lemma_neighbor_inside(pic.width, pic.height, s.current, (found + 1) % 8);
                assert(edge(pic, q));
                assert forall|i: int| 0 <= i < now.contour.len() implies {
                    let p = #[trigger] now.contour[i];
                    0 <= p < pic.size() && pic.opaque(p) && (!pic.hq ==> edge(pic, p))
                } by {
                    if i < s.contour.len() {
                        assert(now.contour[i] == s.contour[i]);
                    }
                };
            }
        }
    }
}

/// The points kept of a contour are points of the contour.
proof fn lemma_thinned_within(c: Seq<int>, stride: int, j: int)
    ensures
        forall|i: int| 0 <= i < thinned(c, stride, j).len() ==> c.contains(#[trigger] thinned(c, stride, j)[i]),
    decreases c.len() + stride - j,
{
    if !(j >= c.len() || j < 0 || stride <= 0) {
        lemma_thinned_within(c, stride, j + stride);
        let t = thinned(c, stride, j);
        assert forall|i: int| 0 <= i < t.len() implies c.contains(#[trigger] t[i]) by {
            if i == 0 {
                assert(c[j] == t[0]);
            } else {
                assert(t[i] == thinned(c, stride, j + stride)[i - 1]);
            }
        };
    }
}

proof fn lemma_scan_points(pic: Picture, stride: int, k: nat)
    requires
        pic.wf(),
        stride > 0,
        k <= pic.size(),
    ensures
        scan(pic, stride, k).edges.len() == pic.size(),
        forall|p: int| 0 <= p < pic.size() && #[trigger] scan(pic, stride, k).edges[p] ==> edge(pic, p),
        forall|i: int| 0 <= i < scan(pic, stride, k).points.len() ==> {
            let p = #[trigger] scan(pic, stride, k).points[i];
            0 <= p < pic.size() && pic.opaque(p) && (!pic.hq ==> edge(pic, p))
        },
    decreases k,
{
    if k > 0 {
        lemma_scan_points(pic, stride, (k - 1) as nat);
        let prev = scan(pic, stride, (k - 1) as nat);
        let now = scan(pic, stride, k);
        let start = k - 1;
        if prev.edges[start] {
            let c = contour_of(pic, prev.edges, start);
            lemma_trace_opaque(pic, prev.edges, start, (8 * pic.size() + 1) as nat);
            if c.len() > 4 {
                let kept = thinned(c, stride, 0);
                lemma_thinned_within(c, stride, 0);
                assert forall|i: int| 0 <= i < now.points.len() implies {
                    let p = #[trigger] now.points[i];
                    0 <= p < pic.size() && pic.opaque(p) && (!pic.hq ==> edge(pic, p))
                } by {
                    if i < prev.points.len() {
                        assert(now.points[i] == prev.points[i]);
                    } else {
                        let x = kept[i - prev.points.len()];
                        assert(now.points[i] == x);
                        assert(c.contains(x));
                        let m = choose|m: int| 0 <= m < c.len() && c[m] == x;
                        assert(c[m] == x);
                    }
                };
            }
        }
    } else {
        assert forall|p: int| 0 <= p < pic.size() && #[trigger] scan(pic, stride, k).edges[p] implies edge(pic, p) by {
            assert(edge(pic, p));
        };
    }
}

/// Every point returned is the index of an opaque pixel of the picture;
/// without `hq` it is an edge pixel: opaque, with a side open to the
/// outside or to a clear pixel.
pub proof fn lemma_points_are_opaque(pic: Picture, skip: int)
    requires
        pic.width >= 0,
        pic.height >= 0,
        pic.pixels.len() == pic.width * pic.height * 4,
        skip >= 0,
    ensures
        forall|i: int| 0 <= i < contours(pic, skip).points.len() ==> {
            let p = #[trigger] contours(pic, skip).points[i];
            0 <= p < pic.size() && pic.opaque(p) && (!pic.hq ==> edge(pic, p))
        },
{
    if pic.width != 0 && pic.height != 0 {
        lemma_scan_points(pic, (if skip < 5000 { skip } else { 5000 }) + 1, pic.size() as nat);
    }
}

/// Thinning a contour from index `j` keeps every `stride`-th point: there
/// are `ceil((len - j) / stride)` of them, and the `m`-th kept is the point
/// `m * stride` places after index `j`.
pub proof fn lemma_thinned_shape(c: Seq<int>, stride: int, j: int)
    requires
        stride > 0,
        0 <= j,
    ensures
        thinned(c, stride, j).len() == if j < c.len() {
            (c.len() - j + stride - 1) / stride
        } else {
            0
        },
        forall|m: int| 0 <= m < thinned(c, stride, j).len() ==> #[trigger] thinned(c, stride, j)[m] == c[j + m * stride],
    decreases c.len() + stride - j,
{
    if j < c.len() {
        lemma_thinned_shape(c, stride, j + stride);
        let u = c.len() - j - 1;
        vstd::arithmetic::div_mod::lemma_div_plus_one(u, stride);
        assert(stride + u == c.len() - j + stride - 1);
        if j + stride >= c.len() {
            vstd::arithmetic::div_mod::lemma_basic_div(u, stride);
        }
        let t = thinned(c, stride, j);
        let rest = thinned(c, stride, j + stride);
        assert forall|m: int| 0 <= m < t.len() implies #[trigger] t[m] == c[j + m * stride] by {
            if m > 0 {
                assert(t[m] == rest[m - 1]);
                assert(j + stride + (m - 1) * stride == j + m * stride) by (nonlinear_arith);
            }
        };
    }
}

/// A number of whole strides below the ceiling of `n / stride` stays
/// inside `n`.
proof fn lemma_below_ceiling(n: int, stride: int, j: int)
    requires
        stride > 0,
        0 <= j < (n + stride - 1) / stride,
    ensures
        j * stride < n,
{
    let q = (n + stride - 1) / stride;
    vstd::arithmetic::div_mod::lemma_fundamental_div_mod(n + stride - 1, stride);
    assert(stride * q <= n + stride - 1);
    assert((j + 1) * stride <= q * stride) by (nonlinear_arith)
        requires
            j + 1 <= q,
            stride > 0,
    ;
    assert((j + 1) * stride == j * stride + stride) by (nonlinear_arith);
    assert(q * stride == stride * q) by (nonlinear_arith);
}

/// With counts that are not negative, a count and the ones before it add up
/// to at most the total.
proof fn lemma_total_prefix(c: Seq<int>, i: int)
    requires
        0 <= i < c.len(),
        forall|k: int| 0 <= k < c.len() ==> #[trigger] c[k] >= 0,
    ensures
        total(c.take(i)) + c[i] <= total(c),
    decreases c.len(),
{
    if i == c.len() - 1 {
        assert(c.take(i) =~= c.drop_last());
    } else {
        assert(c.drop_last().take(i) =~= c.take(i));
        assert(c.drop_last()[i] == c[i]);
        assert(c.last() == c[c.len() - 1]);
        lemma_total_prefix(c.drop_last(), i);
    }
}

proof fn lemma_total_nonnegative(c: Seq<int>)
    requires
        forall|k: int| 0 <= k < c.len() ==> #[trigger] c[k] >= 0,
    ensures
        total(c) >= 0,
    decreases c.len(),
{
    if c.len() > 0 {
        assert(c.last() == c[c.len() - 1]);
        lemma_total_nonnegative(c.drop_last());
    }
}

/// Point `j` of contour `i` among the points kept.
pub open spec fn contour_point(t: Traced, i: int, j: int) -> int {
    t.points[total(t.counts.take(i)) + j]
}

/// Scanning with a stride traces the same contours as scanning with every
/// point kept, and keeps of each every `stride`-th point.
proof fn lemma_scan_stride(pic: Picture, stride: int, k: nat)
    requires
        stride > 0,
    ensures
        ({
            let all = scan(pic, 1, k);
            let kept = scan(pic, stride, k);
            &&& kept.edges == all.edges
            &&& kept.counts.len() == all.counts.len()
            &&& forall|i: int| 0 <= i < kept.counts.len() ==> #[trigger] kept.counts[i] == (all.counts[i] + stride - 1) / stride
            &&& forall|i: int, j: int|
                0 <= i < kept.counts.len() && 0 <= j < kept.counts[i] ==> #[trigger] contour_point(kept, i, j)
                    == contour_point(all, i, j * stride)
        }),
    decreases k,
{
    if k > 0 {
        let pa = scan(pic, 1, (k - 1) as nat);
        let pt = scan(pic, stride, (k - 1) as nat);
        lemma_scan_stride(pic, stride, (k - 1) as nat);
        lemma_scan_counts(pic, 1, (k - 1) as nat);
        lemma_scan_counts(pic, stride, (k - 1) as nat);
        let start = k - 1;
        let a = scan(pic, 1, k);
        let t = scan(pic, stride, k);
        if pt.edges[start] {
            let c = contour_of(pic, pt.edges, start);
            if c.len() > 4 {
                lemma_thinned_shape(c, 1, 0);
                lemma_thinned_shape(c, stride, 0);
                let ka = thinned(c, 1, 0);
                let kt = thinned(c, stride, 0);
                assert(ka.len() == c.len()) by {
                    assert((c.len() + 1 - 1) / 1 == c.len()) by (nonlinear_arith);
                };
                assert(a.counts =~= pa.counts.push(ka.len() as int));
                assert(t.counts =~= pt.counts.push(kt.len() as int));
                assert forall|i: int| 0 <= i < t.counts.len() implies #[trigger] t.counts[i] == (a.counts[i] + stride - 1) / stride by {
                    if i < pt.counts.len() {
                        assert(t.counts[i] == pt.counts[i] && a.counts[i] == pa.counts[i]);
                    }
                };
                assert forall|i: int, j: int|
                    0 <= i < t.counts.len() && 0 <= j < t.counts[i] implies #[trigger] contour_point(t, i, j)
                        == contour_point(a, i, j * stride) by {
                    if i < pt.counts.len() {
                        assert(t.counts.take(i) =~= pt.counts.take(i));
                        assert(a.counts.take(i) =~= pa.counts.take(i));
                        assert(t.counts[i] == pt.counts[i] && a.counts[i] == pa.counts[i]);
                        lemma_total_prefix(pt.counts, i);
                        lemma_total_prefix(pa.counts, i);
                        lemma_below_ceiling(pa.counts[i], stride, j);
                        assert(j * stride >= 0) by (nonlinear_arith)
                            requires
                                j >= 0,
                                stride > 0,
                        ;
                        assert(contour_point(pt, i, j) == contour_point(pa, i, j * stride));
                        assert(t.points =~= pt.points + kt);
                        assert(a.points =~= pa.points + ka);
                        let it = total(pt.counts.take(i)) + j;
                        let ia = total(pa.counts.take(i)) + j * stride;
                        assert(total(pt.counts.take(i)) >= 0 && total(pa.counts.take(i)) >= 0) by {
                            lemma_total_nonnegative(pt.counts.take(i));
                            lemma_total_nonnegative(pa.counts.take(i));
                        };
                        assert(it < pt.points.len());
                        assert(ia < pa.points.len());
                        assert(t.points[it] == pt.points[it]);
                        assert(a.points[ia] == pa.points[ia]);
                        assert(contour_point(t, i, j) == t.points[it]);
                        assert(contour_point(a, i, j * stride) == a.points[ia]);
                    } else {
                        assert(t.counts.take(i) =~= pt.counts);
                        assert(a.counts.take(i) =~= pa.counts);
                        lemma_below_ceiling(c.len() as int, stride, j);
                        assert(j * stride >= 0) by (nonlinear_arith)
                            requires
                                j >= 0,
                                stride > 0,
                        ;
                        assert(t.points =~= pt.points + kt);
                        assert(a.points =~= pa.points + ka);
                        assert(t.points[pt.points.len() + j] == kt[j]);
                        assert(a.points[pa.points.len() + j * stride] == ka[j * stride]);
                        assert(kt[j] == c[0 + j * stride]);
                        assert(ka[j * stride] == c[0 + j * stride * 1]);
                    }
                };
            } else {
                assert forall|i: int, j: int|
                    0 <= i < t.counts.len() && 0 <= j < t.counts[i] implies #[trigger] contour_point(t, i, j)
                        == contour_point(a, i, j * stride) by {
                    assert(contour_point(pt, i, j) == contour_point(pa, i, j * stride));
                };
            }
        }
    }
}

/// Skipping points thins each traced contour and nothing else: with `skip`
/// (taken up to 5000), the same contours are found as when every point is
/// kept, each keeps `ceil(n / (skip + 1))` of its `n` points, and its kept
/// points are those `skip + 1` apart from its first.
pub proof fn lemma_skip_thins_each_contour(pic: Picture, skip: int)
    requires
        skip >= 0,
    ensures
        ({
            let all = contours(pic, 0);
            let kept = contours(pic, skip);
            let stride = if skip <= 5000 { skip + 1 } else { 5001 };
            &&& kept.counts.len() == all.counts.len()
            &&& forall|i: int| 0 <= i < kept.counts.len() ==> #[trigger] kept.counts[i] == (all.counts[i] + stride - 1) / stride
            &&& forall|i: int, j: int|
                0 <= i < kept.counts.len() && 0 <= j < kept.counts[i] ==> #[trigger] contour_point(kept, i, j)
                    == contour_point(all, i, j * stride)
        }),
{
    if pic.width != 0 && pic.height != 0 {
        let stride = if skip <= 5000 { skip + 1 } else { 5001 };
        lemma_scan_stride(pic, stride, pic.size() as nat);
    }
}

} // verus!
