use vstd::prelude::*;

verus! {

/// The 4-neighbour of pixel `p` in direction `dir` (left, right, up, down)
/// in a `width` x `height` grid, if it lies inside.
pub open spec fn neighbor(width: int, height: int, p: int, dir: int) -> Option<int> {
    let x = p % width;
    let y = p / width;
    if dir == 0 {
        if x > 0 { Some(p - 1) } else { None }
    } else if dir == 1 {
        if x + 1 < width { Some(p + 1) } else { None }
    } else if dir == 2 {
        if y > 0 { Some(p - width) } else { None }
    } else {
        if y + 1 < height { Some(p + width) } else { None }
    }
}

/// Which direction leads back.
pub open spec fn opposite(dir: int) -> int {
    if dir == 0 {
        1
    } else if dir == 1 {
        0
    } else if dir == 2 {
        3
    } else {
        2
    }
}

/// `p` can be reached from `origin` in at most `steps` moves between
/// neighbouring pixels, every pixel on the way matching.
pub open spec fn reach_in(matches: Seq<bool>, width: int, height: int, origin: int, steps: nat, p: int) -> bool
    decreases steps, 0int,
{
    if steps == 0 {
        p == origin
    } else {
        let k = (steps - 1) as nat;
        reach_in(matches, width, height, origin, k, p) || (matches[p] && (
            reach_from(matches, width, height, origin, k, p, 0)
            || reach_from(matches, width, height, origin, k, p, 1)
            || reach_from(matches, width, height, origin, k, p, 2)
            || reach_from(matches, width, height, origin, k, p, 3)))
    }
}

/// The neighbour of `p` in direction `dir` is reached within `steps`.
pub open spec fn reach_from(matches: Seq<bool>, width: int, height: int, origin: int, steps: nat, p: int, dir: int) -> bool
    decreases steps, 1int,
{
    match neighbor(width, height, p, dir) {
        Some(q) => reach_in(matches, width, height, origin, steps, q),
        None => false,
    }
}

/// `p` belongs to the connected region of matching pixels around `origin`.
pub open spec fn reachable(matches: Seq<bool>, width: int, height: int, origin: int, p: int) -> bool {
    exists|steps: nat| #[trigger] reach_in(matches, width, height, origin, steps, p)
}

/// The row-major index of a pixel inside the grid lies inside the grid.
pub proof fn lemma_grid_index(x: int, y: int, width: int, height: int)
    requires
        0 <= x < width,
        0 <= y < height,
    ensures
        0 <= y * width + x < width * height,
{
    assert(y * width <= (height - 1) * width) by (nonlinear_arith)
        requires
            0 <= y <= height - 1,
            width > 0,
    ;
    assert((height - 1) * width == width * height - width) by (nonlinear_arith);
    assert(0 <= y * width) by (nonlinear_arith)
        requires
            0 <= y,
            width > 0,
    ;
}

/// Neighbourhood is symmetric: going back the other way returns.
pub proof fn lemma_neighbor_symmetric(width: int, height: int, p: int, dir: int)
    requires
        width > 0,
        height > 0,
        0 <= p < width * height,
        0 <= dir < 4,
        neighbor(width, height, p, dir) is Some,
    ensures
        ({
            let q = neighbor(width, height, p, dir)->0;
            &&& 0 <= q < width * height
            &&& neighbor(width, height, q, opposite(dir)) == Some(p)
        }),
{
    let x = p % width;
    let y = p / width;
    vstd::arithmetic::div_mod::lemma_fundamental_div_mod(p, width);
    assert(0 <= x < width);
    assert(0 <= y < height) by {
        vstd::arithmetic::div_mod::lemma_div_pos_is_pos(p, width);
        vstd::arithmetic::div_mod::lemma_multiply_divide_lt(p, width, height);
    };
    assert(p == y * width + x) by (nonlinear_arith)
        requires
            p == width * (p / width) + p % width,
            x == p % width,
            y == p / width,
    ;
    let q = neighbor(width, height, p, dir)->0;
    if dir == 0 {
        assert(q == y * width + (x - 1));
        vstd::arithmetic::div_mod::lemma_fundamental_div_mod_converse(q, width, y, x - 1);
    } else if dir == 1 {
        assert(q == y * width + (x + 1));
        vstd::arithmetic::div_mod::lemma_fundamental_div_mod_converse(q, width, y, x + 1);
        lemma_grid_index(x + 1, y, width, height);
    } else if dir == 2 {
        assert(q == (y - 1) * width + x) by (nonlinear_arith)
            requires
                q == p - width,
                p == y * width + x,
        ;
        vstd::arithmetic::div_mod::lemma_fundamental_div_mod_converse(q, width, y - 1, x);
        assert(q >= 0) by (nonlinear_arith)
            requires
                q == (y - 1) * width + x,
                y >= 1,
                x >= 0,
                width > 0,
        ;
    } else {
        assert(q == (y + 1) * width + x) by (nonlinear_arith)
            requires
                q == p + width,
                p == y * width + x,
        ;
        vstd::arithmetic::div_mod::lemma_fundamental_div_mod_converse(q, width, y + 1, x);
        lemma_grid_index(x, y + 1, width, height);
    }
}

/// Pixel `i` is selected in `mask`.
pub open spec fn selected(mask: Seq<u8>, i: int) -> bool {
    mask[4 * i + 3] == 255
}

/// Every byte of a selected pixel is 255, every byte of the others 0.
pub open spec fn mask_shape(mask: Seq<u8>, n: int) -> bool {
    &&& mask.len() == 4 * n
    &&& forall|i: int, k: int| 0 <= i < n && 0 <= k < 4 ==> #[trigger] mask[4 * i + k] == if selected(mask, i) { 255u8 } else { 0u8 }
}

/// Every matching neighbour of a selected pixel outside `pending` is selected.
pub open spec fn closed_except(matches: Seq<bool>, width: int, height: int, mask: Seq<u8>, pending: Seq<usize>) -> bool {
    forall|i: int, dir: int|
        0 <= i < width * height && selected(mask, i) && !pending.contains(i as usize) && 0 <= dir < 4
            && #[trigger] neighbor(width, height, i, dir) is Some && matches[neighbor(width, height, i, dir)->0]
            ==> selected(mask, neighbor(width, height, i, dir)->0)
}

/// A selection that holds the origin and is closed under matching
/// neighbours holds every pixel of the origin's region.
pub proof fn lemma_closed_holds_region(matches: Seq<bool>, width: int, height: int, origin: int, mask: Seq<u8>, steps: nat, p: int)
    requires
        width > 0,
        height > 0,
        0 <= p < width * height,
        selected(mask, origin),
        closed_except(matches, width, height, mask, Seq::empty()),
        reach_in(matches, width, height, origin, steps, p),
    ensures
        selected(mask, p),
    decreases steps,
{
    if steps > 0 {
        let k = (steps - 1) as nat;
        if reach_in(matches, width, height, origin, k, p) {
            lemma_closed_holds_region(matches, width, height, origin, mask, k, p);
        } else {
            let dir = if reach_from(matches, width, height, origin, k, p, 0) {
                0
            } else if reach_from(matches, width, height, origin, k, p, 1) {
                1
            } else if reach_from(matches, width, height, origin, k, p, 2) {
                2
            } else {
                3
            };
            assert(reach_from(matches, width, height, origin, k, p, dir));
            lemma_neighbor_symmetric(width, height, p, dir);
            let q = neighbor(width, height, p, dir)->0;
            lemma_closed_holds_region(matches, width, height, origin, mask, k, q);
            assert(!Seq::<usize>::empty().contains(q as usize));
            assert(neighbor(width, height, q, opposite(dir)) is Some);
        }
    }
}

/// `bounds` is the bounding box `[left, top, width, height]` of the
/// pixels `in_region` picks out: it holds them all, and each edge touches one.
pub open spec fn bounding_box(width: int, height: int, bounds: Seq<usize>, in_region: spec_fn(int) -> bool) -> bool {
    let (left, top, w, h) = (bounds[0] as int, bounds[1] as int, bounds[2] as int, bounds[3] as int);
    &&& bounds.len() == 4
    &&& forall|p: int| 0 <= p < width * height && #[trigger] in_region(p) ==> left <= p % width < left + w && top <= p / width < top + h
    &&& exists|p: int| 0 <= p < width * height && #[trigger] in_region(p) && p % width == left
    &&& exists|p: int| 0 <= p < width * height && #[trigger] in_region(p) && p % width == left + w - 1
    &&& exists|p: int| 0 <= p < width * height && #[trigger] in_region(p) && p / width == top
    &&& exists|p: int| 0 <= p < width * height && #[trigger] in_region(p) && p / width == top + h - 1
}

/// Exec twin of `neighbor`.
fn neighbor_of(width: usize, height: usize, p: usize, dir: usize) -> (r: Option<usize>)
    requires
        width > 0,
        height > 0,
        p < width * height,
        dir < 4,
        width * height <= usize::MAX,
    ensures
        match neighbor(width as int, height as int, p as int, dir as int) {
            Some(q) => r == Some(q as usize) && q == r->0 as int,
            None => r is None,
        },
{
    proof {
        if neighbor(width as int, height as int, p as int, dir as int) is Some {
            lemma_neighbor_symmetric(width as int, height as int, p as int, dir as int);
        }
    }
    let x = p % width;
    let y = p / width;
    if dir == 0 {
        if x > 0 { Some(p - 1) } else { None }
    } else if dir == 1 {
        if x + 1 < width { Some(p + 1) } else { None }
    } else if dir == 2 {
        if y > 0 { Some(p - width) } else { None }
    } else {
        if y + 1 < height { Some(p + width) } else { None }
    }
}

/// Selects the region of matching pixels 4-connected to the start pixel.
/// Answers the selection as an RGBA mask (255 in every byte of a selected
/// pixel, 0 elsewhere) and its bounding box `[left, top, width, height]`;
/// `None` when the start lies outside the image or does not match.
pub fn fill_region(matches: &Vec<bool>, width: usize, height: usize, start_x: usize, start_y: usize) -> (r: Option<(Vec<u8>, Vec<usize>)>)
    requires
        matches@.len() == width * height,
        width * height * 4 <= usize::MAX,
    ensures
        !(start_x < width && start_y < height) ==> r is None,
        start_x < width && start_y < height ==> {
            let origin = start_y * width + start_x;
            if !matches@[origin] {
                r is None
            } else {
                r matches Some((mask, bounds)) && {
                    &&& mask@.len() == width * height * 4
                    &&& forall|p: int, k: int| 0 <= p < width * height && 0 <= k < 4 ==> #[trigger] mask@[4 * p + k]
                        == if reachable(matches@, width as int, height as int, origin, p) { 255u8 } else { 0u8 }
                    &&& bounding_box(width as int, height as int, bounds@, |p: int| reachable(matches@, width as int, height as int, origin, p))
                }
            }
        },
{
    if !(start_x < width && start_y < height) {
        return None;
    }
    let n = width * height;
    proof {
        vstd::arithmetic::mul::lemma_mul_strictly_positive(width as int, height as int);
        lemma_grid_index(start_x as int, start_y as int, width as int, height as int);
    }
    let origin = start_y * width + start_x;
    if !matches[origin] {
        return None;
    }
    let ghost w = width as int;
    let ghost h = height as int;
    let ghost m = matches@;
    let mut mask: Vec<u8> = vec![0u8; n * 4];
    let ghost zero = mask@;
    assert(mask_shape(zero, n as int)) by {
        assert forall|i: int, k: int| 0 <= i < n && 0 <= k < 4 implies #[trigger] zero[4 * i + k] == if selected(zero, i) { 255u8 } else { 0u8 } by {
            assert(zero[4 * i + 3] == 0u8);
        };
    };
    mark_pixel(&mut mask, origin);
    proof {
        lemma_marked_shape(zero, mask@, n as int, origin as int);
        assert forall|i: int| 0 <= i < n && selected(mask@, i) implies i == origin by {
            if i != origin {
                assert(zero[4 * i + 3] == 0u8);
            }
        };
        assert(origin as int % w == start_x && origin as int / w == start_y) by {
            vstd::arithmetic::div_mod::lemma_fundamental_div_mod_converse(origin as int, w, start_y as int, start_x as int);
        };
        assert(reach_in(m, w, h, origin as int, 0, origin as int));
    }
    let mut pending: Vec<usize> = Vec::new();
    pending.push(origin);
    assert(pending@[0] == origin);
    let mut left = start_x;
    let mut top = start_y;
    let mut right = start_x;
    let mut bottom = start_y;
    let ghost mut marked: Set<int> = set![origin as int];
    let ghost mut witness: (int, int, int, int) = (origin as int, origin as int, origin as int, origin as int);
    while pending.len() > 0
        invariant
            w == width && h == height && m == matches@,
            w > 0 && h > 0,
            n == width * height,
            n * 4 <= usize::MAX,
            matches@.len() == n,
            origin < n,
            selected(mask@, origin as int),
            mask_shape(mask@, n as int),
            forall|j: int| 0 <= j < pending@.len() ==> #[trigger] pending@[j] < n && selected(mask@, pending@[j] as int),
            forall|i: int| 0 <= i < n && selected(mask@, i) ==> #[trigger] reachable(m, w, h, origin as int, i),
            closed_except(m, w, h, mask@, pending@),
            marked.finite(),
            forall|i: int| #[trigger] marked.contains(i) <==> 0 <= i < n && selected(mask@, i),
            forall|i: int| 0 <= i < n && #[trigger] selected(mask@, i) ==> left <= i % w <= right && top <= i / w <= bottom,
            right < width && bottom < height,
            0 <= witness.0 < n && selected(mask@, witness.0) && witness.0 % w == left,
            0 <= witness.1 < n && selected(mask@, witness.1) && witness.1 % w == right,
            0 <= witness.2 < n && selected(mask@, witness.2) && witness.2 / w == top,
            0 <= witness.3 < n && selected(mask@, witness.3) && witness.3 / w == bottom,
        decreases 2 * (n - marked.len()) + pending@.len(),
    {
        proof {
            vstd::set_lib::lemma_int_range(0, n as int);
            assert(marked.subset_of(vstd::set_lib::set_int_range(0, n as int)));
            vstd::set_lib::lemma_len_subset(marked, vstd::set_lib::set_int_range(0, n as int));
        }
        let ghost measure = 2 * (n - marked.len()) + pending@.len();
        let ghost before_pop = pending@;
        let index = match pending.pop() {
            Some(index) => index,
            None => 0,
        };
        assert(before_pop == pending@.push(index));
        assert(before_pop[before_pop.len() - 1] == index);
        assert(index < n && selected(mask@, index as int));
        assert(reachable(m, w, h, origin as int, index as int));
        let ghost steps: nat = choose|s: nat| #[trigger] reach_in(m, w, h, origin as int, s, index as int);
        let mut dir: usize = 0;
        while dir < 4
            invariant
                w == width && h == height && m == matches@,
                w > 0 && h > 0,
                n == width * height,
                n * 4 <= usize::MAX,
                matches@.len() == n,
                origin < n,
                index < n,
                dir <= 4,
                selected(mask@, origin as int),
                selected(mask@, index as int),
                reach_in(m, w, h, origin as int, steps, index as int),
                mask_shape(mask@, n as int),
                forall|j: int| 0 <= j < pending@.len() ==> #[trigger] pending@[j] < n && selected(mask@, pending@[j] as int),
                forall|i: int| 0 <= i < n && selected(mask@, i) ==> #[trigger] reachable(m, w, h, origin as int, i),
                closed_except(m, w, h, mask@, pending@.push(index)),
                forall|d: int| 0 <= d < dir && #[trigger] neighbor(w, h, index as int, d) is Some && m[neighbor(w, h, index as int, d)->0]
                    ==> selected(mask@, neighbor(w, h, index as int, d)->0),
                marked.finite(),
                forall|i: int| #[trigger] marked.contains(i) <==> 0 <= i < n && selected(mask@, i),
                2 * (n - marked.len()) + pending@.len() < measure,
                forall|i: int| 0 <= i < n && #[trigger] selected(mask@, i) ==> left <= i % w <= right && top <= i / w <= bottom,
                right < width && bottom < height,
                0 <= witness.0 < n && selected(mask@, witness.0) && witness.0 % w == left,
                0 <= witness.1 < n && selected(mask@, witness.1) && witness.1 % w == right,
                0 <= witness.2 < n && selected(mask@, witness.2) && witness.2 / w == top,
                0 <= witness.3 < n && selected(mask@, witness.3) && witness.3 / w == bottom,
            decreases 4 - dir,
        {
            let next = neighbor_of(width, height, index, dir);
            let ghost old_mask = mask@;
            match next {
                Some(q) => {
                    proof {
                        lemma_neighbor_symmetric(w, h, index as int, dir as int);
                        assert(mask@[4 * q + 3] == if selected(mask@, q as int) { 255u8 } else { 0u8 });
                    }
                    if mask[q * 4 + 3] == 0 && matches[q] {
                        let ghost old_pending = pending@;
                        mark_pixel(&mut mask, q);
                        pending.push(q);
                        let x = q % width;
                        let y = q / width;
                        proof {
                            vstd::arithmetic::div_mod::lemma_fundamental_div_mod(q as int, w);
                            vstd::arithmetic::div_mod::lemma_div_pos_is_pos(q as int, w);
                            vstd::arithmetic::div_mod::lemma_multiply_divide_lt(q as int, w, h);
                        }
                        if x < left {
                            left = x;
                            proof { witness.0 = q as int; }
                        }
                        if x > right {
                            right = x;
                            proof { witness.1 = q as int; }
                        }
                        if y < top {
                            top = y;
                            proof { witness.2 = q as int; }
                        }
                        if y > bottom {
                            bottom = y;
                            proof { witness.3 = q as int; }
                        }
                        proof {
                            lemma_marked_shape(old_mask, mask@, n as int, q as int);
                            assert(!marked.contains(q as int));
                            marked = marked.insert(q as int);
                            let back = opposite(dir as int);
                            assert(neighbor(w, h, q as int, back) == Some(index as int));
                            assert(reach_from(m, w, h, origin as int, steps, q as int, back));
                            assert(reach_in(m, w, h, origin as int, steps + 1, q as int));
                            assert(reachable(m, w, h, origin as int, q as int));
                            assert forall|i: int| 0 <= i < n && selected(mask@, i) implies #[trigger] reachable(m, w, h, origin as int, i) by {
                                if i != q {
                                    assert(selected(old_mask, i));
                                }
                            };
                            assert forall|j: int| 0 <= j < pending@.len() implies #[trigger] pending@[j] < n && selected(mask@, pending@[j] as int) by {
                                if j < old_pending.len() {
                                    assert(pending@[j] == old_pending[j]);
                                }
                            };
                            assert forall|i: int, d: int|
                                0 <= i < w * h && selected(mask@, i) && !pending@.push(index).contains(i as usize) && 0 <= d < 4
                                    && #[trigger] neighbor(w, h, i, d) is Some && m[neighbor(w, h, i, d)->0]
                                    implies selected(mask@, neighbor(w, h, i, d)->0) by {
                                assert(pending@.push(index)[old_pending.len() as int] == q);
                                assert(i != q);
                                assert(selected(old_mask, i));
                                if old_pending.push(index).contains(i as usize) {
                                    let j = old_pending.push(index).index_of(i as usize);
                                    if j < old_pending.len() {
                                        assert(pending@.push(index)[j] == i as usize);
                                    } else {
                                        assert(pending@.push(index)[pending@.len() as int] == i as usize);
                                    }
                                }
                                lemma_neighbor_symmetric(w, h, i, d);
                            };
                            assert forall|i: int| 0 <= i < n && #[trigger] selected(mask@, i) implies left <= i % w <= right && top <= i / w <= bottom by {
                                if i != q {
                                    assert(selected(old_mask, i));
                                }
                            };
                        }
                    }
                },
                None => {},
            }
            proof {
                assert forall|d: int| 0 <= d < dir + 1 && #[trigger] neighbor(w, h, index as int, d) is Some && m[neighbor(w, h, index as int, d)->0]
                    implies selected(mask@, neighbor(w, h, index as int, d)->0) by {
                    lemma_neighbor_symmetric(w, h, index as int, d);
                    if d < dir {
                        assert(selected(old_mask, neighbor(w, h, index as int, d)->0));
                    }
                };
            }
            dir = dir + 1;
        }
        proof {
            assert forall|i: int, d: int|
                0 <= i < w * h && selected(mask@, i) && !pending@.contains(i as usize) && 0 <= d < 4
                    && #[trigger] neighbor(w, h, i, d) is Some && m[neighbor(w, h, i, d)->0]
                    implies selected(mask@, neighbor(w, h, i, d)->0) by {
                if i != index {
                    assert(!pending@.push(index).contains(i as usize));
                }
            };
            vstd::set_lib::lemma_int_range(0, n as int);
            assert(marked.subset_of(vstd::set_lib::set_int_range(0, n as int)));
            vstd::set_lib::lemma_len_subset(marked, vstd::set_lib::set_int_range(0, n as int));
        }
    }
    proof {
        assert forall|p: int| 0 <= p < n implies (selected(mask@, p) <==> #[trigger] reachable(m, w, h, origin as int, p)) by {
            if reachable(m, w, h, origin as int, p) {
                let steps = choose|s: nat| #[trigger] reach_in(m, w, h, origin as int, s, p);
                assert(pending@ == Seq::<usize>::empty());
                lemma_closed_holds_region(m, w, h, origin as int, mask@, steps, p);
            }
        };
        assert forall|p: int, k: int| 0 <= p < width * height && 0 <= k < 4 implies #[trigger] mask@[4 * p + k]
            == if reachable(matches@, width as int, height as int, origin as int, p) { 255u8 } else { 0u8 } by {
            assert(mask@[4 * p + k] == if selected(mask@, p) { 255u8 } else { 0u8 });
        };
    }
    let mut bounds: Vec<usize> = Vec::new();
    bounds.push(left);
    bounds.push(top);
    bounds.push(right - left + 1);
    bounds.push(bottom - top + 1);
    proof {
        let in_region = |p: int| reachable(matches@, width as int, height as int, origin as int, p);
        assert(in_region(witness.0));
        assert(in_region(witness.1));
        assert(in_region(witness.2));
        assert(in_region(witness.3));
        assert forall|p: int| 0 <= p < width * height && #[trigger] in_region(p)
            implies left <= p % (width as int) < left + (right - left + 1) && top <= p / (width as int) < top + (bottom - top + 1) by {
            assert(selected(mask@, p));
        };
    }
    Some((mask, bounds))
}

/// Sets all four bytes of pixel `q` to 255.
fn mark_pixel(mask: &mut Vec<u8>, q: usize)
    requires
        4 * q + 4 <= old(mask)@.len(),
    ensures
        final(mask)@.len() == old(mask)@.len(),
        forall|j: int| 0 <= j < old(mask)@.len() ==> #[trigger] final(mask)@[j] == if 4 * q <= j < 4 * q + 4 { 255u8 } else { old(mask)@[j] },
{
    let len = mask.len();
    assert(4 * q + 4 <= len);
    mask.set(q * 4, 255);
    mask.set(q * 4 + 1, 255);
    mask.set(q * 4 + 2, 255);
    mask.set(q * 4 + 3, 255);
}

proof fn lemma_marked_shape(before: Seq<u8>, after: Seq<u8>, n: int, q: int)
    requires
        0 <= q < n,
        mask_shape(before, n),
        after.len() == before.len(),
        forall|j: int| 0 <= j < before.len() ==> #[trigger] after[j] == if 4 * q <= j < 4 * q + 4 { 255u8 } else { before[j] },
    ensures
        mask_shape(after, n),
        selected(after, q),
        forall|i: int| 0 <= i < n && i != q ==> (selected(after, i) <==> selected(before, i)),
        forall|i: int| 0 <= i < n && selected(before, i) ==> selected(after, i),
{
    assert forall|i: int, k: int| 0 <= i < n && 0 <= k < 4 implies #[trigger] after[4 * i + k] == if selected(after, i) { 255u8 } else { 0u8 } by {
        assert(after[4 * i + 3] == if 4 * q <= 4 * i + 3 < 4 * q + 4 { 255u8 } else { before[4 * i + 3] });
        assert(before[4 * i + k] == if selected(before, i) { 255u8 } else { 0u8 });
    };
    assert(after[4 * q + 3] == 255u8);
    assert forall|i: int| 0 <= i < n && i != q implies (selected(after, i) <==> selected(before, i)) by {
        assert(after[4 * i + 3] == before[4 * i + 3]);
    };
}

} // verus!
