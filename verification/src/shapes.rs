//! Recognition of well-known Life structures, used to colour cells by the
//! kind of structure they belong to.

use vstd::prelude::*;
use vstd::relations::{sorted_by, total_ordering};

use crate::life::{lemma_index_split, lemma_births_need_live_neighbours, lemma_change_count_zero, lemma_index_bounds, lemma_sides_within_cells, lemma_wrapped_index_bounds, lemma_wrap_bounds, offset_x, offset_y, wrap, Board, Life};

verus! {

broadcast use vstd::seq_lib::group_to_multiset_ensures;

/// Semantic classes used by the renderer's colours.
#[derive(Debug, Clone, Copy, PartialEq, Eq, Structural)]
pub enum ShapeKind {
    StillLife,
    Oscillator,
    Glider,
    Spaceship,
    Unrecognized,
}

/// Coordinates of points handled by the shape matcher stay within this
/// bound, so that mirroring and normalising them cannot overflow.
pub open spec fn coordinate_bound() -> int {
    isize::MAX as int / 2
}

pub open spec fn point(p: (isize, isize)) -> (int, int) {
    (p.0 as int, p.1 as int)
}

pub open spec fn points_of(s: Seq<(isize, isize)>) -> Seq<(int, int)> {
    s.map_values(|p: (isize, isize)| point(p))
}

/// Whether both coordinates of every point lie in `low..=high`.
pub open spec fn within(s: Seq<(int, int)>, low: int, high: int) -> bool {
    forall|i: int| 0 <= i < s.len() ==> low <= (#[trigger] s[i]).0 <= high && low <= s[i].1 <= high
}

/// The eight symmetries of the square: `t` selects the identity, the
/// mirror images in each axis, the half turn, and the reflections in the
/// diagonals combined with those (the quarter turns among them).
pub open spec fn transformed(p: (int, int), t: int) -> (int, int) {
    let (x, y) = p;
    if t == 0 {
        (x, y)
    } else if t == 1 {
        (x, -y)
    } else if t == 2 {
        (-x, y)
    } else if t == 3 {
        (-x, -y)
    } else if t == 4 {
        (y, x)
    } else if t == 5 {
        (y, -x)
    } else if t == 6 {
        (-y, x)
    } else {
        (-y, -x)
    }
}

pub open spec fn transform_all(s: Seq<(int, int)>, t: int) -> Seq<(int, int)> {
    s.map_values(|p: (int, int)| transformed(p, t))
}

/// Lexicographic order on points, the order of Rust's tuples.
pub open spec fn lex_le(a: (int, int), b: (int, int)) -> bool {
    a.0 < b.0 || (a.0 == b.0 && a.1 <= b.1)
}

/// Smallest first coordinate among the first `k` points (`k >= 1`).
pub open spec fn min_x_prefix(s: Seq<(int, int)>, k: int) -> int
    decreases k,
{
    if k <= 1 {
        s[0].0
    } else {
        let m = min_x_prefix(s, k - 1);
        if s[k - 1].0 < m {
            s[k - 1].0
        } else {
            m
        }
    }
}

/// Smallest second coordinate among the first `k` points (`k >= 1`).
pub open spec fn min_y_prefix(s: Seq<(int, int)>, k: int) -> int
    decreases k,
{
    if k <= 1 {
        s[0].1
    } else {
        let m = min_y_prefix(s, k - 1);
        if s[k - 1].1 < m {
            s[k - 1].1
        } else {
            m
        }
    }
}

/// Smallest first coordinate, or zero for no points.
pub open spec fn min_x(s: Seq<(int, int)>) -> int {
    if s.len() == 0 {
        0
    } else {
        min_x_prefix(s, s.len() as int)
    }
}

/// Smallest second coordinate, or zero for no points.
pub open spec fn min_y(s: Seq<(int, int)>) -> int {
    if s.len() == 0 {
        0
    } else {
        min_y_prefix(s, s.len() as int)
    }
}

pub open spec fn shifted(s: Seq<(int, int)>, dx: int, dy: int) -> Seq<(int, int)> {
    s.map_values(|p: (int, int)| (p.0 - dx, p.1 - dy))
}

/// The normal form of a point set: translated so that its smallest
/// coordinates are zero, then sorted.
pub open spec fn normalised(s: Seq<(int, int)>) -> Seq<(int, int)> {
    shifted(s, min_x(s), min_y(s)).sort_by(|a: (int, int), b: (int, int)| lex_le(a, b))
}

/// Whether `points` is `pattern` up to translation and the symmetries of
/// the square.
pub open spec fn same_shape(points: Seq<(int, int)>, pattern: Seq<(int, int)>) -> bool {
    exists|t: int| 0 <= t < 8 && #[trigger] normalised(transform_all(points, t)) == normalised(pattern)
}

/// Cells of the blinker, an oscillator of period two.
pub open spec fn blinker_cells() -> Seq<(isize, isize)> {
    seq![(0, 0), (1, 0), (2, 0)]
}

/// Cells of the toad, an oscillator of period two.
pub open spec fn toad_cells() -> Seq<(isize, isize)> {
    seq![(1, 0), (2, 0), (3, 0), (0, 1), (1, 1), (2, 1)]
}

/// Cells of the beacon, an oscillator of period two.
pub open spec fn beacon_cells() -> Seq<(isize, isize)> {
    seq![(0, 0), (1, 0), (0, 1), (1, 1), (2, 2), (3, 2), (2, 3), (3, 3)]
}

/// Cells of the glider.
pub open spec fn glider_cells() -> Seq<(isize, isize)> {
    seq![(1, 0), (2, 1), (0, 2), (1, 2), (2, 2)]
}

/// Cells of the lightweight spaceship.
pub open spec fn lightweight_spaceship_cells() -> Seq<(isize, isize)> {
    seq![(1, 0), (4, 0), (0, 1), (0, 2), (4, 2), (0, 3), (1, 3), (2, 3), (3, 3)]
}

/// The structure a point set is recognised as, trying the blinker, toad,
/// beacon, glider and lightweight spaceship in that order.
pub open spec fn pattern_kind(points: Seq<(int, int)>) -> Option<ShapeKind> {
    if same_shape(points, points_of(blinker_cells())) {
        Some(ShapeKind::Oscillator)
    } else if same_shape(points, points_of(toad_cells())) {
        Some(ShapeKind::Oscillator)
    } else if same_shape(points, points_of(beacon_cells())) {
        Some(ShapeKind::Oscillator)
    } else if same_shape(points, points_of(glider_cells())) {
        Some(ShapeKind::Glider)
    } else if same_shape(points, points_of(lightweight_spaceship_cells())) {
        Some(ShapeKind::Spaceship)
    } else {
        None
    }
}

/// The unwrapped coordinates of a collected component.
pub open spec fn component_points(component: Seq<(usize, (isize, isize))>) -> Seq<(int, int)> {
    component.map_values(|e: (usize, (isize, isize))| point(e.1))
}

/// Whether the neighbour at position `k` of the 3x3 neighbourhood of the
/// in-bounds cell `(x, y)` keeps its state if it is dead: no birth there.
pub open spec fn no_birth_at(b: Board, x: int, y: int, k: int) -> bool {
    let nx = wrap(x + offset_x(k), b.width as int);
    let ny = wrap(y + offset_y(k), b.height as int);
    b.alive_at(nx, ny) || !b.next_alive(nx, ny)
}

/// A live cell of a still life: it survives, and none of its dead
/// neighbours is born.
pub open spec fn settled(b: Board, index: int) -> bool {
    let x = index % (b.width as int);
    let y = index / (b.width as int);
    &&& b.next_alive(x, y)
    &&& forall|k: int| 0 <= k < 9 && k != 4 ==> #[trigger] no_birth_at(b, x, y, k)
}

/// Whether the component survives unchanged for one generation. Any birth
/// must be adjacent to a live cell, so checking each component cell's
/// neighbourhood covers every cell that could change.
pub open spec fn still_component(b: Board, component: Seq<(usize, (isize, isize))>) -> bool {
    forall|j: int| 0 <= j < component.len() ==> #[trigger] settled(b, component[j].0 as int)
}

/// A search entry: wrapped coordinates, then unwrapped coordinates.
pub type Entry = (usize, usize, isize, isize);

/// A component entry: the cell's index, then its unwrapped coordinates.
pub type Member = (usize, (isize, isize));

/// Number of unvisited cells.
pub open spec fn unvisited(v: Seq<bool>) -> nat
    decreases v.len(),
{
    if v.len() == 0 {
        0
    } else {
        unvisited(v.drop_last()) + if v.last() {
            0nat
        } else {
            1nat
        }
    }
}

pub open spec fn search_domain(b: Board, visited: Seq<bool>) -> bool {
    b.wf() && visited.len() == b.cell_count()
}

/// The search step that examines the neighbours at positions `k..9` of the
/// popped entry `e`: each live, unvisited neighbour is marked visited and
/// pushed with unwrapped coordinates one step from `e`'s.
pub open spec fn expand(b: Board, visited: Seq<bool>, stack: Seq<Entry>, e: Entry, k: int) -> (
    Seq<bool>,
    Seq<Entry>,
)
    decreases 9 - k,
{
    if k >= 9 {
        (visited, stack)
    } else if k == 4 {
        expand(b, visited, stack, e, k + 1)
    } else {
        let nx = wrap(e.0 + offset_x(k), b.width as int);
        let ny = wrap(e.1 + offset_y(k), b.height as int);
        let n = b.index(nx, ny);
        if !visited[n] && b.alive[n] {
            expand(
                b,
                visited.update(n, true),
                stack.push(
                    (
                        nx as usize,
                        ny as usize,
                        (e.2 + offset_x(k)) as isize,
                        (e.3 + offset_y(k)) as isize,
                    ),
                ),
                e,
                k + 1,
            )
        } else {
            expand(b, visited, stack, e, k + 1)
        }
    }
}

pub proof fn lemma_unvisited_update(v: Seq<bool>, n: int)
    requires
        0 <= n < v.len(),
        !v[n],
    ensures
        unvisited(v.update(n, true)) + 1 == unvisited(v),
    decreases v.len(),
{
    if n < v.len() - 1 {
        assert(v.update(n, true).drop_last() =~= v.drop_last().update(n, true));
        lemma_unvisited_update(v.drop_last(), n);
    } else {
        assert(v.update(n, true).drop_last() =~= v.drop_last());
    }
}

pub proof fn lemma_unvisited_bound(v: Seq<bool>)
    ensures
        unvisited(v) <= v.len(),
    decreases v.len(),
{
    if v.len() > 0 {
        lemma_unvisited_bound(v.drop_last());
    }
}

pub proof fn lemma_expand_progress(b: Board, visited: Seq<bool>, stack: Seq<Entry>, e: Entry, k: int)
    requires
        search_domain(b, visited),
        0 <= k <= 9,
    ensures
        search_domain(b, expand(b, visited, stack, e, k).0),
        expand(b, visited, stack, e, k).1.len() >= stack.len(),
        unvisited(expand(b, visited, stack, e, k).0) + expand(b, visited, stack, e, k).1.len()
            == unvisited(visited) + stack.len(),
        expand(b, visited, stack, e, k).1.len() <= stack.len() + 9 - k,
    decreases 9 - k,
{
    if k < 9 && k != 4 {
        let nx = wrap(e.0 + offset_x(k), b.width as int);
        let ny = wrap(e.1 + offset_y(k), b.height as int);
        let n = b.index(nx, ny);
        lemma_wrap_bounds(e.0 + offset_x(k), b.width as int);
        lemma_wrap_bounds(e.1 + offset_y(k), b.height as int);
        lemma_index_bounds(b.width as int, b.height as int, nx, ny);
        if !visited[n] && b.alive[n] {
            lemma_unvisited_update(visited, n);
            lemma_expand_progress(
                b,
                visited.update(n, true),
                stack.push(
                    (
                        nx as usize,
                        ny as usize,
                        (e.2 + offset_x(k)) as isize,
                        (e.3 + offset_y(k)) as isize,
                    ),
                ),
                e,
                k + 1,
            );
        } else {
            lemma_expand_progress(b, visited, stack, e, k + 1);
        }
    } else if k == 4 {
        lemma_expand_progress(b, visited, stack, e, k + 1);
    }
}

/// The depth-first search that collects a component: pop the most recent
/// entry, record it, and expand its neighbourhood, until the stack is empty.
/// Returns the final visited flags and the recorded members in order.
pub open spec fn search(b: Board, visited: Seq<bool>, stack: Seq<Entry>, found: Seq<Member>) -> (
    Seq<bool>,
    Seq<Member>,
)
    decreases 9 * unvisited(visited) + stack.len(),
    when search_domain(b, visited)
{
    if stack.len() == 0 {
        (visited, found)
    } else {
        let e = stack.last();
        let next = expand(b, visited, stack.drop_last(), e, 0);
        proof {
            lemma_expand_progress(b, visited, stack.drop_last(), e, 0);
        }
        search(
            b,
            next.0,
            next.1,
            found.push(((e.1 * b.width + e.0) as usize, (e.2, e.3))),
        )
    }
}

/// The component of the live cell `(x, y)`, searched from that cell with
/// the given cells already visited: the final visited flags and the
/// members in the order the search records them.
pub open spec fn component_from(b: Board, visited: Seq<bool>, x: int, y: int) -> (
    Seq<bool>,
    Seq<Member>,
) {
    search(
        b,
        visited.update(b.index(x, y), true),
        seq![(x as usize, y as usize, x as isize, y as isize)],
        Seq::empty(),
    )
}

/// Largest first coordinate, or zero for no points.
pub open spec fn max_x_of(s: Seq<(int, int)>) -> int
    decreases s.len(),
{
    if s.len() == 0 {
        0
    } else if s.len() == 1 {
        s[0].0
    } else {
        let m = max_x_of(s.drop_last());
        if s.last().0 > m {
            s.last().0
        } else {
            m
        }
    }
}

/// Largest second coordinate, or zero for no points.
pub open spec fn max_y_of(s: Seq<(int, int)>) -> int
    decreases s.len(),
{
    if s.len() == 0 {
        0
    } else if s.len() == 1 {
        s[0].1
    } else {
        let m = max_y_of(s.drop_last());
        if s.last().1 > m {
            s.last().1
        } else {
            m
        }
    }
}

pub open spec fn upoint(p: (usize, usize)) -> (int, int) {
    (p.0 as int, p.1 as int)
}

pub open spec fn upoints_of(s: Seq<(usize, usize)>) -> Seq<(int, int)> {
    s.map_values(|p: (usize, usize)| upoint(p))
}

/// Whether the cell at offset `(x - 1, y - 1)` from the anchor `(ax, ay)`
/// has the state the pattern calls for: alive exactly on the pattern's
/// cells, dead on the frame one cell wide around them.
pub open spec fn frame_matches(b: Board, ax: int, ay: int, pattern: Seq<(int, int)>, x: int, y: int) -> bool {
    b.alive_at(ax + x - 1, ay + y - 1) == (x >= 1 && y >= 1 && pattern.contains((x - 1, y - 1)))
}

/// Whether the pattern stands alone at the anchor `(ax, ay)`: its cells
/// are alive and every other cell of its bounding box, widened by one on
/// each side, is dead.
pub open spec fn isolated_at(b: Board, ax: int, ay: int, pattern: Seq<(int, int)>) -> bool {
    forall|x: int, y: int|
        0 <= x <= max_x_of(pattern) + 2 && 0 <= y <= max_y_of(pattern) + 2 ==> #[trigger] frame_matches(
            b,
            ax,
            ay,
            pattern,
            x,
            y,
        )
}

/// Whether the cell with index `i` is one of the pattern's cells placed at
/// the anchor `(ax, ay)`.
pub open spec fn placed_on(b: Board, ax: int, ay: int, pattern: Seq<(int, int)>, i: int) -> bool {
    exists|j: int|
        0 <= j < pattern.len() && i == b.wrapped_index(ax + (#[trigger] pattern[j]).0, ay + pattern[j].1)
}

/// The normalised orientation `t` of a pattern.
pub open spec fn orientation(pattern: Seq<(int, int)>, t: int) -> Seq<(int, int)> {
    normalised(transform_all(pattern, t))
}

/// Whether the cell with index `i` belongs to an isolated copy of the
/// oriented pattern `oriented` anchored anywhere on the board.
pub open spec fn copy_covers(b: Board, oriented: Seq<(int, int)>, i: int) -> bool {
    exists|ax: int, ay: int|
        0 <= ax < b.width && 0 <= ay < b.height && #[trigger] isolated_at(b, ax, ay, oriented)
            && placed_on(b, ax, ay, oriented, i)
}

/// Whether the cell with index `i` belongs to an isolated copy of the
/// pattern, in any orientation and at any anchor on the board.
pub open spec fn in_isolated_copy(b: Board, pattern: Seq<(int, int)>, i: int) -> bool {
    exists|t: int| 0 <= t < 8 && #[trigger] copy_covers(b, orientation(pattern, t), i)
}

/// Labels after marking every cell of every isolated copy of the pattern
/// with `kind`; other cells keep their label.
pub open spec fn with_isolated_copies(
    b: Board,
    labels: Seq<Option<ShapeKind>>,
    kind: ShapeKind,
    pattern: Seq<(int, int)>,
) -> Seq<Option<ShapeKind>> {
    Seq::new(
        labels.len(),
        |i: int|
            if in_isolated_copy(b, pattern, i) {
                Some(kind)
            } else {
                labels[i]
            },
    )
}

pub proof fn lemma_normalised_within(s: Seq<(int, int)>, m: int)
    requires
        within(s, -m, m),
    ensures
        within(normalised(s), 0, 2 * m),
        normalised(s).len() == s.len(),
{
    let leq = |a: (int, int), b: (int, int)| lex_le(a, b);
    let t = shifted(s, min_x(s), min_y(s));
    lemma_normalised_len(s);
    lemma_lex_total();
    t.lemma_sort_by_ensures(leq);
    if s.len() > 0 {
        lemma_min_prefix(s, s.len() as int);
    }
    assert forall|i: int| 0 <= i < normalised(s).len() implies 0 <= (#[trigger] normalised(s)[i]).0
        <= 2 * m && 0 <= normalised(s)[i].1 <= 2 * m by {
        let q = normalised(s)[i];
        assert(t.sort_by(leq).contains(q));
        assert(t.contains(q));
        let k = choose|k: int| 0 <= k < t.len() && t[k] == q;
        assert(s[k].0 >= min_x(s));
        assert(s[k].1 >= min_y(s));
    }
}

pub proof fn lemma_transform_within(s: Seq<(int, int)>, t: int, m: int)
    requires
        within(s, -m, m),
    ensures
        within(transform_all(s, t), -m, m),
        transform_all(s, t).len() == s.len(),
{
}

pub proof fn lemma_max_of(s: Seq<(int, int)>)
    requires
        s.len() > 0,
    ensures
        exists|i: int| 0 <= i < s.len() && #[trigger] s[i].0 == max_x_of(s),
        exists|i: int| 0 <= i < s.len() && #[trigger] s[i].1 == max_y_of(s),
        forall|i: int| 0 <= i < s.len() ==> (#[trigger] s[i]).0 <= max_x_of(s) && s[i].1 <= max_y_of(s),
    decreases s.len(),
{
    if s.len() == 1 {
        assert(s[0].0 == max_x_of(s));
        assert(s[0].1 == max_y_of(s));
    } else {
        let d = s.drop_last();
        lemma_max_of(d);
        assert forall|i: int| 0 <= i < s.len() implies (#[trigger] s[i]).0 <= max_x_of(s) && s[i].1
            <= max_y_of(s) by {
            if i < s.len() - 1 {
                assert(s[i] == d[i]);
            }
        }
        if s.last().0 > max_x_of(d) {
            assert(s[s.len() - 1].0 == max_x_of(s));
        } else {
            let i = choose|i: int| 0 <= i < d.len() && #[trigger] d[i].0 == max_x_of(d);
            assert(s[i].0 == max_x_of(s));
        }
        if s.last().1 > max_y_of(d) {
            assert(s[s.len() - 1].1 == max_y_of(s));
        } else {
            let i = choose|i: int| 0 <= i < d.len() && #[trigger] d[i].1 == max_y_of(d);
            assert(s[i].1 == max_y_of(s));
        }
    }
}

/// Matching shapes have as many points.
pub proof fn lemma_same_shape_same_size(points: Seq<(int, int)>, pattern: Seq<(int, int)>)
    requires
        same_shape(points, pattern),
    ensures
        points.len() == pattern.len(),
{
    let t = choose|t: int| 0 <= t < 8 && #[trigger] normalised(transform_all(points, t)) == normalised(pattern);
    lemma_normalised_len(transform_all(points, t));
    lemma_normalised_len(pattern);
}

/// The symmetry that undoes symmetry `t`.
pub open spec fn inverse_transform(t: int) -> int {
    if t == 5 {
        6
    } else if t == 6 {
        5
    } else {
        t
    }
}

/// A point set matches itself in each of the eight symmetries of the
/// square: a rotated or mirrored copy of a pattern is the same shape.
pub proof fn lemma_every_orientation_matches(points: Seq<(int, int)>, t: int)
    requires
        0 <= t < 8,
    ensures
        same_shape(transform_all(points, t), points),
        same_shape(points, transform_all(points, t)),
{
    let u = inverse_transform(t);
    assert(transform_all(transform_all(points, t), u) =~= points);
    assert(normalised(transform_all(transform_all(points, t), u)) == normalised(points));
    assert(transform_all(points, t) =~= transform_all(points, t));
    assert(normalised(transform_all(points, t)) == normalised(transform_all(points, t)));
}

/// Each listed structure is recognised as its kind in every orientation:
/// blinkers, toads and beacons as oscillators, gliders as gliders and
/// lightweight spaceships as spaceships; the five differ in size, so none
/// is mistaken for another.
pub proof fn lemma_structures_recognised_in_every_orientation(t: int)
    requires
        0 <= t < 8,
    ensures
        pattern_kind(transform_all(points_of(blinker_cells()), t)) == Some(ShapeKind::Oscillator),
        pattern_kind(transform_all(points_of(toad_cells()), t)) == Some(ShapeKind::Oscillator),
        pattern_kind(transform_all(points_of(beacon_cells()), t)) == Some(ShapeKind::Oscillator),
        pattern_kind(transform_all(points_of(glider_cells()), t)) == Some(ShapeKind::Glider),
        pattern_kind(transform_all(points_of(lightweight_spaceship_cells()), t)) == Some(
            ShapeKind::Spaceship,
        ),
{
    let bl = points_of(blinker_cells());
    let to = points_of(toad_cells());
    let be = points_of(beacon_cells());
    let gl = points_of(glider_cells());
    let ls = points_of(lightweight_spaceship_cells());
    assert(bl.len() == 3 && to.len() == 6 && be.len() == 8 && gl.len() == 5 && ls.len() == 9);
    let patterns = seq![bl, to, be, gl, ls];
    assert forall|p: int, q: int| 0 <= p < 5 && 0 <= q < 5 && p != q implies !same_shape(
        transform_all(#[trigger] patterns[p], t),
        #[trigger] patterns[q],
    ) by {
        if same_shape(transform_all(patterns[p], t), patterns[q]) {
            lemma_same_shape_same_size(transform_all(patterns[p], t), patterns[q]);
        }
    }
    lemma_every_orientation_matches(bl, t);
    lemma_every_orientation_matches(to, t);
    lemma_every_orientation_matches(be, t);
    lemma_every_orientation_matches(gl, t);
    lemma_every_orientation_matches(ls, t);
    assert(!same_shape(transform_all(patterns[1], t), patterns[0]));
    assert(!same_shape(transform_all(patterns[2], t), patterns[0]));
    assert(!same_shape(transform_all(patterns[2], t), patterns[1]));
    assert(!same_shape(transform_all(patterns[3], t), patterns[0]));
    assert(!same_shape(transform_all(patterns[3], t), patterns[1]));
    assert(!same_shape(transform_all(patterns[3], t), patterns[2]));
    assert(!same_shape(transform_all(patterns[4], t), patterns[0]));
    assert(!same_shape(transform_all(patterns[4], t), patterns[1]));
    assert(!same_shape(transform_all(patterns[4], t), patterns[2]));
    assert(!same_shape(transform_all(patterns[4], t), patterns[3]));
}

pub proof fn lemma_lex_total()
    ensures
        total_ordering(|a: (int, int), b: (int, int)| lex_le(a, b)),
{
}

pub proof fn lemma_min_prefix(s: Seq<(int, int)>, k: int)
    requires
        1 <= k <= s.len(),
    ensures
        forall|i: int| 0 <= i < k ==> min_x_prefix(s, k) <= (#[trigger] s[i]).0,
        forall|i: int| 0 <= i < k ==> min_y_prefix(s, k) <= (#[trigger] s[i]).1,
        exists|i: int| 0 <= i < k && min_x_prefix(s, k) == (#[trigger] s[i]).0,
        exists|i: int| 0 <= i < k && min_y_prefix(s, k) == (#[trigger] s[i]).1,
    decreases k,
{
    if k > 1 {
        lemma_min_prefix(s, k - 1);
        if s[k - 1].0 < min_x_prefix(s, k - 1) {
            assert(min_x_prefix(s, k) == s[k - 1].0);
        } else {
            let i = choose|i: int| 0 <= i < k - 1 && min_x_prefix(s, k - 1) == (#[trigger] s[i]).0;
            assert(min_x_prefix(s, k) == s[i].0);
        }
        if s[k - 1].1 < min_y_prefix(s, k - 1) {
            assert(min_y_prefix(s, k) == s[k - 1].1);
        } else {
            let i = choose|i: int| 0 <= i < k - 1 && min_y_prefix(s, k - 1) == (#[trigger] s[i]).1;
            assert(min_y_prefix(s, k) == s[i].1);
        }
    } else {
        assert(min_x_prefix(s, k) == s[0].0);
        assert(min_y_prefix(s, k) == s[0].1);
    }
}

fn transform_point(p: (isize, isize), transform: u8) -> (q: (isize, isize))
    requires
        -coordinate_bound() <= p.0 <= coordinate_bound(),
        -coordinate_bound() <= p.1 <= coordinate_bound(),
    ensures
        point(q) == transformed(point(p), transform as int),
{
    let (x, y) = p;
    match transform {
        0 => (x, y),
        1 => (x, -y),
        2 => (-x, y),
        3 => (-x, -y),
        4 => (y, x),
        5 => (y, -x),
        6 => (-y, x),
        _ => (-y, -x),
    }
}

/// Translates the points so their smallest coordinates are zero, then sorts
/// them.
fn normalise(points: Vec<(isize, isize)>) -> (normal: Vec<(isize, isize)>)
    requires
        within(points_of(points@), -coordinate_bound(), coordinate_bound()),
    ensures
        points_of(normal@) == normalised(points_of(points@)),
        normal@.len() == points@.len(),
{
    let ghost s = points_of(points@);
    let n = points.len();
    let mut min_x_value: isize = 0;
    let mut min_y_value: isize = 0;
    if n > 0 {
        min_x_value = points[0].0;
        min_y_value = points[0].1;
        let mut i: usize = 1;
        while i < n
            invariant
                n == points@.len(),
                s == points_of(points@),
                1 <= i <= n,
                min_x_value == min_x_prefix(s, i as int),
                min_y_value == min_y_prefix(s, i as int),
            decreases n - i,
        {
            if points[i].0 < min_x_value {
                min_x_value = points[i].0;
            }
            if points[i].1 < min_y_value {
                min_y_value = points[i].1;
            }
            i += 1;
        }
        proof {
            lemma_min_prefix(s, n as int);
        }
    }
    let ghost mx = min_x_value as int;
    let ghost my = min_y_value as int;
    assert(mx == min_x(s) && my == min_y(s));
    let ghost target = shifted(s, mx, my);
    assert(forall|i: int| 0 <= i < n ==> mx <= (#[trigger] s[i]).0 && my <= s[i].1);
    assert(-coordinate_bound() <= mx <= coordinate_bound());
    assert(-coordinate_bound() <= my <= coordinate_bound());
    let mut sorted: Vec<(isize, isize)> = Vec::new();
    let mut i: usize = 0;
    while i < n
        invariant
            n == points@.len(),
            s == points_of(points@),
            within(s, -coordinate_bound(), coordinate_bound()),
            mx == min_x_value,
            my == min_y_value,
            -coordinate_bound() <= mx <= coordinate_bound(),
            -coordinate_bound() <= my <= coordinate_bound(),
            target == shifted(s, mx, my),
            forall|j: int| 0 <= j < n ==> mx <= (#[trigger] s[j]).0 && my <= s[j].1,
            i <= n,
            sorted@.len() == i,
            sorted_by(points_of(sorted@), |a: (int, int), b: (int, int)| lex_le(a, b)),
            points_of(sorted@).to_multiset() == target.take(i as int).to_multiset(),
        decreases n - i,
    {
        assert(s[i as int] == point(points@[i as int]));
        let p = (points[i].0 - min_x_value, points[i].1 - min_y_value);
        assert(point(p) == target[i as int]);
        let mut pos: usize = 0;
        while pos < sorted.len() && (sorted[pos].0 < p.0 || (sorted[pos].0 == p.0
            && sorted[pos].1 <= p.1))
            invariant
                pos <= sorted@.len(),
                forall|k: int| 0 <= k < pos ==> lex_le(point(#[trigger] sorted@[k]), point(p)),
            decreases sorted@.len() - pos,
        {
            pos += 1;
        }
        let ghost before = sorted@;
        sorted.insert(pos, p);
        proof {
            let leq = |a: (int, int), b: (int, int)| lex_le(a, b);
            assert(points_of(sorted@) =~= points_of(before).insert(pos as int, point(p)));
            assert(target.take(i + 1) =~= target.take(i as int).push(point(p)));
            assert forall|a: int, b: int| 0 <= a < b < sorted@.len() implies #[trigger] leq(
                points_of(sorted@)[a],
                points_of(sorted@)[b],
            ) by {
                if pos < before.len() {
                    assert(!lex_le(point(before[pos as int]), point(p)));
                }
                if b < pos {
                    assert(leq(points_of(before)[a], points_of(before)[b]));
                } else if b == pos {
                } else if a < pos {
                    assert(lex_le(point(p), point(before[pos as int])));
                    assert(leq(points_of(before)[pos as int], points_of(before)[b - 1]) || pos
                        == b - 1);
                } else if a == pos {
                    assert(leq(points_of(before)[pos as int], points_of(before)[b - 1]) || pos
                        == b - 1);
                } else {
                    assert(leq(points_of(before)[a - 1], points_of(before)[b - 1]));
                }
            }
        }
        i += 1;
    }
    proof {
        let leq = |a: (int, int), b: (int, int)| lex_le(a, b);
        lemma_lex_total();
        assert(target.take(n as int) =~= target);
        target.lemma_sort_by_ensures(leq);
        vstd::seq_lib::lemma_sorted_unique(points_of(sorted@), target.sort_by(leq), leq);
    }
    sorted
}

/// The blinker's cells.
pub fn blinker() -> (cells: Vec<(isize, isize)>)
    ensures
        cells@ == blinker_cells(),
{
    let cells = vec![(0, 0), (1, 0), (2, 0)];
    assert(cells@ =~= blinker_cells());
    cells
}

/// The toad's cells.
pub fn toad() -> (cells: Vec<(isize, isize)>)
    ensures
        cells@ == toad_cells(),
{
    let cells = vec![(1, 0), (2, 0), (3, 0), (0, 1), (1, 1), (2, 1)];
    assert(cells@ =~= toad_cells());
    cells
}

/// The beacon's cells.
pub fn beacon() -> (cells: Vec<(isize, isize)>)
    ensures
        cells@ == beacon_cells(),
{
    let cells = vec![(0, 0), (1, 0), (0, 1), (1, 1), (2, 2), (3, 2), (2, 3), (3, 3)];
    assert(cells@ =~= beacon_cells());
    cells
}

/// The glider's cells.
pub fn glider() -> (cells: Vec<(isize, isize)>)
    ensures
        cells@ == glider_cells(),
{
    let cells = vec![(1, 0), (2, 1), (0, 2), (1, 2), (2, 2)];
    assert(cells@ =~= glider_cells());
    cells
}

/// The lightweight spaceship's cells.
pub fn lightweight_spaceship() -> (cells: Vec<(isize, isize)>)
    ensures
        cells@ == lightweight_spaceship_cells(),
{
    let cells = vec![(1, 0), (4, 0), (0, 1), (0, 2), (4, 2), (0, 3), (1, 3), (2, 3), (3, 3)];
    assert(cells@ =~= lightweight_spaceship_cells());
    cells
}

fn copy_points(points: &Vec<(isize, isize)>) -> (copy: Vec<(isize, isize)>)
    ensures
        copy@ == points@,
{
    let mut copy: Vec<(isize, isize)> = Vec::new();
    let mut i: usize = 0;
    while i < points.len()
        invariant
            i <= points@.len(),
            copy@ == points@.take(i as int),
        decreases points@.len() - i,
    {
        copy.push(points[i]);
        i += 1;
        assert(copy@ =~= points@.take(i as int));
    }
    assert(points@.take(i as int) =~= points@);
    copy
}

fn same_points(a: &Vec<(isize, isize)>, b: &Vec<(isize, isize)>) -> (same: bool)
    ensures
        same == (a@ == b@),
{
    if a.len() != b.len() {
        return false;
    }
    let mut i: usize = 0;
    while i < a.len()
        invariant
            a@.len() == b@.len(),
            i <= a@.len(),
            forall|k: int| 0 <= k < i ==> a@[k] == b@[k],
        decreases a@.len() - i,
    {
        if a[i].0 != b[i].0 || a[i].1 != b[i].1 {
            return false;
        }
        i += 1;
    }
    assert(a@ =~= b@);
    true
}

pub proof fn lemma_normalised_len(s: Seq<(int, int)>)
    ensures
        normalised(s).len() == s.len(),
{
    let leq = |a: (int, int), b: (int, int)| lex_le(a, b);
    let t = shifted(s, min_x(s), min_y(s));
    lemma_lex_total();
    t.lemma_sort_by_ensures(leq);
    assert(t.to_multiset().len() == t.len());
    assert(t.sort_by(leq).to_multiset().len() == t.sort_by(leq).len());
}

/// Whether `points` is `pattern` up to translation and symmetry.
fn is_shape(points: &Vec<(isize, isize)>, pattern: &Vec<(isize, isize)>) -> (matched: bool)
    requires
        within(points_of(points@), -coordinate_bound(), coordinate_bound()),
        within(points_of(pattern@), -coordinate_bound(), coordinate_bound()),
    ensures
        matched == same_shape(points_of(points@), points_of(pattern@)),
{
    let ghost ps = points_of(points@);
    let ghost qs = points_of(pattern@);
    let expected = normalise(copy_points(pattern));
    if points.len() != expected.len() {
        proof {
            assert forall|t: int| 0 <= t < 8 implies #[trigger] normalised(transform_all(ps, t))
                != normalised(qs) by {
                lemma_normalised_len(transform_all(ps, t));
            }
        }
        return false;
    }
    let mut t: u8 = 0;
    while t < 8
        invariant
            ps == points_of(points@),
            qs == points_of(pattern@),
            within(ps, -coordinate_bound(), coordinate_bound()),
            points_of(expected@) == normalised(qs),
            t <= 8,
            forall|tt: int| 0 <= tt < t ==> #[trigger] normalised(transform_all(ps, tt)) != normalised(qs),
        decreases 8 - t,
    {
        let mut moved: Vec<(isize, isize)> = Vec::new();
        let mut i: usize = 0;
        while i < points.len()
            invariant
                ps == points_of(points@),
                within(ps, -coordinate_bound(), coordinate_bound()),
                i <= points@.len(),
                points_of(moved@) == transform_all(ps, t as int).take(i as int),
                within(points_of(moved@), -coordinate_bound(), coordinate_bound()),
            decreases points@.len() - i,
        {
            assert(ps[i as int] == point(points@[i as int]));
            let q = transform_point(points[i], t);
            let ghost before = moved@;
            moved.push(q);
            i += 1;
            proof {
                assert(points_of(moved@) =~= points_of(before).push(point(q)));
                assert(transform_all(ps, t as int).take(i as int) =~= transform_all(ps, t as int).take(i - 1).push(point(q)));
            }
        }
        assert(transform_all(ps, t as int).take(i as int) =~= transform_all(ps, t as int));
        let normal = normalise(moved);
        if same_points(&normal, &expected) {
            return true;
        }
        proof {
            if normalised(transform_all(ps, t as int)) == normalised(qs) {
                assert(points_of(normal@).len() == points_of(expected@).len());
                assert(normal@ =~= expected@) by {
                    assert forall|k: int| 0 <= k < normal@.len() implies normal@[k] == expected@[k] by {
                        assert(points_of(normal@)[k] == points_of(expected@)[k]);
                        assert(points_of(normal@)[k] == point(normal@[k]));
                        assert(points_of(expected@)[k] == point(expected@[k]));
                    }
                }
            }
        }
        t += 1;
    }
    false
}

fn usize_to_isize(value: usize) -> (v: isize)
    requires
        value <= isize::MAX,
    ensures
        v == value,
{
    value as isize
}

/// `value + offset` wrapped into `0..dimension`.
fn wrap_coordinate(value: usize, offset: isize, dimension: usize) -> (wrapped: usize)
    requires
        value <= isize::MAX,
        0 < dimension <= isize::MAX,
        isize::MIN <= value + offset <= isize::MAX,
    ensures
        wrapped == wrap(value + offset, dimension as int),
        wrapped < dimension,
{
    let value = usize_to_isize(value);
    let dimension_signed = usize_to_isize(dimension);
    proof {
        lemma_wrap_bounds(value + offset, dimension as int);
    }
    (value + offset).checked_rem_euclid(dimension_signed).unwrap() as usize
}

/// Whether this connected component survives unchanged for one Life
/// generation. The simulation's own next-state rule is used to prevent
/// detector drift.
fn is_still_life(life: &Life, component: &Vec<Member>) -> (still: bool)
    requires
        life@.wf(),
        forall|j: int| 0 <= j < component@.len() ==> (#[trigger] component@[j]).0 < life@.cell_count(),
    ensures
        still == still_component(life@, component@),
{
    let ghost b = life@;
    let width = life.width();
    let height = life.height();
    let mut j: usize = 0;
    while j < component.len()
        invariant
            b == life@,
            b.wf(),
            width == b.width,
            height == b.height,
            forall|i: int| 0 <= i < component@.len() ==> (#[trigger] component@[i]).0 < b.cell_count(),
            j <= component@.len(),
            forall|i: int| 0 <= i < j ==> #[trigger] settled(b, component@[i].0 as int),
        decreases component@.len() - j,
    {
        let index = component[j].0;
        let x = index % width;
        let y = index / width;
        proof {
            lemma_index_split(index as int, width as int, height as int);
        }
        if !life.will_be_alive_at(x, y) {
            assert(!settled(b, component@[j as int].0 as int));
            return false;
        }
        let mut k: usize = 0;
        while k < 9
            invariant
                b == life@,
                b.wf(),
                width == b.width,
                height == b.height,
                x < width,
                y < height,
                x == index as int % (width as int),
                y == index as int / (width as int),
                j < component@.len(),
                index == component@[j as int].0,
                k <= 9,
                forall|kk: int| 0 <= kk < k && kk != 4 ==> #[trigger] no_birth_at(b, x as int, y as int, kk),
            decreases 9 - k,
        {
            if k != 4 {
                let offset_x = (k % 3) as isize - 1;
                let offset_y = (k / 3) as isize - 1;
                let neighbour_x = wrap_coordinate(x, offset_x, width);
                let neighbour_y = wrap_coordinate(y, offset_y, height);
                proof {
                    lemma_wrap_bounds(neighbour_x as int, b.width as int);
                    lemma_wrap_bounds(neighbour_y as int, b.height as int);
                }
                if !life.is_alive_at(neighbour_x, neighbour_y) && life.will_be_alive_at(
                    neighbour_x,
                    neighbour_y,
                ) {
                    assert(!no_birth_at(b, x as int, y as int, k as int));
                    assert(!settled(b, component@[j as int].0 as int));
                    return false;
                }
            }
            k += 1;
        }
        assert(settled(b, index as int));
        j += 1;
    }
    true
}

pub open spec fn near(value: int, origin: int, reach: int) -> bool {
    origin - reach <= value <= origin + reach
}

/// Collects the connected component of the live cell `(start_x, start_y)`
/// by a depth-first search over the eight wrapped neighbours, marking its
/// cells visited. Each member carries unwrapped coordinates: the start's
/// own, and for every other cell those of the cell it was reached from,
/// moved by one step.
fn collect_component(life: &Life, visited: &mut Vec<bool>, start_x: usize, start_y: usize) -> (component: Vec<Member>)
    requires
        life@.wf(),
        old(visited)@.len() == life@.cell_count(),
        start_x < life@.width,
        start_y < life@.height,
    ensures
        (final(visited)@, component@) == component_from(life@, old(visited)@, start_x as int, start_y as int),
        final(visited)@.len() == old(visited)@.len(),
        forall|j: int| 0 <= j < component@.len() ==> (#[trigger] component@[j]).0 < life@.cell_count(),
        within(component_points(component@), -coordinate_bound(), coordinate_bound()),
{
    let ghost b = life@;
    let ghost sx = start_x as int;
    let ghost sy = start_y as int;
    let width = life.width();
    let height = life.height();
    let mut component: Vec<Member> = Vec::new();
    let mut stack: Vec<Entry> = Vec::new();
    stack.push((start_x, start_y, usize_to_isize(start_x), usize_to_isize(start_y)));
    proof {
        lemma_index_bounds(b.width as int, b.height as int, sx, sy);
        assert(b.width <= b.cell_count()) by (nonlinear_arith)
            requires
                b.height >= 1,
                b.width >= 0,
        ;
        assert(b.height <= b.cell_count()) by (nonlinear_arith)
            requires
                b.width >= 1,
                b.height >= 0,
        ;
    }
    visited.set(start_y * width + start_x, true);
    let ghost u0 = unvisited(visited@);
    proof {
        lemma_unvisited_bound(visited@);
        assert(stack@ =~= seq![(start_x, start_y, start_x as isize, start_y as isize)]);
    }
    while stack.len() > 0
        invariant
            b == life@,
            b.wf(),
            width == b.width,
            height == b.height,
            0 <= sx < b.width,
            0 <= sy < b.height,
            b.width <= b.cell_count(),
            b.height <= b.cell_count(),
            search_domain(b, visited@),
            search(b, visited@, stack@, component@) == component_from(b, old(visited)@, sx, sy),
            unvisited(visited@) <= u0 <= b.cell_count(),
            forall|i: int|
                0 <= i < stack@.len() ==> {
                    &&& (#[trigger] stack@[i]).0 < b.width
                    &&& stack@[i].1 < b.height
                    &&& near(stack@[i].2 as int, sx, u0 - unvisited(visited@))
                    &&& near(stack@[i].3 as int, sy, u0 - unvisited(visited@))
                },
            forall|j: int|
                0 <= j < component@.len() ==> {
                    &&& (#[trigger] component@[j]).0 < b.cell_count()
                    &&& near(component@[j].1.0 as int, sx, u0 - unvisited(visited@))
                    &&& near(component@[j].1.1 as int, sy, u0 - unvisited(visited@))
                },
        decreases 9 * unvisited(visited@) + stack@.len(),
    {
        let ghost before_visited = visited@;
        let ghost before_stack = stack@;
        let ghost before_component = component@;
        let e = stack.pop().unwrap();
        let (cell_x, cell_y, unwrapped_x, unwrapped_y) = e;
        proof {
            lemma_index_bounds(b.width as int, b.height as int, cell_x as int, cell_y as int);
            assert(stack@ =~= before_stack.drop_last());
        }
        component.push((cell_y * width + cell_x, (unwrapped_x, unwrapped_y)));
        let ghost pop_visited = visited@;
        let ghost pop_stack = stack@;
        let mut k: usize = 0;
        while k < 9
            invariant
                b == life@,
                b.wf(),
                width == b.width,
                height == b.height,
                0 <= sx < b.width,
                0 <= sy < b.height,
                b.width <= b.cell_count(),
                b.height <= b.cell_count(),
                e == (cell_x, cell_y, unwrapped_x, unwrapped_y),
                cell_x < b.width,
                cell_y < b.height,
                near(unwrapped_x as int, sx, u0 - unvisited(pop_visited)),
                near(unwrapped_y as int, sy, u0 - unvisited(pop_visited)),
                search_domain(b, visited@),
                k <= 9,
                expand(b, visited@, stack@, e, k as int) == expand(b, pop_visited, pop_stack, e, 0),
                unvisited(visited@) <= unvisited(pop_visited),
                unvisited(pop_visited) <= u0 <= b.cell_count(),
                forall|i: int|
                    0 <= i < stack@.len() ==> {
                        &&& (#[trigger] stack@[i]).0 < b.width
                        &&& stack@[i].1 < b.height
                        &&& near(stack@[i].2 as int, sx, u0 - unvisited(visited@))
                        &&& near(stack@[i].3 as int, sy, u0 - unvisited(visited@))
                    },
            decreases 9 - k,
        {
            if k != 4 {
                let offset_x = (k % 3) as isize - 1;
                let offset_y = (k / 3) as isize - 1;
                let neighbour_x = wrap_coordinate(cell_x, offset_x, width);
                let neighbour_y = wrap_coordinate(cell_y, offset_y, height);
                proof {
                    lemma_index_bounds(b.width as int, b.height as int, neighbour_x as int, neighbour_y as int);
                    assert(-1 <= offset_x <= 1 && -1 <= offset_y <= 1);
                }
                let neighbour = neighbour_y * width + neighbour_x;
                if !visited[neighbour] && life.is_alive_at(neighbour_x, neighbour_y) {
                    proof {
                        lemma_unvisited_update(visited@, neighbour as int);
                    }
                    visited.set(neighbour, true);
                    stack.push(
                        (neighbour_x, neighbour_y, unwrapped_x + offset_x, unwrapped_y + offset_y),
                    );
                }
            }
            k += 1;
        }
        proof {
            lemma_expand_progress(b, pop_visited, pop_stack, e, 0);
            assert(component@ =~= before_component.push(((e.1 * b.width + e.0) as usize, (e.2, e.3))));
        }
    }
    proof {
        assert forall|j: int| 0 <= j < component@.len() implies -coordinate_bound() <= (
        #[trigger] component_points(component@)[j]).0 <= coordinate_bound()
            && -coordinate_bound() <= component_points(component@)[j].1 <= coordinate_bound() by {
            assert(near(component@[j].1.0 as int, sx, u0 - unvisited(visited@)));
            assert(near(component@[j].1.1 as int, sy, u0 - unvisited(visited@)));
        }
    }
    component
}

fn contains_point(pattern: &Vec<(usize, usize)>, x: usize, y: usize) -> (found: bool)
    ensures
        found == upoints_of(pattern@).contains((x as int, y as int)),
{
    let mut i: usize = 0;
    while i < pattern.len()
        invariant
            i <= pattern@.len(),
            forall|k: int| 0 <= k < i ==> upoints_of(pattern@)[k] != (x as int, y as int),
        decreases pattern@.len() - i,
    {
        if pattern[i].0 == x && pattern[i].1 == y {
            assert(upoints_of(pattern@)[i as int] == (x as int, y as int));
            return true;
        }
        i += 1;
    }
    false
}

/// Whether the pattern, whose largest coordinates are `max_x` and `max_y`,
/// stands alone at the anchor: alive exactly on its cells within its
/// bounding box widened by one cell on each side.
fn is_isolated_pattern(
    life: &Life,
    anchor_x: usize,
    anchor_y: usize,
    pattern: &Vec<(usize, usize)>,
    max_x: usize,
    max_y: usize,
) -> (isolated: bool)
    requires
        life@.wf(),
        anchor_x < life@.width,
        anchor_y < life@.height,
        max_x == max_x_of(upoints_of(pattern@)),
        max_y == max_y_of(upoints_of(pattern@)),
        max_x <= 2 * crate::life::max_cells(),
        max_y <= 2 * crate::life::max_cells(),
    ensures
        isolated == isolated_at(life@, anchor_x as int, anchor_y as int, upoints_of(pattern@)),
{
    let ghost b = life@;
    let ghost pat = upoints_of(pattern@);
    proof {
        lemma_sides_within_cells(b);
    }
    let mut y: usize = 0;
    while y <= max_y + 2
        invariant
            b == life@,
            b.wf(),
            pat == upoints_of(pattern@),
            anchor_x < b.width <= b.cell_count(),
            anchor_y < b.height <= b.cell_count(),
            max_x == max_x_of(pat),
            max_y == max_y_of(pat),
            max_x <= 2 * crate::life::max_cells(),
            max_y <= 2 * crate::life::max_cells(),
            y <= max_y + 3,
            forall|xx: int, yy: int|
                0 <= xx <= max_x + 2 && 0 <= yy < y ==> #[trigger] frame_matches(
                    b,
                    anchor_x as int,
                    anchor_y as int,
                    pat,
                    xx,
                    yy,
                ),
        decreases max_y + 3 - y,
    {
        let mut x: usize = 0;
        while x <= max_x + 2
            invariant
                b == life@,
                b.wf(),
                pat == upoints_of(pattern@),
                anchor_x < b.width <= b.cell_count(),
                anchor_y < b.height <= b.cell_count(),
                max_x == max_x_of(pat),
                max_y == max_y_of(pat),
                max_x <= 2 * crate::life::max_cells(),
                max_y <= 2 * crate::life::max_cells(),
                y <= max_y + 2,
                x <= max_x + 3,
                forall|xx: int, yy: int|
                    0 <= xx <= max_x + 2 && 0 <= yy < y ==> #[trigger] frame_matches(
                        b,
                        anchor_x as int,
                        anchor_y as int,
                        pat,
                        xx,
                        yy,
                    ),
                forall|xx: int|
                    0 <= xx < x ==> #[trigger] frame_matches(
                        b,
                        anchor_x as int,
                        anchor_y as int,
                        pat,
                        xx,
                        y as int,
                    ),
            decreases max_x + 3 - x,
        {
            let expected = x >= 1 && y >= 1 && contains_point(pattern, x - 1, y - 1);
            let cell_x = wrap_coordinate(anchor_x, usize_to_isize(x) - 1, life.width());
            let cell_y = wrap_coordinate(anchor_y, usize_to_isize(y) - 1, life.height());
            proof {
                lemma_wrap_bounds(cell_x as int, b.width as int);
                lemma_wrap_bounds(cell_y as int, b.height as int);
            }
            if life.is_alive_at(cell_x, cell_y) != expected {
                assert(!frame_matches(b, anchor_x as int, anchor_y as int, pat, x as int, y as int));
                return false;
            }
            x += 1;
        }
        y += 1;
    }
    true
}

/// Marks with `kind` every cell of every isolated copy of the oriented
/// pattern `placed`, whose largest coordinates are `max_x` and `max_y`.
fn label_orientation(
    life: &Life,
    labels: &mut Vec<Option<ShapeKind>>,
    kind: ShapeKind,
    placed: &Vec<(usize, usize)>,
    max_x: usize,
    max_y: usize,
)
    requires
        life@.wf(),
        old(labels)@.len() == life@.cell_count(),
        max_x == max_x_of(upoints_of(placed@)),
        max_y == max_y_of(upoints_of(placed@)),
        within(upoints_of(placed@), 0, 2 * crate::life::max_cells()),
        max_x <= 2 * crate::life::max_cells(),
        max_y <= 2 * crate::life::max_cells(),
    ensures
        final(labels)@.len() == old(labels)@.len(),
        forall|i: int|
            0 <= i < old(labels)@.len() ==> #[trigger] final(labels)@[i] == if copy_covers(
                life@,
                upoints_of(placed@),
                i,
            ) {
                Some(kind)
            } else {
                old(labels)@[i]
            },
{
    let ghost b = life@;
    let ghost pat = upoints_of(placed@);
    let ghost initial = labels@;
    proof {
        lemma_sides_within_cells(b);
    }
    let width = life.width();
    let height = life.height();
    let mut anchor_y: usize = 0;
    while anchor_y < height
        invariant
            b == life@,
            b.wf(),
            b.width <= b.cell_count(),
            b.height <= b.cell_count(),
            width == b.width,
            height == b.height,
            pat == upoints_of(placed@),
            max_x == max_x_of(pat),
            max_y == max_y_of(pat),
            within(pat, 0, 2 * crate::life::max_cells()),
            max_x <= 2 * crate::life::max_cells(),
            max_y <= 2 * crate::life::max_cells(),
            labels@.len() == initial.len(),
            initial.len() == b.cell_count(),
            anchor_y <= height,
            forall|i: int|
                0 <= i < labels@.len() ==> #[trigger] labels@[i] == initial[i] || (labels@[i]
                    == Some(kind) && copy_covers(b, pat, i)),
            forall|ax: int, ay: int, j: int|
                0 <= ax < b.width && 0 <= ay < anchor_y && #[trigger] isolated_at(b, ax, ay, pat)
                    && 0 <= j < pat.len() ==> labels@[b.wrapped_index(ax + (#[trigger] pat[j]).0, ay + pat[j].1)]
                    == Some(kind),
        decreases height - anchor_y,
    {
        let mut anchor_x: usize = 0;
        while anchor_x < width
            invariant
                b == life@,
                b.wf(),
                b.width <= b.cell_count(),
                b.height <= b.cell_count(),
                width == b.width,
                height == b.height,
                pat == upoints_of(placed@),
                max_x == max_x_of(pat),
                max_y == max_y_of(pat),
                within(pat, 0, 2 * crate::life::max_cells()),
                max_x <= 2 * crate::life::max_cells(),
                max_y <= 2 * crate::life::max_cells(),
                labels@.len() == initial.len(),
                initial.len() == b.cell_count(),
                anchor_y < height,
                anchor_x <= width,
                forall|i: int|
                    0 <= i < labels@.len() ==> #[trigger] labels@[i] == initial[i] || (labels@[i]
                        == Some(kind) && copy_covers(b, pat, i)),
                forall|ax: int, ay: int, j: int|
                    0 <= ax < b.width && 0 <= ay < anchor_y && #[trigger] isolated_at(b, ax, ay, pat)
                        && 0 <= j < pat.len() ==> labels@[b.wrapped_index(ax + (#[trigger] pat[j]).0, ay + pat[j].1)]
                        == Some(kind),
                forall|ax: int, j: int|
                    0 <= ax < anchor_x && #[trigger] isolated_at(b, ax, anchor_y as int, pat) && 0 <= j
                        < pat.len() ==> labels@[b.wrapped_index(ax + (#[trigger] pat[j]).0, anchor_y + pat[j].1)]
                        == Some(kind),
            decreases width - anchor_x,
        {
            if is_isolated_pattern(life, anchor_x, anchor_y, placed, max_x, max_y) {
                let mut j: usize = 0;
                while j < placed.len()
                    invariant
                        b == life@,
                        b.wf(),
                        b.width <= b.cell_count(),
                        b.height <= b.cell_count(),
                        width == b.width,
                        height == b.height,
                        pat == upoints_of(placed@),
                        within(pat, 0, 2 * crate::life::max_cells()),
                        labels@.len() == initial.len(),
                        initial.len() == b.cell_count(),
                        anchor_y < height,
                        anchor_x < width,
                        isolated_at(b, anchor_x as int, anchor_y as int, pat),
                        j <= placed@.len(),
                        forall|i: int|
                            0 <= i < labels@.len() ==> #[trigger] labels@[i] == initial[i] || (
                            labels@[i] == Some(kind) && copy_covers(b, pat, i)),
                        forall|ax: int, ay: int, jj: int|
                            0 <= ax < b.width && 0 <= ay < anchor_y && #[trigger] isolated_at(b, ax, ay, pat)
                                && 0 <= jj < pat.len() ==> labels@[b.wrapped_index(ax + (#[trigger] pat[jj]).0, ay + pat[jj].1)]
                                == Some(kind),
                        forall|ax: int, jj: int|
                            0 <= ax < anchor_x && #[trigger] isolated_at(b, ax, anchor_y as int, pat) && 0
                                <= jj < pat.len() ==> labels@[b.wrapped_index(ax + (#[trigger] pat[jj]).0, anchor_y + pat[jj].1)]
                                == Some(kind),
                        forall|jj: int|
                            0 <= jj < j ==> labels@[b.wrapped_index(anchor_x + (#[trigger] pat[jj]).0, anchor_y + pat[jj].1)]
                                == Some(kind),
                    decreases placed@.len() - j,
                {
                    let (px, py) = placed[j];
                    assert(pat[j as int] == (px as int, py as int));
                    let x = wrap_coordinate(anchor_x, usize_to_isize(px), width);
                    let y = wrap_coordinate(anchor_y, usize_to_isize(py), height);
                    proof {
                        lemma_index_bounds(b.width as int, b.height as int, x as int, y as int);
                    }
                    let index = y * width + x;
                    proof {
                        assert(index == b.wrapped_index(anchor_x + pat[j as int].0, anchor_y + pat[j as int].1));
                        assert(placed_on(b, anchor_x as int, anchor_y as int, pat, index as int));
                        assert(copy_covers(b, pat, index as int));
                    }
                    let ghost before = labels@;
                    labels.set(index, Some(kind));
                    proof {
                        assert forall|ax: int, ay: int, jj: int|
                            0 <= ax < b.width && 0 <= ay < anchor_y && #[trigger] isolated_at(b, ax, ay, pat)
                                && 0 <= jj < pat.len() implies labels@[b.wrapped_index(ax + (#[trigger] pat[jj]).0, ay + pat[jj].1)]
                                == Some(kind) by {
                            lemma_wrapped_index_bounds(b, ax + pat[jj].0, ay + pat[jj].1);
                        }
                        assert forall|ax: int, jj: int|
                            0 <= ax < anchor_x && #[trigger] isolated_at(b, ax, anchor_y as int, pat) && 0
                                <= jj < pat.len() implies labels@[b.wrapped_index(ax + (#[trigger] pat[jj]).0, anchor_y + pat[jj].1)]
                                == Some(kind) by {
                            lemma_wrapped_index_bounds(b, ax + pat[jj].0, anchor_y + pat[jj].1);
                        }
                        assert forall|jj: int|
                            0 <= jj < j + 1 implies labels@[b.wrapped_index(anchor_x + (#[trigger] pat[jj]).0, anchor_y + pat[jj].1)]
                                == Some(kind) by {
                            lemma_wrapped_index_bounds(b, anchor_x + pat[jj].0, anchor_y + pat[jj].1);
                        }
                    }
                    j += 1;
                }
            }
            anchor_x += 1;
        }
        anchor_y += 1;
    }
    proof {
        assert forall|i: int| 0 <= i < initial.len() implies #[trigger] labels@[i] == if copy_covers(
            b,
            pat,
            i,
        ) {
            Some(kind)
        } else {
            initial[i]
        } by {
            if copy_covers(b, pat, i) {
                let (ax, ay) = choose|ax: int, ay: int|
                    0 <= ax < b.width && 0 <= ay < b.height && #[trigger] isolated_at(b, ax, ay, pat)
                        && placed_on(b, ax, ay, pat, i);
                let j = choose|j: int|
                    0 <= j < pat.len() && i == b.wrapped_index(ax + (#[trigger] pat[j]).0, ay + pat[j].1);
                assert(labels@[b.wrapped_index(ax + pat[j].0, ay + pat[j].1)] == Some(kind));
            }
        }
    }
}

/// The class of a component: a still life, else the structure its
/// unwrapped coordinates form, else unrecognised.
pub open spec fn component_shape(b: Board, component: Seq<Member>) -> ShapeKind {
    if still_component(b, component) {
        ShapeKind::StillLife
    } else {
        match pattern_kind(component_points(component)) {
            Some(kind) => kind,
            None => ShapeKind::Unrecognized,
        }
    }
}

/// Labels with each member of the component, in order, set to `kind`.
pub open spec fn relabel(labels: Seq<Option<ShapeKind>>, component: Seq<Member>, kind: ShapeKind) -> Seq<
    Option<ShapeKind>,
>
    decreases component.len(),
{
    if component.len() == 0 {
        labels
    } else {
        relabel(labels, component.drop_last(), kind).update(component.last().0 as int, Some(kind))
    }
}

/// Visited flags and labels after the first `count` cells, in row-major
/// order, have been examined: each live cell not yet visited starts a new
/// component, which is collected and labelled with its class.
pub open spec fn scan(b: Board, count: int) -> (Seq<bool>, Seq<Option<ShapeKind>>)
    decreases count,
{
    if count <= 0 {
        (
            Seq::new(b.cell_count() as nat, |i: int| false),
            Seq::new(b.cell_count() as nat, |i: int| None),
        )
    } else {
        let previous = scan(b, count - 1);
        let c = count - 1;
        if previous.0[c] || !b.alive[c] {
            previous
        } else {
            let found = component_from(b, previous.0, c % (b.width as int), c / (b.width as int));
            (found.0, relabel(previous.1, found.1, component_shape(b, found.1)))
        }
    }
}

/// The label of every cell: `None` for dead cells; for live cells, the
/// class of their component, except that cells of an isolated lightweight
/// spaceship are labelled as a spaceship.
pub open spec fn classification(b: Board) -> Seq<Option<ShapeKind>> {
    with_isolated_copies(
        b,
        scan(b, b.cell_count()).1,
        ShapeKind::Spaceship,
        points_of(lightweight_spaceship_cells()),
    )
}

pub proof fn lemma_index_unsplit(width: int, x: int, y: int)
    requires
        0 <= x < width,
        0 <= y,
    ensures
        (y * width + x) % width == x,
        (y * width + x) / width == y,
{
    vstd::arithmetic::div_mod::lemma_fundamental_div_mod_converse(y * width + x, width, y, x);
}

/// Whether some orientation before `count` places an isolated copy of
/// the pattern over the cell with index `i`.
pub open spec fn covered_by_orientations(b: Board, pattern: Seq<(int, int)>, i: int, count: int) -> bool {
    exists|t: int| 0 <= t < count && #[trigger] copy_covers(b, orientation(pattern, t), i)
}

/// Marks with `kind` every live cell of every isolated copy of the
/// pattern, in any of its eight orientations.
fn label_isolated_pattern(
    life: &Life,
    labels: &mut Vec<Option<ShapeKind>>,
    kind: ShapeKind,
    pattern: &Vec<(isize, isize)>,
)
    requires
        life@.wf(),
        old(labels)@.len() == life@.cell_count(),
        within(points_of(pattern@), -crate::life::max_cells(), crate::life::max_cells()),
    ensures
        final(labels)@ == with_isolated_copies(life@, old(labels)@, kind, points_of(pattern@)),
{
    let ghost b = life@;
    let ghost shape = points_of(pattern@);
    let ghost initial = labels@;
    let ghost m = crate::life::max_cells();
    let mut transform: u8 = 0;
    while transform < 8
        invariant
            b == life@,
            b.wf(),
            shape == points_of(pattern@),
            within(shape, -m, m),
            m == crate::life::max_cells(),
            labels@.len() == initial.len(),
            initial.len() == b.cell_count(),
            transform <= 8,
            forall|i: int|
                0 <= i < initial.len() ==> #[trigger] labels@[i] == if covered_by_orientations(
                    b,
                    shape,
                    i,
                    transform as int,
                ) {
                    Some(kind)
                } else {
                    initial[i]
                },
        decreases 8 - transform,
    {
        let ghost oriented = orientation(shape, transform as int);
        proof {
            lemma_transform_within(shape, transform as int, m);
            lemma_normalised_within(transform_all(shape, transform as int), m);
        }
        let mut moved: Vec<(isize, isize)> = Vec::new();
        let mut i: usize = 0;
        while i < pattern.len()
            invariant
                shape == points_of(pattern@),
                within(shape, -m, m),
                m == crate::life::max_cells(),
                i <= pattern@.len(),
                points_of(moved@) == transform_all(shape, transform as int).take(i as int),
            decreases pattern@.len() - i,
        {
            assert(shape[i as int] == point(pattern@[i as int]));
            let q = transform_point(pattern[i], transform);
            let ghost before = moved@;
            moved.push(q);
            i += 1;
            proof {
                assert(points_of(moved@) =~= points_of(before).push(point(q)));
                assert(transform_all(shape, transform as int).take(i as int) =~= transform_all(
                    shape,
                    transform as int,
                ).take(i - 1).push(point(q)));
            }
        }
        assert(transform_all(shape, transform as int).take(i as int) =~= transform_all(
            shape,
            transform as int,
        ));
        let normal = normalise(moved);
        assert(points_of(normal@) == oriented);
        let mut placed: Vec<(usize, usize)> = Vec::new();
        let mut i: usize = 0;
        while i < normal.len()
            invariant
                points_of(normal@) == oriented,
                within(oriented, 0, 2 * m),
                i <= normal@.len(),
                upoints_of(placed@) == oriented.take(i as int),
            decreases normal@.len() - i,
        {
            assert(oriented[i as int] == point(normal@[i as int]));
            let (x, y) = normal[i];
            let ghost before = placed@;
            placed.push((x as usize, y as usize));
            i += 1;
            proof {
                assert(upoints_of(placed@) =~= upoints_of(before).push((x as int, y as int)));
                assert(oriented.take(i as int) =~= oriented.take(i - 1).push((x as int, y as int)));
            }
        }
        assert(oriented.take(i as int) =~= oriented);
        let ghost pts = upoints_of(placed@);
        let mut max_x: usize = 0;
        let mut max_y: usize = 0;
        if placed.len() > 0 {
            max_x = placed[0].0;
            max_y = placed[0].1;
            assert(pts.take(1).len() == 1);
            assert(max_x_of(pts.take(1)) == pts[0].0);
            let mut i: usize = 1;
            while i < placed.len()
                invariant
                    pts == upoints_of(placed@),
                    1 <= i <= placed@.len(),
                    max_x == max_x_of(pts.take(i as int)),
                    max_y == max_y_of(pts.take(i as int)),
                decreases placed@.len() - i,
            {
                assert(pts.take(i + 1).drop_last() =~= pts.take(i as int));
                assert(pts.take(i + 1).last() == upoint(placed@[i as int]));
                if placed[i].0 > max_x {
                    max_x = placed[i].0;
                }
                if placed[i].1 > max_y {
                    max_y = placed[i].1;
                }
                i += 1;
            }
            assert(pts.take(i as int) =~= pts);
            proof {
                lemma_max_of(pts);
            }
        }
        label_orientation(life, labels, kind, &placed, max_x, max_y);
        proof {
            assert forall|i: int| 0 <= i < initial.len() implies #[trigger] labels@[i] == if covered_by_orientations(
                b,
                shape,
                i,
                transform + 1,
            ) {
                Some(kind)
            } else {
                initial[i]
            } by {
                if copy_covers(b, oriented, i) {
                    assert(covered_by_orientations(b, shape, i, transform + 1));
                } else if covered_by_orientations(b, shape, i, transform as int) {
                    let t = choose|t: int| 0 <= t < transform && #[trigger] copy_covers(b, orientation(shape, t), i);
                    assert(covered_by_orientations(b, shape, i, transform + 1));
                } else {
                    assert forall|t: int| 0 <= t < transform + 1 implies !#[trigger] copy_covers(b, orientation(shape, t), i) by {
                        if t < transform {
                        }
                    }
                }
            }
        }
        transform += 1;
    }
    assert(labels@ =~= with_isolated_copies(b, initial, kind, shape));
}

/// The structure a component's unwrapped coordinates are recognised as.
fn classify_component(component: &Vec<(usize, (isize, isize))>) -> (kind: Option<ShapeKind>)
    requires
        within(component_points(component@), -coordinate_bound(), coordinate_bound()),
    ensures
        kind == pattern_kind(component_points(component@)),
{
    let mut points: Vec<(isize, isize)> = Vec::new();
    let mut i: usize = 0;
    while i < component.len()
        invariant
            i <= component@.len(),
            points_of(points@) == component_points(component@).take(i as int),
        decreases component@.len() - i,
    {
        let ghost before = points@;
        points.push(component[i].1);
        i += 1;
        proof {
            assert(points_of(points@) =~= points_of(before).push(point(component@[i - 1].1)));
            assert(component_points(component@).take(i as int) =~= component_points(component@).take(i - 1).push(point(component@[i - 1].1)));
        }
    }
    assert(component_points(component@).take(i as int) =~= component_points(component@));
    if is_shape(&points, &blinker()) {
        Some(ShapeKind::Oscillator)
    } else if is_shape(&points, &toad()) {
        Some(ShapeKind::Oscillator)
    } else if is_shape(&points, &beacon()) {
        Some(ShapeKind::Oscillator)
    } else if is_shape(&points, &glider()) {
        Some(ShapeKind::Glider)
    } else if is_shape(&points, &lightweight_spaceship()) {
        Some(ShapeKind::Spaceship)
    } else {
        None
    }
}

/// Whether some member of the component is the cell with index `i`.
pub open spec fn member_of(found: Seq<Member>, i: int) -> bool {
    exists|j: int| 0 <= j < found.len() && (#[trigger] found[j]).0 == i
}

/// Whether some stack entry names the cell with index `i`.
pub open spec fn stacked(b: Board, stack: Seq<Entry>, i: int) -> bool {
    exists|k: int| 0 <= k < stack.len() && b.index((#[trigger] stack[k]).0 as int, stack[k].1 as int) == i
}

/// Whether the cell with index `i` was first visited by the current search.
pub open spec fn fresh(before: Seq<bool>, visited: Seq<bool>, i: int) -> bool {
    visited[i] && !before[i]
}

/// What a search maintains, relative to the visited flags `before` it
/// started from: flags are only ever set; every freshly visited cell is
/// alive and is either on the stack or already recorded; every entry on the
/// stack and every recorded member is freshly visited.
pub open spec fn search_ok(b: Board, before: Seq<bool>, visited: Seq<bool>, stack: Seq<Entry>, found: Seq<Member>) -> bool {
    &&& search_domain(b, visited)
    &&& before.len() == visited.len()
    &&& forall|i: int| 0 <= i < visited.len() && #[trigger] before[i] ==> visited[i]
    &&& forall|i: int|
        0 <= i < visited.len() && #[trigger] fresh(before, visited, i) ==> b.alive[i] && (stacked(
            b,
            stack,
            i,
        ) || member_of(found, i))
    &&& forall|k: int|
        0 <= k < stack.len() ==> (#[trigger] stack[k]).0 < b.width && stack[k].1 < b.height
            && fresh(before, visited, b.index(stack[k].0 as int, stack[k].1 as int))
    &&& forall|j: int|
        0 <= j < found.len() ==> 0 <= (#[trigger] found[j]).0 < b.cell_count() && fresh(
            before,
            visited,
            found[j].0 as int,
        )
}

pub proof fn lemma_expand_keeps(
    b: Board,
    before: Seq<bool>,
    visited: Seq<bool>,
    stack: Seq<Entry>,
    found: Seq<Member>,
    e: Entry,
    k: int,
)
    requires
        search_ok(b, before, visited, stack, found),
        0 <= k <= 9,
    ensures
        search_ok(b, before, expand(b, visited, stack, e, k).0, expand(b, visited, stack, e, k).1, found),
    decreases 9 - k,
{
    if k < 9 && k != 4 {
        let nx = wrap(e.0 + offset_x(k), b.width as int);
        let ny = wrap(e.1 + offset_y(k), b.height as int);
        let n = b.index(nx, ny);
        lemma_wrap_bounds(e.0 + offset_x(k), b.width as int);
        lemma_wrap_bounds(e.1 + offset_y(k), b.height as int);
        lemma_index_bounds(b.width as int, b.height as int, nx, ny);
        if !visited[n] && b.alive[n] {
            let entry = (nx as usize, ny as usize, (e.2 + offset_x(k)) as isize, (e.3 + offset_y(k)) as isize);
            let v2 = visited.update(n, true);
            let s2 = stack.push(entry);
            assert(b.index(s2[stack.len() as int].0 as int, s2[stack.len() as int].1 as int) == n);
            assert forall|i: int| 0 <= i < v2.len() && #[trigger] fresh(before, v2, i) implies b.alive[i]
                && (stacked(b, s2, i) || member_of(found, i)) by {
                if i == n {
                    assert(s2[stack.len() as int] == entry);
                } else {
                    assert(fresh(before, visited, i));
                    if stacked(b, stack, i) {
                        let q = choose|q: int| 0 <= q < stack.len() && b.index((#[trigger] stack[q]).0 as int, stack[q].1 as int) == i;
                        assert(s2[q] == stack[q]);
                    }
                }
            }
            assert forall|q: int| 0 <= q < s2.len() implies (#[trigger] s2[q]).0 < b.width && s2[q].1 < b.height
                && fresh(before, v2, b.index(s2[q].0 as int, s2[q].1 as int)) by {
                if q < stack.len() {
                    assert(s2[q] == stack[q]);
                    lemma_index_bounds(b.width as int, b.height as int, stack[q].0 as int, stack[q].1 as int);
                }
            }
            assert forall|j: int| 0 <= j < found.len() implies 0 <= (#[trigger] found[j]).0 < b.cell_count() && fresh(
                before,
                v2,
                found[j].0 as int,
            ) by {
            }
            lemma_expand_keeps(b, before, v2, s2, found, e, k + 1);
        } else {
            lemma_expand_keeps(b, before, visited, stack, found, e, k + 1);
        }
    } else if k == 4 {
        lemma_expand_keeps(b, before, visited, stack, found, e, k + 1);
    }
}

/// Expanding only ever sets visited flags.
pub proof fn lemma_expand_monotone(b: Board, visited: Seq<bool>, stack: Seq<Entry>, e: Entry, k: int)
    requires
        search_domain(b, visited),
        0 <= k <= 9,
    ensures
        forall|i: int| 0 <= i < visited.len() && visited[i] ==> #[trigger] expand(b, visited, stack, e, k).0[i],
    decreases 9 - k,
{
    if k < 9 && k != 4 {
        let nx = wrap(e.0 + offset_x(k), b.width as int);
        let ny = wrap(e.1 + offset_y(k), b.height as int);
        let n = b.index(nx, ny);
        lemma_wrap_bounds(e.0 + offset_x(k), b.width as int);
        lemma_wrap_bounds(e.1 + offset_y(k), b.height as int);
        lemma_index_bounds(b.width as int, b.height as int, nx, ny);
        if !visited[n] && b.alive[n] {
            let entry = (nx as usize, ny as usize, (e.2 + offset_x(k)) as isize, (e.3 + offset_y(k)) as isize);
            let v2 = visited.update(n, true);
            lemma_expand_monotone(b, v2, stack.push(entry), e, k + 1);
            assert(expand(b, visited, stack, e, k) == expand(b, v2, stack.push(entry), e, k + 1));
            assert forall|i: int| 0 <= i < visited.len() && visited[i] implies #[trigger] expand(b, visited, stack, e, k).0[i] by {
                assert(v2[i]);
                assert(expand(b, v2, stack.push(entry), e, k + 1).0[i]);
            }
        } else {
            lemma_expand_monotone(b, visited, stack, e, k + 1);
            assert(expand(b, visited, stack, e, k) == expand(b, visited, stack, e, k + 1));
        }
    } else if k == 4 {
        lemma_expand_monotone(b, visited, stack, e, k + 1);
        assert(expand(b, visited, stack, e, k) == expand(b, visited, stack, e, k + 1));
    }
}

/// What a finished search yields: the cells visited afterwards are those
/// visited before and the recorded members, and every member is a live cell
/// that was not visited before.
pub proof fn lemma_search_result(b: Board, before: Seq<bool>, visited: Seq<bool>, stack: Seq<Entry>, found: Seq<Member>)
    requires
        search_ok(b, before, visited, stack, found),
    ensures
        search(b, visited, stack, found).0.len() == visited.len(),
        forall|i: int|
            0 <= i < visited.len() ==> (#[trigger] search(b, visited, stack, found).0[i] <==> (before[i]
                || member_of(search(b, visited, stack, found).1, i))),
        forall|i: int| 0 <= i < visited.len() && visited[i] ==> #[trigger] search(b, visited, stack, found).0[i],
        forall|j: int|
            0 <= j < search(b, visited, stack, found).1.len() ==> 0 <= (#[trigger] search(
                b,
                visited,
                stack,
                found,
            ).1[j]).0 < b.cell_count() && b.alive[search(b, visited, stack, found).1[j].0 as int]
                && !before[search(b, visited, stack, found).1[j].0 as int],
    decreases 9 * unvisited(visited) + stack.len(),
{
    if stack.len() == 0 {
        assert forall|i: int| 0 <= i < visited.len() implies (#[trigger] visited[i] <==> (before[i]
            || member_of(found, i))) by {
            if member_of(found, i) {
                let j = choose|j: int| 0 <= j < found.len() && (#[trigger] found[j]).0 == i;
            }
            if visited[i] && !before[i] {
                assert(fresh(before, visited, i));
                assert(!stacked(b, stack, i));
            }
        }
        assert forall|j: int| 0 <= j < found.len() implies 0 <= (#[trigger] found[j]).0 < b.cell_count() && b.alive[found[j].0 as int]
            && !before[found[j].0 as int] by {
            assert(fresh(before, visited, found[j].0 as int));
        }
    } else {
        let e = stack.last();
        let rest = stack.drop_last();
        let found2 = found.push(((e.1 * b.width + e.0) as usize, (e.2, e.3)));
        let top = stack.len() - 1;
        assert(stack[top] == e);
        lemma_index_bounds(b.width as int, b.height as int, e.0 as int, e.1 as int);
        assert(found2[found.len() as int].0 == b.index(e.0 as int, e.1 as int));
        assert forall|i: int| 0 <= i < visited.len() && #[trigger] fresh(before, visited, i) implies b.alive[i]
            && (stacked(b, rest, i) || member_of(found2, i)) by {
            if stacked(b, stack, i) {
                let q = choose|q: int| 0 <= q < stack.len() && b.index((#[trigger] stack[q]).0 as int, stack[q].1 as int) == i;
                if q < top {
                    assert(rest[q] == stack[q]);
                } else {
                    assert(found2[found.len() as int].0 == i);
                }
            } else {
                let j = choose|j: int| 0 <= j < found.len() && (#[trigger] found[j]).0 == i;
                assert(found2[j] == found[j]);
            }
        }
        assert forall|q: int| 0 <= q < rest.len() implies (#[trigger] rest[q]).0 < b.width && rest[q].1 < b.height
            && fresh(before, visited, b.index(rest[q].0 as int, rest[q].1 as int)) by {
            assert(rest[q] == stack[q]);
        }
        assert forall|j: int| 0 <= j < found2.len() implies 0 <= (#[trigger] found2[j]).0 < b.cell_count() && fresh(
            before,
            visited,
            found2[j].0 as int,
        ) by {
            if j < found.len() {
                assert(found2[j] == found[j]);
            } else {
                assert(stack[top] == e);
            }
        }
        assert(search_ok(b, before, visited, rest, found2));
        lemma_expand_keeps(b, before, visited, rest, found2, e, 0);
        lemma_expand_progress(b, visited, rest, e, 0);
        lemma_expand_monotone(b, visited, rest, e, 0);
        let next = expand(b, visited, rest, e, 0);
        lemma_search_result(b, before, next.0, next.1, found2);
        assert(search(b, visited, stack, found) == search(b, next.0, next.1, found2));
    }
}

/// The members of a component searched from an unvisited live cell are
/// live cells that were not visited before, the start among them, and
/// afterwards exactly the cells visited before and the members are
/// visited.
pub proof fn lemma_component_from(b: Board, visited: Seq<bool>, x: int, y: int)
    requires
        search_domain(b, visited),
        0 <= x < b.width,
        0 <= y < b.height,
        !visited[b.index(x, y)],
        b.alive[b.index(x, y)],
    ensures
        component_from(b, visited, x, y).0.len() == visited.len(),
        forall|i: int|
            0 <= i < visited.len() ==> (#[trigger] component_from(b, visited, x, y).0[i] <==> (visited[i]
                || member_of(component_from(b, visited, x, y).1, i))),
        member_of(component_from(b, visited, x, y).1, b.index(x, y)),
        forall|j: int|
            0 <= j < component_from(b, visited, x, y).1.len() ==> 0 <= (#[trigger] component_from(
                b,
                visited,
                x,
                y,
            ).1[j]).0 < b.cell_count() && b.alive[component_from(b, visited, x, y).1[j].0 as int]
                && !visited[component_from(b, visited, x, y).1[j].0 as int],
{
    let start = b.index(x, y);
    lemma_index_bounds(b.width as int, b.height as int, x, y);
    let v1 = visited.update(start, true);
    let stack: Seq<Entry> = seq![(x as usize, y as usize, x as isize, y as isize)];
    let found: Seq<Member> = Seq::empty();
    assert(b.index(stack[0].0 as int, stack[0].1 as int) == start);
    assert forall|i: int| 0 <= i < v1.len() && #[trigger] fresh(visited, v1, i) implies b.alive[i]
        && (stacked(b, stack, i) || member_of(found, i)) by {
        assert(i == start);
    }
    assert(search_ok(b, visited, v1, stack, found));
    lemma_search_result(b, visited, v1, stack, found);
    let result = component_from(b, visited, x, y);
    assert(result.0[start]);
}

/// Labels after marking the members of a component: members get
/// `Some(kind)`, every other cell keeps its label.
pub proof fn lemma_relabel(labels: Seq<Option<ShapeKind>>, found: Seq<Member>, kind: ShapeKind)
    requires
        forall|j: int| 0 <= j < found.len() ==> 0 <= (#[trigger] found[j]).0 < labels.len(),
    ensures
        relabel(labels, found, kind).len() == labels.len(),
        forall|i: int|
            0 <= i < labels.len() ==> #[trigger] relabel(labels, found, kind)[i] == if member_of(found, i) {
                Some(kind)
            } else {
                labels[i]
            },
    decreases found.len(),
{
    if found.len() > 0 {
        let d = found.drop_last();
        lemma_relabel(labels, d, kind);
        assert forall|i: int| 0 <= i < labels.len() implies #[trigger] relabel(labels, found, kind)[i] == if member_of(found, i) {
            Some(kind)
        } else {
            labels[i]
        } by {
            if member_of(d, i) {
                let j = choose|j: int| 0 <= j < d.len() && (#[trigger] d[j]).0 == i;
                assert(found[j] == d[j]);
            }
            if member_of(found, i) && i != found.last().0 {
                let j = choose|j: int| 0 <= j < found.len() && (#[trigger] found[j]).0 == i;
                assert(d[j] == found[j]);
            }
            if i == found.last().0 {
                assert(found[found.len() - 1].0 == i);
            }
        }
    }
}

/// What the scan maintains: visited cells are alive, exactly the visited
/// cells are labelled, and every live cell among the first `count` has been
/// visited.
pub proof fn lemma_scan(b: Board, count: int)
    requires
        b.wf(),
        0 <= count <= b.cell_count(),
    ensures
        scan(b, count).0.len() == b.cell_count(),
        scan(b, count).1.len() == b.cell_count(),
        forall|i: int| 0 <= i < b.cell_count() && #[trigger] scan(b, count).0[i] ==> b.alive[i],
        forall|i: int|
            0 <= i < b.cell_count() ==> (#[trigger] scan(b, count).1[i] is Some <==> scan(b, count).0[i]),
        forall|i: int| 0 <= i < count && b.alive[i] ==> #[trigger] scan(b, count).0[i],
    decreases count,
{
    if count > 0 {
        lemma_scan(b, count - 1);
        let previous = scan(b, count - 1);
        let c = count - 1;
        if !(previous.0[c] || !b.alive[c]) {
            let w = b.width as int;
            lemma_index_split(c, w, b.height as int);
            let x = c % w;
            let y = c / w;
            assert(b.index(x, y) == c);
            lemma_component_from(b, previous.0, x, y);
            let found = component_from(b, previous.0, x, y);
            lemma_relabel(previous.1, found.1, component_shape(b, found.1));
            assert forall|i: int| 0 <= i < b.cell_count() implies (#[trigger] scan(b, count).1[i] is Some
                <==> scan(b, count).0[i]) by {
                if member_of(found.1, i) {
                    let j = choose|j: int| 0 <= j < found.1.len() && (#[trigger] found.1[j]).0 == i;
                }
            }
            assert forall|i: int| 0 <= i < b.cell_count() && #[trigger] scan(b, count).0[i] implies b.alive[i] by {
                if !previous.0[i] {
                    let j = choose|j: int| 0 <= j < found.1.len() && (#[trigger] found.1[j]).0 == i;
                }
            }
        }
    }
}

/// Cells of an isolated copy of a pattern are live cells.
pub proof fn lemma_isolated_copy_alive(b: Board, pattern: Seq<(int, int)>, i: int)
    requires
        b.wf(),
        within(pattern, -crate::life::max_cells(), crate::life::max_cells()),
        in_isolated_copy(b, pattern, i),
    ensures
        b.alive[i],
{
    let t = choose|t: int| 0 <= t < 8 && #[trigger] copy_covers(b, orientation(pattern, t), i);
    let o = orientation(pattern, t);
    let (ax, ay) = choose|ax: int, ay: int|
        0 <= ax < b.width && 0 <= ay < b.height && #[trigger] isolated_at(b, ax, ay, o) && placed_on(b, ax, ay, o, i);
    let j = choose|j: int| 0 <= j < o.len() && i == b.wrapped_index(ax + (#[trigger] o[j]).0, ay + o[j].1);
    lemma_transform_within(pattern, t, crate::life::max_cells());
    lemma_normalised_within(transform_all(pattern, t), crate::life::max_cells());
    lemma_max_of(o);
    let p = o[j];
    assert(o.contains(p));
    assert(frame_matches(b, ax, ay, o, p.0 + 1, p.1 + 1));
}

/// Every live cell gets a label and no dead cell does.
pub proof fn lemma_classification_labels_live_cells(b: Board)
    requires
        b.wf(),
    ensures
        classification(b).len() == b.cell_count(),
        forall|i: int| 0 <= i < b.cell_count() ==> (#[trigger] classification(b)[i] is Some <==> b.alive[i]),
{
    lemma_scan(b, b.cell_count());
    let shape = points_of(lightweight_spaceship_cells());
    assert(within(shape, -crate::life::max_cells(), crate::life::max_cells()));
    assert forall|i: int| 0 <= i < b.cell_count() implies (#[trigger] classification(b)[i] is Some <==> b.alive[i]) by {
        if in_isolated_copy(b, shape, i) {
            lemma_isolated_copy_alive(b, shape, i);
        }
    }
}

/// Index of the neighbour at position `k` of the 3x3 neighbourhood of the
/// cell with index `i`, wrapped onto the board.
pub open spec fn neighbour_index(b: Board, i: int, k: int) -> int {
    b.wrapped_index(i % (b.width as int) + offset_x(k), i / (b.width as int) + offset_y(k))
}

/// Whether the cells with indices `i` and `j` are neighbours on the wrapped
/// board.
pub open spec fn adjacent(b: Board, i: int, j: int) -> bool {
    exists|k: int| 0 <= k < 9 && k != 4 && #[trigger] neighbour_index(b, i, k) == j
}

pub proof fn lemma_unwrap_offset(x: int, d: int, m: int)
    requires
        0 <= x < m,
    ensures
        (wrap(x + d, m) - d) % m == x,
{
    let a = x + d;
    vstd::arithmetic::div_mod::lemma_fundamental_div_mod(a, m);
    let q = a / m;
    assert(wrap(a, m) - d == m * (-q) + x) by (nonlinear_arith)
        requires
            a == m * q + wrap(a, m),
            a == x + d,
    ;
    vstd::arithmetic::div_mod::lemma_mod_multiples_vanish(-q, x, m);
    vstd::arithmetic::div_mod::lemma_small_mod(x as nat, m as nat);
}

/// Neighbourhood is symmetric: the neighbour at the opposite position of
/// the neighbour at position `k` is the cell itself.
pub proof fn lemma_neighbour_symmetric(b: Board, i: int, k: int)
    requires
        b.wf(),
        0 <= i < b.cell_count(),
        0 <= k < 9,
    ensures
        0 <= neighbour_index(b, i, k) < b.cell_count(),
        neighbour_index(b, neighbour_index(b, i, k), 8 - k) == i,
{
    let w = b.width as int;
    let h = b.height as int;
    lemma_index_split(i, w, h);
    let x = i % w;
    let y = i / w;
    let nx = wrap(x + offset_x(k), w);
    let ny = wrap(y + offset_y(k), h);
    lemma_wrap_bounds(x + offset_x(k), w);
    lemma_wrap_bounds(y + offset_y(k), h);
    lemma_index_bounds(w, h, nx, ny);
    let m = neighbour_index(b, i, k);
    assert(m == ny * w + nx);
    lemma_index_unsplit(w, nx, ny);
    assert(offset_x(8 - k) == -offset_x(k));
    assert(offset_y(8 - k) == -offset_y(k));
    lemma_unwrap_offset(x, offset_x(k), w);
    lemma_unwrap_offset(y, offset_y(k), h);
    assert(y * w + x == i);
}

/// The still-life test agrees with the engine: a board all of whose live
/// cells are settled does not change in its next generation.
pub proof fn lemma_settled_board_is_still(b: Board)
    requires
        b.wf(),
        forall|i: int| 0 <= i < b.cell_count() && b.alive[i] ==> #[trigger] settled(b, i),
    ensures
        b.change_count() == 0,
{
    let w = b.width as int;
    let h = b.height as int;
    assert forall|x: int, y: int| 0 <= x < b.width && 0 <= y < b.height implies b.next_alive(x, y) == b.alive_at(x, y) by {
        let i = b.index(x, y);
        lemma_index_bounds(w, h, x, y);
        lemma_index_unsplit(w, x, y);
        lemma_wrap_bounds(x, w);
        lemma_wrap_bounds(y, h);
        assert(b.alive_at(x, y) == b.alive[i]);
        if b.alive[i] {
            assert(settled(b, i));
        } else if b.next_alive(x, y) {
            lemma_births_need_live_neighbours(b, x, y);
            let k = choose|k: int| 0 <= k < 9 && k != 4 && #[trigger] b.alive_at(x + offset_x(k), y + offset_y(k));
            let n = neighbour_index(b, i, k);
            lemma_neighbour_symmetric(b, i, k);
            assert(b.alive[n]);
            assert(settled(b, n));
            lemma_index_split(n, w, h);
            let nx = wrap(n % w + offset_x(8 - k), w);
            let ny = wrap(n / w + offset_y(8 - k), h);
            assert(no_birth_at(b, n % w, n / w, 8 - k));
            lemma_wrap_bounds(n % w + offset_x(8 - k), w);
            lemma_wrap_bounds(n / w + offset_y(8 - k), h);
            assert(b.index(nx, ny) == i);
            lemma_index_unsplit(w, nx, ny);
            assert(nx == x && ny == y);
            assert(false);
        }
    }
    lemma_change_count_zero(b);
}

/// Whether every live neighbour of every member has been visited.
pub open spec fn members_closed(b: Board, visited: Seq<bool>, found: Seq<Member>) -> bool {
    forall|j: int, k: int|
        0 <= j < found.len() && 0 <= k < 9 && k != 4 && b.alive[neighbour_index(b, found[j].0 as int, k)]
            ==> visited[#[trigger] neighbour_index(b, (#[trigger] found[j]).0 as int, k)]
}

/// After expanding positions `k..9` of `e`, each of those neighbours that
/// is alive has been visited.
pub proof fn lemma_expand_visits(b: Board, visited: Seq<bool>, stack: Seq<Entry>, e: Entry, k: int)
    requires
        search_domain(b, visited),
        0 <= k <= 9,
    ensures
        forall|kk: int|
            k <= kk < 9 && kk != 4 && b.alive[b.wrapped_index(e.0 + offset_x(kk), e.1 + offset_y(kk))]
                ==> #[trigger] expand(b, visited, stack, e, k).0[b.wrapped_index(
                e.0 + offset_x(kk),
                e.1 + offset_y(kk),
            )],
    decreases 9 - k,
{
    if k < 9 && k != 4 {
        let nx = wrap(e.0 + offset_x(k), b.width as int);
        let ny = wrap(e.1 + offset_y(k), b.height as int);
        let n = b.index(nx, ny);
        lemma_wrap_bounds(e.0 + offset_x(k), b.width as int);
        lemma_wrap_bounds(e.1 + offset_y(k), b.height as int);
        lemma_index_bounds(b.width as int, b.height as int, nx, ny);
        if !visited[n] && b.alive[n] {
            let entry = (nx as usize, ny as usize, (e.2 + offset_x(k)) as isize, (e.3 + offset_y(k)) as isize);
            let v2 = visited.update(n, true);
            lemma_expand_visits(b, v2, stack.push(entry), e, k + 1);
            lemma_expand_monotone(b, v2, stack.push(entry), e, k + 1);
            assert(expand(b, visited, stack, e, k) == expand(b, v2, stack.push(entry), e, k + 1));
            assert(expand(b, v2, stack.push(entry), e, k + 1).0[n]);
        } else {
            lemma_expand_visits(b, visited, stack, e, k + 1);
            lemma_expand_monotone(b, visited, stack, e, k + 1);
            assert(expand(b, visited, stack, e, k) == expand(b, visited, stack, e, k + 1));
        }
    } else if k == 4 {
        lemma_expand_visits(b, visited, stack, e, k + 1);
        assert(expand(b, visited, stack, e, k) == expand(b, visited, stack, e, k + 1));
    }
}

/// A finished search leaves every live neighbour of every member visited.
pub proof fn lemma_search_closed(b: Board, before: Seq<bool>, visited: Seq<bool>, stack: Seq<Entry>, found: Seq<Member>)
    requires
        search_ok(b, before, visited, stack, found),
        members_closed(b, visited, found),
    ensures
        members_closed(b, search(b, visited, stack, found).0, search(b, visited, stack, found).1),
    decreases 9 * unvisited(visited) + stack.len(),
{
    if stack.len() > 0 {
        let e = stack.last();
        let rest = stack.drop_last();
        let m = (e.1 * b.width + e.0) as usize;
        let found2 = found.push((m, (e.2, e.3)));
        let top = stack.len() - 1;
        assert(stack[top] == e);
        lemma_index_bounds(b.width as int, b.height as int, e.0 as int, e.1 as int);
        lemma_index_unsplit(b.width as int, e.0 as int, e.1 as int);
        assert forall|i: int| 0 <= i < visited.len() && #[trigger] fresh(before, visited, i) implies b.alive[i]
            && (stacked(b, rest, i) || member_of(found2, i)) by {
            if stacked(b, stack, i) {
                let q = choose|q: int| 0 <= q < stack.len() && b.index((#[trigger] stack[q]).0 as int, stack[q].1 as int) == i;
                if q < top {
                    assert(rest[q] == stack[q]);
                } else {
                    assert(found2[found.len() as int].0 == i);
                }
            } else {
                let j = choose|j: int| 0 <= j < found.len() && (#[trigger] found[j]).0 == i;
                assert(found2[j] == found[j]);
            }
        }
        assert forall|q: int| 0 <= q < rest.len() implies (#[trigger] rest[q]).0 < b.width && rest[q].1 < b.height
            && fresh(before, visited, b.index(rest[q].0 as int, rest[q].1 as int)) by {
            assert(rest[q] == stack[q]);
        }
        assert forall|j: int| 0 <= j < found2.len() implies 0 <= (#[trigger] found2[j]).0 < b.cell_count() && fresh(
            before,
            visited,
            found2[j].0 as int,
        ) by {
            if j < found.len() {
                assert(found2[j] == found[j]);
            }
        }
        lemma_expand_keeps(b, before, visited, rest, found2, e, 0);
        lemma_expand_progress(b, visited, rest, e, 0);
        lemma_expand_monotone(b, visited, rest, e, 0);
        lemma_expand_visits(b, visited, rest, e, 0);
        let next = expand(b, visited, rest, e, 0);
        assert forall|j: int, k: int|
            0 <= j < found2.len() && 0 <= k < 9 && k != 4 && b.alive[neighbour_index(b, found2[j].0 as int, k)]
                implies next.0[#[trigger] neighbour_index(b, (#[trigger] found2[j]).0 as int, k)] by {
            if j < found.len() {
                assert(found2[j] == found[j]);
                lemma_neighbour_symmetric(b, found[j].0 as int, k);
            } else {
                assert(neighbour_index(b, m as int, k) == b.wrapped_index(e.0 + offset_x(k), e.1 + offset_y(k)));
            }
        }
        lemma_search_closed(b, before, next.0, next.1, found2);
        assert(search(b, visited, stack, found) == search(b, next.0, next.1, found2));
    }
}

/// Whether the visited cells are closed under live neighbours, and live
/// neighbouring visited cells carry the same label.
pub open spec fn coherent(b: Board, visited: Seq<bool>, labels: Seq<Option<ShapeKind>>) -> bool {
    forall|i: int, k: int|
        0 <= i < b.cell_count() && 0 <= k < 9 && k != 4 && visited[i] && b.alive[neighbour_index(b, i, k)]
            ==> #[trigger] visited[neighbour_index(b, i, k)] && labels[neighbour_index(b, i, k)] == labels[i]
}

/// The scan keeps its visited cells closed under live neighbours and
/// labels live neighbouring visited cells alike.
pub proof fn lemma_scan_coherent(b: Board, count: int)
    requires
        b.wf(),
        0 <= count <= b.cell_count(),
    ensures
        coherent(b, scan(b, count).0, scan(b, count).1),
    decreases count,
{
    lemma_scan(b, count);
    if count > 0 {
        lemma_scan_coherent(b, count - 1);
        lemma_scan(b, count - 1);
        let previous = scan(b, count - 1);
        let c = count - 1;
        if !(previous.0[c] || !b.alive[c]) {
            let w = b.width as int;
            lemma_index_split(c, w, b.height as int);
            let x = c % w;
            let y = c / w;
            assert(b.index(x, y) == c);
            lemma_component_from(b, previous.0, x, y);
            let start = b.index(x, y);
            let v1 = previous.0.update(start, true);
            let stack: Seq<Entry> = seq![(x as usize, y as usize, x as isize, y as isize)];
            let empty: Seq<Member> = Seq::empty();
            assert(b.index(stack[0].0 as int, stack[0].1 as int) == start);
            assert forall|i: int| 0 <= i < v1.len() && #[trigger] fresh(previous.0, v1, i) implies b.alive[i]
                && (stacked(b, stack, i) || member_of(empty, i)) by {
                assert(i == start);
            }
            lemma_search_closed(b, previous.0, v1, stack, empty);
            let found = component_from(b, previous.0, x, y);
            let shape = component_shape(b, found.1);
            lemma_relabel(previous.1, found.1, shape);
            let now = scan(b, count);
            assert(now == (found.0, relabel(previous.1, found.1, shape)));
            assert forall|i: int, k: int|
                0 <= i < b.cell_count() && 0 <= k < 9 && k != 4 && now.0[i] && b.alive[neighbour_index(b, i, k)]
                    implies #[trigger] now.0[neighbour_index(b, i, k)] && now.1[neighbour_index(b, i, k)] == now.1[i] by {
                let n = neighbour_index(b, i, k);
                lemma_neighbour_symmetric(b, i, k);
                if previous.0[i] {
                    assert(previous.0[n]);
                    assert(!member_of(found.1, i)) by {
                        if member_of(found.1, i) {
                            let j = choose|j: int| 0 <= j < found.1.len() && (#[trigger] found.1[j]).0 == i;
                        }
                    }
                    assert(!member_of(found.1, n)) by {
                        if member_of(found.1, n) {
                            let j = choose|j: int| 0 <= j < found.1.len() && (#[trigger] found.1[j]).0 == n;
                        }
                    }
                } else {
                    let j = choose|j: int| 0 <= j < found.1.len() && (#[trigger] found.1[j]).0 == i;
                    assert(now.0[neighbour_index(b, found.1[j].0 as int, k)]);
                    if previous.0[n] {
                        lemma_neighbour_symmetric(b, n, 8 - k);
                        assert(previous.0[neighbour_index(b, n, 8 - k)]);
                        assert(false);
                    }
                    assert(member_of(found.1, n));
                }
            }
            assert(coherent(b, now.0, now.1));
        } else {
            assert(scan(b, count) == previous);
        }
    }
}

/// Live neighbouring cells belong to the same component and so carry the
/// same label, unless one of them belongs to an isolated lightweight
/// spaceship, which is labelled as such.
pub proof fn lemma_neighbours_share_labels(b: Board, i: int, j: int)
    requires
        b.wf(),
        0 <= i < b.cell_count(),
        b.alive[i],
        b.alive[j],
        adjacent(b, i, j),
    ensures
        classification(b)[i] == classification(b)[j] || in_isolated_copy(
            b,
            points_of(lightweight_spaceship_cells()),
            i,
        ) || in_isolated_copy(b, points_of(lightweight_spaceship_cells()), j),
{
    let n = b.cell_count();
    lemma_scan(b, n);
    lemma_scan_coherent(b, n);
    let k = choose|k: int| 0 <= k < 9 && k != 4 && #[trigger] neighbour_index(b, i, k) == j;
    lemma_neighbour_symmetric(b, i, k);
    assert(scan(b, n).0[neighbour_index(b, i, k)]);
}

/// Every cell of an isolated lightweight spaceship is labelled as a
/// spaceship, whichever of the eight symmetries of the square it is drawn
/// in (so a vertically travelling ship as much as a horizontal one) and
/// wherever it stands on the board.
pub proof fn lemma_isolated_spaceships_are_labelled(b: Board, t: int, ax: int, ay: int, j: int)
    requires
        b.wf(),
        0 <= t < 8,
        0 <= ax < b.width,
        0 <= ay < b.height,
        isolated_at(b, ax, ay, normalised(transform_all(points_of(lightweight_spaceship_cells()), t))),
        0 <= j < points_of(lightweight_spaceship_cells()).len(),
    ensures
        classification(b)[b.wrapped_index(
            ax + normalised(transform_all(points_of(lightweight_spaceship_cells()), t))[j].0,
            ay + normalised(transform_all(points_of(lightweight_spaceship_cells()), t))[j].1,
        )] == Some(ShapeKind::Spaceship),
{
    let shape = points_of(lightweight_spaceship_cells());
    let o = normalised(transform_all(shape, t));
    lemma_normalised_len(transform_all(shape, t));
    let i = b.wrapped_index(ax + o[j].0, ay + o[j].1);
    crate::life::lemma_wrapped_index_bounds(b, ax + o[j].0, ay + o[j].1);
    lemma_scan(b, b.cell_count());
    assert(o == orientation(shape, t));
    assert(placed_on(b, ax, ay, o, i));
    assert(copy_covers(b, orientation(shape, t), i));
    assert(in_isolated_copy(b, shape, i));
}

pub proof fn lemma_scan_still(b: Board, count: int)
    requires
        b.wf(),
        0 <= count <= b.cell_count(),
        forall|i: int| 0 <= i < b.cell_count() && b.alive[i] ==> #[trigger] settled(b, i),
    ensures
        forall|i: int|
            0 <= i < b.cell_count() && (#[trigger] scan(b, count).1[i]) is Some ==> scan(b, count).1[i]
                == Some(ShapeKind::StillLife),
    decreases count,
{
    lemma_scan(b, count);
    if count > 0 {
        lemma_scan_still(b, count - 1);
        lemma_scan(b, count - 1);
        let previous = scan(b, count - 1);
        let c = count - 1;
        if !(previous.0[c] || !b.alive[c]) {
            let w = b.width as int;
            crate::life::lemma_index_split(c, w, b.height as int);
            let x = c % w;
            let y = c / w;
            assert(b.index(x, y) == c);
            lemma_component_from(b, previous.0, x, y);
            let found = component_from(b, previous.0, x, y);
            assert forall|j: int| 0 <= j < found.1.len() implies #[trigger] settled(b, found.1[j].0 as int) by {
                assert(b.alive[found.1[j].0 as int]);
            }
            assert(still_component(b, found.1));
            lemma_relabel(previous.1, found.1, component_shape(b, found.1));
        } else {
            assert(scan(b, count) == previous);
        }
    }
}

/// On a board where every live cell survives and no dead cell is born (a
/// still board), every live cell is labelled a still life, except the cells
/// of isolated lightweight spaceships.
pub proof fn lemma_still_board_is_labelled_still(b: Board, i: int)
    requires
        b.wf(),
        forall|k: int| 0 <= k < b.cell_count() && b.alive[k] ==> #[trigger] settled(b, k),
        0 <= i < b.cell_count(),
        b.alive[i],
        !in_isolated_copy(b, points_of(lightweight_spaceship_cells()), i),
    ensures
        classification(b)[i] == Some(ShapeKind::StillLife),
{
    lemma_scan(b, b.cell_count());
    lemma_scan_still(b, b.cell_count());
    assert(scan(b, b.cell_count()).0[i]);
}

/// On a board that does not change in its next generation, every live cell
/// is settled.
pub proof fn lemma_unchanging_board_is_settled(b: Board, i: int)
    requires
        b.wf(),
        b.change_count() == 0,
        0 <= i < b.cell_count(),
        b.alive[i],
    ensures
        settled(b, i),
{
    let w = b.width as int;
    let h = b.height as int;
    lemma_change_count_zero(b);
    lemma_index_split(i, w, h);
    let x = i % w;
    let y = i / w;
    assert(b.index(x, y) == i);
    lemma_wrap_bounds(x, w);
    lemma_wrap_bounds(y, h);
    assert(b.next_alive(x, y));
    assert forall|k: int| 0 <= k < 9 && k != 4 implies #[trigger] no_birth_at(b, x, y, k) by {
        let nx = wrap(x + offset_x(k), w);
        let ny = wrap(y + offset_y(k), h);
        lemma_wrap_bounds(x + offset_x(k), w);
        lemma_wrap_bounds(y + offset_y(k), h);
        lemma_wrap_bounds(nx, w);
        lemma_wrap_bounds(ny, h);
        assert(b.next_alive(nx, ny) == b.alive_at(nx, ny));
    }
}

/// Every live cell of a board that does not change in its next generation
/// is labelled a still life, except the cells of isolated lightweight
/// spaceships.
pub proof fn lemma_unchanging_board_is_labelled_still(b: Board, i: int)
    requires
        b.wf(),
        b.change_count() == 0,
        0 <= i < b.cell_count(),
        b.alive[i],
        !in_isolated_copy(b, points_of(lightweight_spaceship_cells()), i),
    ensures
        classification(b)[i] == Some(ShapeKind::StillLife),
{
    assert forall|k: int| 0 <= k < b.cell_count() && b.alive[k] implies #[trigger] settled(b, k) by {
        lemma_unchanging_board_is_settled(b, k);
    }
    lemma_still_board_is_labelled_still(b, i);
}

/// Labels every live cell with either a recognized Life structure or a
/// coherent fallback class for its connected component.
pub fn classify(life: &Life) -> (labels: Vec<Option<ShapeKind>>)
    requires
        life@.wf(),
    ensures
        labels@ == classification(life@),
        labels@.len() == life@.cell_count(),
        forall|i: int| 0 <= i < labels@.len() ==> (#[trigger] labels@[i] is Some <==> life@.alive[i]),
{
    proof {
        lemma_classification_labels_live_cells(life@);
    }
    let ghost b = life@;
    let width = life.width();
    let height = life.height();
    let cell_count = width * height;
    let mut labels: Vec<Option<ShapeKind>> = Vec::new();
    let mut i: usize = 0;
    while i < cell_count
        invariant
            i <= cell_count,
            labels@ == Seq::new(i as nat, |k: int| None::<ShapeKind>),
        decreases cell_count - i,
    {
        labels.push(None);
        i += 1;
        assert(labels@ =~= Seq::new(i as nat, |k: int| None::<ShapeKind>));
    }
    let mut visited = vec![false; cell_count];
    assert(visited@ =~= Seq::new(b.cell_count() as nat, |k: int| false));
    assert(labels@ =~= scan(b, 0).1);
    let mut y: usize = 0;
    while y < height
        invariant
            b == life@,
            b.wf(),
            width == b.width,
            height == b.height,
            cell_count == b.cell_count(),
            y <= height,
            (visited@, labels@) == scan(b, y * width),
            visited@.len() == cell_count,
            labels@.len() == cell_count,
        decreases height - y,
    {
        let mut x: usize = 0;
        while x < width
            invariant
                b == life@,
                b.wf(),
                width == b.width,
                height == b.height,
                cell_count == b.cell_count(),
                y < height,
                x <= width,
                (visited@, labels@) == scan(b, y * width + x),
                visited@.len() == cell_count,
                labels@.len() == cell_count,
            decreases width - x,
        {
            proof {
                lemma_index_bounds(b.width as int, b.height as int, x as int, y as int);
                lemma_index_unsplit(b.width as int, x as int, y as int);
            }
            let start = y * width + x;
            if !visited[start] && life.is_alive_at(x, y) {
                let ghost before_labels = labels@;
                let component = collect_component(life, &mut visited, x, y);
                let shape = if is_still_life(life, &component) {
                    ShapeKind::StillLife
                } else {
                    match classify_component(&component) {
                        Some(kind) => kind,
                        None => ShapeKind::Unrecognized,
                    }
                };
                assert(shape == component_shape(b, component@));
                let mut k: usize = 0;
                while k < component.len()
                    invariant
                        k <= component@.len(),
                        forall|j: int| 0 <= j < component@.len() ==> (#[trigger] component@[j]).0 < cell_count,
                        labels@ == relabel(before_labels, component@.take(k as int), shape),
                        labels@.len() == cell_count,
                    decreases component@.len() - k,
                {
                    proof {
                        assert(component@.take(k + 1).drop_last() =~= component@.take(k as int));
                    }
                    labels.set(component[k].0, Some(shape));
                    k += 1;
                }
                assert(component@.take(k as int) =~= component@);
            }
            x += 1;
        }
        proof {
            assert((y + 1) * width == y * width + width) by (nonlinear_arith);
        }
        y += 1;
    }
    proof {
        vstd::arithmetic::mul::lemma_mul_is_commutative(b.width as int, b.height as int);
        vstd::arithmetic::mul::lemma_mul_nonnegative(b.width as int, b.height as int);
    }
    label_isolated_pattern(life, &mut labels, ShapeKind::Spaceship, &lightweight_spaceship());
    labels
}

} // verus!
