//! Grouping screen points into rows and run-length encoding them.
use vstd::prelude::*;

use crate::color::Color;
use crate::screen_points::OptimisedScreenPoint;
use crate::sorting::{
    SortKey,
    stable_sort,
    sort_by_key,
    sorted_by_key,
    pairwise,
    lemma_sort_contains,
    lemma_sort_sorted,
    lemma_sort_pairwise,
    lemma_push_contains,
};

verus! {

/// A pixel of the screen: column `x`, row `y` (counted from the top) and its colour.
#[derive(Clone, Copy, Debug, PartialEq, Eq, Structural)]
pub struct ScreenPoint {
    pub x: i64,
    pub y: i64,
    pub color: Color,
}

impl SortKey for ScreenPoint {
    open spec fn sort_key(&self) -> int {
        self.x as int
    }

    fn key_of(&self) -> (k: i64) {
        self.x
    }
}

impl SortKey for i64 {
    open spec fn sort_key(&self) -> int {
        *self as int
    }

    fn key_of(&self) -> (k: i64) {
        *self
    }
}

/// Some row of `rows` starts with a point of row `y`.
pub open spec fn has_row(rows: Seq<Vec<ScreenPoint>>, y: i64) -> bool {
    exists|k: int| 0 <= k < rows.len() && rows[k]@.len() > 0 && #[trigger] rows[k]@[0].y == y
}

/// The points of row `y`, in their given order.
pub open spec fn points_in_row(points: Seq<ScreenPoint>, y: i64) -> Seq<ScreenPoint> {
    points.filter(|p: ScreenPoint| p.y == y)
}

/// `s` without every point that equals the point just before it.
pub open spec fn drop_repeats(s: Seq<ScreenPoint>) -> Seq<ScreenPoint>
    decreases s.len(),
{
    if s.len() <= 1 {
        s
    } else if s[s.len() - 2] == s.last() {
        drop_repeats(s.drop_last())
    } else {
        drop_repeats(s.drop_last()).push(s.last())
    }
}

/// Row `y` as `sort_screen_points` gives it: its points sorted by column (stably), without
/// repeated neighbours.
pub open spec fn screen_row(points: Seq<ScreenPoint>, y: i64) -> Seq<ScreenPoint> {
    drop_repeats(stable_sort(points_in_row(points, y)))
}

proof fn lemma_drop_repeats_first(s: Seq<ScreenPoint>)
    requires
        s.len() > 0,
    ensures
        drop_repeats(s).len() > 0,
        drop_repeats(s)[0] == s[0],
    decreases s.len(),
{
    if s.len() > 1 {
        lemma_drop_repeats_first(s.drop_last());
    }
}

proof fn lemma_drop_repeats_contains(s: Seq<ScreenPoint>, x: ScreenPoint)
    ensures
        drop_repeats(s).contains(x) <==> s.contains(x),
    decreases s.len(),
{
    if s.len() > 1 {
        lemma_drop_repeats_contains(s.drop_last(), x);
        crate::sorting::lemma_drop_last_contains(s, x);
        lemma_push_contains(drop_repeats(s.drop_last()), s.last(), x);
        if s[s.len() - 2] == s.last() && x == s.last() {
            assert(s.drop_last()[s.len() - 2] == x);
        }
    }
}

proof fn lemma_points_in_row_contains(points: Seq<ScreenPoint>, y: i64, x: ScreenPoint)
    ensures
        points_in_row(points, y).contains(x) <==> (points.contains(x) && x.y == y),
    decreases points.len(),
{
    let f = |p: ScreenPoint| p.y == y;
    reveal(Seq::filter);
    if points.len() > 0 {
        lemma_points_in_row_contains(points.drop_last(), y, x);
        crate::sorting::lemma_drop_last_contains(points, x);
        assert(points.filter(f) == if f(points.last()) {
            points.drop_last().filter(f).push(points.last())
        } else {
            points.drop_last().filter(f)
        });
        lemma_push_contains(points.drop_last().filter(f), points.last(), x);
    }
}

/// The points of `screen_row(points, y)` are the points of `points` in row `y`.
pub proof fn lemma_screen_row_contains(points: Seq<ScreenPoint>, y: i64, x: ScreenPoint)
    ensures
        screen_row(points, y).contains(x) <==> (points.contains(x) && x.y == y),
{
    lemma_points_in_row_contains(points, y, x);
    lemma_sort_contains(points_in_row(points, y));
    lemma_drop_repeats_contains(stable_sort(points_in_row(points, y)), x);
}

fn copy_points_of_row(points: &Vec<ScreenPoint>, y: i64) -> (r: Vec<ScreenPoint>)
    ensures
        r@ == points_in_row(points@, y),
{
    let mut r: Vec<ScreenPoint> = Vec::new();
    let mut i: usize = 0;
    while i < points.len()
        invariant
            i <= points.len(),
            r@ == points_in_row(points@.take(i as int), y),
        decreases points.len() - i,
    {
        let p = points[i];
        proof {
            assert(points@.take(i as int + 1) =~= points@.take(i as int).push(p));
            points@.take(i as int).lemma_filter_push(p, |q: ScreenPoint| q.y == y);
        }
        if p.y == y {
            r.push(p);
        }
        i = i + 1;
    }
    assert(points@.take(points.len() as int) =~= points@);
    r
}

fn drop_repeated_points(s: Vec<ScreenPoint>) -> (r: Vec<ScreenPoint>)
    ensures
        r@ == drop_repeats(s@),
{
    let mut r: Vec<ScreenPoint> = Vec::new();
    let mut i: usize = 0;
    while i < s.len()
        invariant
            i <= s.len(),
            r@ == drop_repeats(s@.take(i as int)),
        decreases s.len() - i,
    {
        let ghost t = s@.take(i as int + 1);
        proof {
            assert(t.drop_last() =~= s@.take(i as int));
        }
        if i == 0 || s[i - 1] != s[i] {
            r.push(s[i]);
            proof {
                if i == 0 {
                    assert(t =~= seq![s@[0]]);
                    assert(r@ =~= t);
                }
            }
        }
        i = i + 1;
    }
    assert(s@.take(s.len() as int) =~= s@);
    r
}

/// The distinct rows of the points, each once, in the order of their first point.
fn distinct_rows(points: &Vec<ScreenPoint>) -> (ys: Vec<i64>)
    ensures
        pairwise(ys@, |a: i64, b: i64| a != b),
        forall|i: int| 0 <= i < points.len() ==> ys@.contains(#[trigger] points@[i].y),
        forall|y: i64| ys@.contains(y) ==> exists|i: int| 0 <= i < points.len() && points@[i].y == y,
{
    let mut ys: Vec<i64> = Vec::new();
    let mut i: usize = 0;
    while i < points.len()
        invariant
            i <= points.len(),
            pairwise(ys@, |a: i64, b: i64| a != b),
            forall|k: int| 0 <= k < i ==> ys@.contains(#[trigger] points@[k].y),
            forall|y: i64| ys@.contains(y) ==> exists|k: int| 0 <= k < i && points@[k].y == y,
        decreases points.len() - i,
    {
        let y = points[i].y;
        let mut found = false;
        let mut j: usize = 0;
        while j < ys.len()
            invariant
                j <= ys.len(),
                found <==> exists|m: int| 0 <= m < j && ys@[m] == y,
            decreases ys.len() - j,
        {
            if ys[j] == y {
                found = true;
            }
            j = j + 1;
        }
        let ghost before = ys@;
        if !found {
            ys.push(y);
            proof {
                assert forall|a: int, b: int| 0 <= a < ys@.len() && 0 <= b < ys@.len() && a != b implies ys@[a] != ys@[b] by {
                    if a < before.len() && b < before.len() {
                        assert((|a: i64, b: i64| a != b)(before[a], before[b]));
                    }
                }
            }
        }
        proof {
            assert forall|k: int| 0 <= k < i + 1 implies ys@.contains(#[trigger] points@[k].y) by {
                if k < i {
                    lemma_push_contains(before, y, points@[k].y);
                } else {
                    lemma_push_contains(before, y, y);
                }
            }
            assert forall|z: i64| ys@.contains(z) implies exists|k: int| 0 <= k < i + 1 && points@[k].y == z by {
                lemma_push_contains(before, y, z);
                if z == y {
                    assert(points@[i as int].y == z);
                }
            }
        }
        i = i + 1;
    }
    ys
}

/// Groups the points into rows: one row for each `y` that occurs, in increasing order of `y`;
/// within a row the points are sorted by column, keeping the given order of points in the same
/// column, and a point equal to the one before it is left out.
pub fn sort_screen_points(input_list: Vec<ScreenPoint>) -> (rows: Vec<Vec<ScreenPoint>>)
    ensures
        forall|k: int| 0 <= k < rows.len() ==> #[trigger] rows@[k]@.len() > 0,
        forall|k: int|
            0 <= k < rows.len() ==> #[trigger] rows@[k]@ == screen_row(input_list@, rows@[k]@[0].y),
        forall|k: int, m: int| 0 <= k < m < rows.len() ==> rows@[k]@[0].y < rows@[m]@[0].y,
        forall|i: int| 0 <= i < input_list.len() ==> has_row(rows@, #[trigger] input_list@[i].y),
{
    let ys = distinct_rows(&input_list);
    let ghost unsorted = ys@;
    let ys = sort_by_key(ys);
    proof {
        lemma_sort_contains(unsorted);
        lemma_sort_sorted(unsorted);
        lemma_sort_pairwise(unsorted, |a: i64, b: i64| a != b);
        assert forall|k: int, m: int| 0 <= k < m < ys.len() implies ys@[k] < ys@[m] by {
            assert(ys@[k].sort_key() <= ys@[m].sort_key());
            assert((|a: i64, b: i64| a != b)(ys@[k], ys@[m]));
        }
    }
    let mut rows: Vec<Vec<ScreenPoint>> = Vec::new();
    let mut k: usize = 0;
    while k < ys.len()
        invariant
            k <= ys.len(),
            rows.len() == k,
            forall|a: int, b: int| 0 <= a < b < ys.len() ==> ys@[a] < ys@[b],
            forall|y: i64| ys@.contains(y) ==> exists|i: int| 0 <= i < input_list.len() && input_list@[i].y == y,
            forall|j: int|
                0 <= j < k ==> #[trigger] rows@[j]@.len() > 0 && rows@[j]@[0].y == ys@[j]
                    && rows@[j]@ == screen_row(input_list@, ys@[j]),
        decreases ys.len() - k,
    {
        let y = ys[k];
        let in_row = copy_points_of_row(&input_list, y);
        let sorted_row = sort_by_key(in_row);
        let row = drop_repeated_points(sorted_row);
        proof {
            assert(ys@.contains(y)) by {
                assert(ys@[k as int] == y);
            }
            let i = choose|i: int| 0 <= i < input_list.len() && input_list@[i].y == y;
            assert(input_list@.contains(input_list@[i]));
            lemma_screen_row_contains(input_list@, y, input_list@[i]);
            assert(row@.contains(input_list@[i]));
            lemma_screen_row_contains(input_list@, y, row@[0]);
            assert(row@.contains(row@[0]));
        }
        rows.push(row);
        k = k + 1;
    }
    proof {
        assert forall|i: int| 0 <= i < input_list.len() implies has_row(rows@, #[trigger] input_list@[i].y) by {
            assert(unsorted.contains(input_list@[i].y));
            assert(ys@.contains(input_list@[i].y));
            let k = choose|k: int| 0 <= k < ys@.len() && ys@[k] == input_list@[i].y;
            assert(rows@[k]@.len() > 0);
            assert(rows@[k]@[0].y == ys@[k]);
        }
        assert forall|k: int, m: int| 0 <= k < m < rows.len() implies rows@[k]@[0].y < rows@[m]@[0].y by {
            assert(rows@[k]@.len() > 0);
            assert(rows@[m]@.len() > 0);
        }
    }
    rows
}

/// The runs of neighbouring points of one colour along a row: each run is its first column,
/// its colour and its length. A point extends the last run when it lies just right of it and
/// has its colour.
pub open spec fn pixel_runs(s: Seq<ScreenPoint>) -> Seq<(int, Color, int)>
    decreases s.len(),
{
    if s.len() == 0 {
        Seq::empty()
    } else {
        let r = pixel_runs(s.drop_last());
        let p = s.last();
        if r.len() > 0 && p.x == r.last().0 + r.last().2 && p.color == r.last().1 {
            r.update(r.len() - 1, (r.last().0, r.last().1, r.last().2 + 1))
        } else {
            r.push((p.x as int, p.color, 1int))
        }
    }
}

/// A run as the renderer stores it, its column and length as `u32`.
pub open spec fn run_to_point(r: (int, Color, int)) -> OptimisedScreenPoint {
    OptimisedScreenPoint { color: r.1, occurence_length: r.2 as u32, x: r.0 as u32 }
}

/// A row of points, run-length encoded.
pub open spec fn encode_row(s: Seq<ScreenPoint>) -> Seq<OptimisedScreenPoint> {
    pixel_runs(s).map_values(|r: (int, Color, int)| run_to_point(r))
}

/// The run covers column `x` with colour `c`.
pub open spec fn run_covers(r: (int, Color, int), x: int, c: Color) -> bool {
    r.0 <= x < r.0 + r.2 && r.1 == c
}

/// Some run covers column `x` with colour `c`.
pub open spec fn runs_cover(runs: Seq<(int, Color, int)>, x: int, c: Color) -> bool {
    exists|k: int| 0 <= k < runs.len() && #[trigger] run_covers(runs[k], x, c)
}

/// The row has a point at column `x` with colour `c`.
pub open spec fn row_has(row: Seq<ScreenPoint>, x: int, c: Color) -> bool {
    exists|i: int| 0 <= i < row.len() && #[trigger] row[i].x == x && row[i].color == c
}

/// The run-length encoding loses and invents nothing: some run covers column `x` with colour
/// `c` exactly when the row has a point at column `x` with colour `c`; and no run is empty.
pub proof fn lemma_runs_cover_points(row: Seq<ScreenPoint>)
    ensures
        forall|k: int| 0 <= k < pixel_runs(row).len() ==> #[trigger] pixel_runs(row)[k].2 >= 1,
        forall|x: int, c: Color| #[trigger] runs_cover(pixel_runs(row), x, c) <==> row_has(row, x, c),
    decreases row.len(),
{
    if row.len() > 0 {
        let s = row.drop_last();
        let r = pixel_runs(s);
        let p = row.last();
        lemma_runs_cover_points(s);
        let res = pixel_runs(row);
        assert forall|k: int| 0 <= k < res.len() implies #[trigger] res[k].2 >= 1 by {
            if k < r.len() {
                assert(r[k].2 >= 1);
            }
        }
        assert forall|x: int, c: Color| #[trigger] runs_cover(res, x, c) <==> row_has(row, x, c) by {
            assert(runs_cover(r, x, c) <==> row_has(s, x, c));
            if exists|k: int| 0 <= k < res.len() && #[trigger] run_covers(res[k], x, c) {
                let k = choose|k: int| 0 <= k < res.len() && #[trigger] run_covers(res[k], x, c);
                if k < r.len() && (k != r.len() - 1 || !(r.len() > 0 && p.x == r.last().0 + r.last().2 && p.color == r.last().1)) {
                    assert(run_covers(r[k], x, c));
                    let i = choose|i: int| 0 <= i < s.len() && #[trigger] s[i].x == x && s[i].color == c;
                    assert(row[i] == s[i]);
                } else if k < r.len() {
                    if x < r[k].0 + r[k].2 {
                        assert(run_covers(r[k], x, c));
                        let i = choose|i: int| 0 <= i < s.len() && #[trigger] s[i].x == x && s[i].color == c;
                        assert(row[i] == s[i]);
                    } else {
                        assert(row[row.len() - 1].x == x);
                    }
                } else {
                    assert(row[row.len() - 1].x == x);
                }
            }
            if exists|i: int| 0 <= i < row.len() && #[trigger] row[i].x == x && row[i].color == c {
                let i = choose|i: int| 0 <= i < row.len() && #[trigger] row[i].x == x && row[i].color == c;
                if i < s.len() {
                    assert(s[i] == row[i]);
                    assert(s[i].x == x);
                    let k = choose|k: int| 0 <= k < r.len() && #[trigger] run_covers(r[k], x, c);
                    if r.len() > 0 && p.x == r.last().0 + r.last().2 && p.color == r.last().1 && k == r.len() - 1 {
                        assert(run_covers(res[k], x, c));
                    } else {
                        assert(res[k] == r[k]);
                        assert(run_covers(res[k], x, c));
                    }
                } else {
                    if r.len() > 0 && p.x == r.last().0 + r.last().2 && p.color == r.last().1 {
                        assert(run_covers(res[r.len() - 1], x, c));
                    } else {
                        assert(run_covers(res[r.len() as int], x, c));
                    }
                }
            }
        }
    }
}

/// Every point of the row lies on a screen of the given size (row 0 excluded).
pub open spec fn row_fits(row: Seq<ScreenPoint>, screen_height: i64, screen_width: i64) -> bool {
    forall|i: int|
        0 <= i < row.len() ==> row[i].x < screen_width && row[i].y < screen_height && row[i].y > 0
}

/// Row `r` of `optimise_screen_point_collection`: the encoded points of screen row `r + 1`
/// when that row has points and all of them lie on the screen, else nothing.
pub open spec fn optimised_row(
    points: Seq<ScreenPoint>,
    screen_height: i64,
    screen_width: i64,
    r: int,
) -> Seq<OptimisedScreenPoint> {
    let row = screen_row(points, (r + 1) as i64);
    if row.len() > 0 && row_fits(row, screen_height, screen_width) {
        encode_row(row)
    } else {
        Seq::empty()
    }
}

fn encode_points(row: &Vec<ScreenPoint>) -> (runs: Vec<OptimisedScreenPoint>)
    requires
        0 < row.len() <= i64::MAX,
        forall|i: int| 0 <= i < row.len() ==> #[trigger] row@[i].x < i64::MAX,
    ensures
        runs@ == encode_row(row@),
{
    let mut runs: Vec<OptimisedScreenPoint> = Vec::new();
    let mut start: i64 = row[0].x;
    let mut color: Color = row[0].color;
    let mut streak: i64 = 1;
    let ghost mut gr: Seq<(int, Color, int)> = pixel_runs(row@.take(1));
    proof {
        assert(row@.take(1).drop_last() =~= Seq::<ScreenPoint>::empty());
        assert(pixel_runs(Seq::<ScreenPoint>::empty()) =~= Seq::<(int, Color, int)>::empty());
        assert(row@.take(1).last() == row@[0]);
        assert(gr =~= seq![(start as int, color, 1int)]);
        assert(runs@ =~= gr.drop_last().map_values(|r: (int, Color, int)| run_to_point(r)));
    }
    let mut i: usize = 1;
    while i < row.len()
        invariant
            1 <= i <= row.len(),
            row.len() <= i64::MAX,
            forall|k: int| 0 <= k < row.len() ==> #[trigger] row@[k].x < i64::MAX,
            gr == pixel_runs(row@.take(i as int)),
            gr.len() > 0,
            gr.last() == (start as int, color, streak as int),
            runs@ == gr.drop_last().map_values(|r: (int, Color, int)| run_to_point(r)),
            start + streak - 1 == row@[i - 1].x,
            1 <= streak <= i,
        decreases row.len() - i,
    {
        let p = row[i];
        proof {
            assert(row@.take(i as int + 1).drop_last() =~= row@.take(i as int));
            assert(row@.take(i as int + 1).last() == p);
        }
        if p.x == start + streak && p.color == color {
            streak = streak + 1;
            proof {
                let ng = gr.update(gr.len() - 1, (start as int, color, streak as int));
                assert(ng.drop_last() =~= gr.drop_last());
                gr = ng;
            }
        } else {
            let ghost old_gr = gr;
            runs.push(OptimisedScreenPoint::new(color, streak as u32, start as u32));
            start = p.x;
            color = p.color;
            streak = 1;
            proof {
                gr = old_gr.push((p.x as int, p.color, 1int));
                assert(gr.drop_last() =~= old_gr);
                assert(old_gr =~= old_gr.drop_last().push(old_gr.last()));
                assert(runs@ =~= gr.drop_last().map_values(|r: (int, Color, int)| run_to_point(r)));
            }
        }
        i = i + 1;
    }
    let ghost old_gr = gr;
    runs.push(OptimisedScreenPoint::new(color, streak as u32, start as u32));
    proof {
        assert(row@.take(row.len() as int) =~= row@);
        assert(old_gr =~= old_gr.drop_last().push(old_gr.last()));
        assert(runs@ =~= old_gr.map_values(|r: (int, Color, int)| run_to_point(r)));
    }
    runs
}

fn row_is_on_screen(row: &Vec<ScreenPoint>, screen_height: i64, screen_width: i64) -> (fits: bool)
    ensures
        fits == row_fits(row@, screen_height, screen_width),
{
    let mut i: usize = 0;
    while i < row.len()
        invariant
            i <= row.len(),
            row_fits(row@.take(i as int), screen_height, screen_width),
        decreases row.len() - i,
    {
        let p = row[i];
        if !(p.x < screen_width && p.y < screen_height && p.y > 0) {
            assert(!row_fits(row@, screen_height, screen_width)) by {
                assert(row@[i as int] == p);
            }
            return false;
        }
        i = i + 1;
        assert(row_fits(row@.take(i as int), screen_height, screen_width)) by {
            assert forall|k: int| 0 <= k < i implies row@.take(i as int)[k] == row@[k] by {}
        }
    }
    assert(row@.take(row.len() as int) =~= row@);
    true
}

proof fn lemma_drop_repeats_len(s: Seq<ScreenPoint>)
    ensures
        drop_repeats(s).len() <= s.len(),
    decreases s.len(),
{
    if s.len() > 1 {
        lemma_drop_repeats_len(s.drop_last());
    }
}

/// A row never has more points than the whole set.
pub proof fn lemma_screen_row_len(points: Seq<ScreenPoint>, y: i64)
    ensures
        screen_row(points, y).len() <= points.len(),
{
    broadcast use Seq::lemma_filter_len;
    lemma_sort_contains(points_in_row(points, y));
    lemma_drop_repeats_len(stable_sort(points_in_row(points, y)));
}

proof fn lemma_missing_row_empty(points: Seq<ScreenPoint>, y: i64)
    requires
        forall|i: int| 0 <= i < points.len() ==> points[i].y != y,
    ensures
        screen_row(points, y).len() == 0,
{
    if screen_row(points, y).len() > 0 {
        let x = screen_row(points, y)[0];
        assert(screen_row(points, y).contains(x));
        lemma_screen_row_contains(points, y, x);
        let i = choose|i: int| 0 <= i < points.len() && points[i] == x;
        assert(points[i].y == y);
    }
}

/// A screen row that no kept row of `sorted` reaches has no runs.
proof fn lemma_gap_row_empty(
    points: Seq<ScreenPoint>,
    sorted: Seq<Vec<ScreenPoint>>,
    screen_height: i64,
    screen_width: i64,
    k: int,
    recent_y: i64,
    r: int,
)
    requires
        0 <= k <= sorted.len(),
        recent_y <= r < i64::MAX,
        forall|j: int| 0 <= j < sorted.len() ==> #[trigger] sorted[j]@.len() > 0,
        forall|j: int| 0 <= j < sorted.len() ==> #[trigger] sorted[j]@ == screen_row(points, sorted[j]@[0].y),
        forall|i: int| 0 <= i < points.len() ==> has_row(sorted, #[trigger] points[i].y),
        forall|j: int|
            0 <= j < k && row_fits(#[trigger] sorted[j]@, screen_height, screen_width)
                ==> sorted[j]@[0].y <= recent_y,
        forall|j: int| k <= j < sorted.len() ==> r + 1 < #[trigger] sorted[j]@[0].y,
    ensures
        optimised_row(points, screen_height, screen_width, r) == Seq::<OptimisedScreenPoint>::empty(),
{
    let y = (r + 1) as i64;
    if exists|i: int| 0 <= i < points.len() && points[i].y == y {
        let i = choose|i: int| 0 <= i < points.len() && points[i].y == y;
        assert(has_row(sorted, points[i].y));
        let j = choose|j: int|
            0 <= j < sorted.len() && sorted[j]@.len() > 0 && #[trigger] sorted[j]@[0].y == points[i].y;
        assert(j < k);
        assert(!row_fits(sorted[j]@, screen_height, screen_width));
        assert(screen_row(points, y) == sorted[j]@);
    } else {
        lemma_missing_row_empty(points, y);
    }
}

impl OptimisedScreenPoint {
    /// Run-length encodes a set of screen points into one list of runs per screen row.
    ///
    /// The points are grouped as `sort_screen_points` does; a row is kept only when all its
    /// points lie on a screen of the given size, with row 0 excluded. The result has
    /// `screen_height` entries; entry `r` holds the runs of screen row `r + 1` (see
    /// `optimised_row`). A screen whose height or width is below 1 is refused.
    pub fn optimise_screen_point_collection(
        screen_point_collection: Vec<ScreenPoint>,
        screen_height: i64,
        screen_width: i64,
    ) -> (res: Result<Vec<Vec<OptimisedScreenPoint>>, String>)
        requires
            screen_height <= usize::MAX,
            screen_point_collection.len() <= i64::MAX,
        ensures
            res is Err <==> (screen_height < 1 || screen_width < 1),
            res matches Err(m) ==> m@
                == "optimisation of screen points failed because of an inapropiate screen height or width"@,
            res matches Ok(rows) ==> rows.len() == screen_height && forall|r: int|
                0 <= r < rows.len() ==> #[trigger] rows@[r]@ == optimised_row(
                    screen_point_collection@,
                    screen_height,
                    screen_width,
                    r,
                ),
    {
        let ghost points = screen_point_collection@;
        let sorted = sort_screen_points(screen_point_collection);
        if screen_height < 1 || screen_width < 1 {
            return Err(
                String::from_str(
                    "optimisation of screen points failed because of an inapropiate screen height or width",
                ),
            );
        }
        let mut output: Vec<Vec<OptimisedScreenPoint>> = Vec::new();
        let mut recent_y: i64 = 0;
        let mut k: usize = 0;
        while k < sorted.len()
            invariant
                k <= sorted.len(),
                points.len() <= i64::MAX,
                1 <= screen_height <= usize::MAX,
                1 <= screen_width,
                0 <= recent_y < screen_height,
                output.len() == recent_y,
                forall|j: int| 0 <= j < sorted.len() ==> #[trigger] sorted@[j]@.len() > 0,
                forall|j: int|
                    0 <= j < sorted.len() ==> #[trigger] sorted@[j]@ == screen_row(points, sorted@[j]@[0].y),
                forall|a: int, b: int| 0 <= a < b < sorted.len() ==> sorted@[a]@[0].y < sorted@[b]@[0].y,
                forall|i: int| 0 <= i < points.len() ==> has_row(sorted@, #[trigger] points[i].y),
                recent_y == 0 || exists|j: int| 0 <= j < k && #[trigger] sorted@[j]@[0].y == recent_y,
                forall|j: int|
                    0 <= j < k && row_fits(#[trigger] sorted@[j]@, screen_height, screen_width)
                        ==> sorted@[j]@[0].y <= recent_y,
                forall|r: int|
                    0 <= r < output.len() ==> #[trigger] output@[r]@ == optimised_row(
                        points,
                        screen_height,
                        screen_width,
                        r,
                    ),
            decreases sorted.len() - k,
        {
            let fits = row_is_on_screen(&sorted[k], screen_height, screen_width);
            if fits {
                let current_y = sorted[k][0].y;
                proof {
                    assert(sorted@[k as int]@.len() > 0);
                    assert(row_fits(sorted@[k as int]@, screen_height, screen_width));
                    assert(sorted@[k as int]@[0] == sorted@[k as int]@[0]);
                    assert forall|j: int| k <= j < sorted.len() implies current_y <= #[trigger] sorted@[j]@[0].y by {
                        if j > k {
                            assert(sorted@[k as int]@[0].y < sorted@[j]@[0].y);
                        }
                    }
                    if recent_y != 0 {
                        let j = choose|j: int| 0 <= j < k && #[trigger] sorted@[j]@[0].y == recent_y;
                        assert(sorted@[j]@[0].y < sorted@[k as int]@[0].y);
                    }
                }
                while (output.len() as i64) < current_y - 1
                    invariant
                        recent_y <= output.len() <= current_y - 1,
                        current_y < screen_height,
                        screen_height <= usize::MAX,
                        forall|j: int| 0 <= j < sorted.len() ==> #[trigger] sorted@[j]@.len() > 0,
                        forall|j: int|
                            0 <= j < sorted.len() ==> #[trigger] sorted@[j]@ == screen_row(points, sorted@[j]@[0].y),
                        forall|a: int, b: int| 0 <= a < b < sorted.len() ==> sorted@[a]@[0].y < sorted@[b]@[0].y,
                        forall|i: int| 0 <= i < points.len() ==> has_row(sorted@, #[trigger] points[i].y),
                        forall|j: int|
                            0 <= j < k && row_fits(#[trigger] sorted@[j]@, screen_height, screen_width)
                                ==> sorted@[j]@[0].y <= recent_y,
                        k < sorted.len(),
                        points.len() <= i64::MAX,
                        row_fits(sorted@[k as int]@, screen_height, screen_width),
                        sorted@[k as int]@[0].y == current_y,
                        forall|j: int| k <= j < sorted.len() ==> current_y <= #[trigger] sorted@[j]@[0].y,
                        forall|r: int|
                            0 <= r < output.len() ==> #[trigger] output@[r]@ == optimised_row(
                                points,
                                screen_height,
                                screen_width,
                                r,
                            ),
                    decreases current_y - output.len(),
                {
                    proof {
                        lemma_gap_row_empty(points, sorted@, screen_height, screen_width, k as int, recent_y, output.len() as int);
                    }
                    output.push(Vec::new());
                }
                proof {
                    assert(sorted@[k as int]@ == screen_row(points, current_y));
                    assert(((current_y - 1) + 1) as i64 == current_y);
                    lemma_screen_row_len(points, current_y);
                }
                let encoded = encode_points(&sorted[k]);
                let ghost before = output@;
                output.push(encoded);
                recent_y = current_y;
                proof {
                    assert forall|r: int| 0 <= r < output.len() implies #[trigger] output@[r]@ == optimised_row(
                        points, screen_height, screen_width, r) by {
                        if r < before.len() {
                            assert(output@[r] == before[r]);
                        }
                    }
                    assert(sorted@[k as int]@[0].y == recent_y);
                }
            }
            k = k + 1;
        }
        while (output.len() as i64) < screen_height
            invariant
                recent_y <= output.len() <= screen_height,
                screen_height <= usize::MAX,
                forall|j: int| 0 <= j < sorted.len() ==> #[trigger] sorted@[j]@.len() > 0,
                forall|j: int|
                    0 <= j < sorted.len() ==> #[trigger] sorted@[j]@ == screen_row(points, sorted@[j]@[0].y),
                forall|i: int| 0 <= i < points.len() ==> has_row(sorted@, #[trigger] points[i].y),
                forall|j: int|
                    0 <= j < sorted.len() && row_fits(#[trigger] sorted@[j]@, screen_height, screen_width)
                        ==> sorted@[j]@[0].y <= recent_y,
                forall|r: int|
                    0 <= r < output.len() ==> #[trigger] output@[r]@ == optimised_row(
                        points,
                        screen_height,
                        screen_width,
                        r,
                    ),
            decreases screen_height - output.len(),
        {
            proof {
                lemma_gap_row_empty(points, sorted@, screen_height, screen_width, sorted.len() as int, recent_y, output.len() as int);
            }
            output.push(Vec::new());
        }
        Ok(output)
    }
}


/// The point lies on a screen of the given resolution, counting columns and rows from 1.
pub open spec fn on_screen(p: ScreenPoint, x_resolution: u32, y_resolution: u32) -> bool {
    0 < p.x <= x_resolution && 0 < p.y <= y_resolution
}

/// Keeps the points that lie on the screen (see `on_screen`), in their order.
pub fn keep_on_screen(points: Vec<ScreenPoint>, x_resolution: u32, y_resolution: u32) -> (kept: Vec<
    ScreenPoint,
>)
    ensures
        kept@ == points@.filter(|p: ScreenPoint| on_screen(p, x_resolution, y_resolution)),
{
    let mut kept: Vec<ScreenPoint> = Vec::new();
    let mut i: usize = 0;
    proof {
        reveal(Seq::filter);
    }
    assert(points@.take(0) =~= Seq::<ScreenPoint>::empty());
    while i < points.len()
        invariant
            i <= points.len(),
            kept@ == points@.take(i as int).filter(
                |p: ScreenPoint| on_screen(p, x_resolution, y_resolution),
            ),
        decreases points.len() - i,
    {
        let p = points[i];
        proof {
            assert(points@.take(i as int + 1) =~= points@.take(i as int).push(p));
            points@.take(i as int).lemma_filter_push(
                p,
                |p: ScreenPoint| on_screen(p, x_resolution, y_resolution),
            );
        }
        if p.x > 0 && p.x <= x_resolution as i64 && p.y > 0 && p.y <= y_resolution as i64 {
            kept.push(p);
        }
        i = i + 1;
    }
    assert(points@.take(points.len() as int) =~= points@);
    kept
}


proof fn lemma_drop_repeats_sorted(s: Seq<ScreenPoint>)
    requires
        sorted_by_key(s),
    ensures
        sorted_by_key(drop_repeats(s)),
    decreases s.len(),
{
    if s.len() > 1 {
        let init = s.drop_last();
        assert(sorted_by_key(init));
        lemma_drop_repeats_sorted(init);
        let d = drop_repeats(init);
        if s[s.len() - 2] != s.last() {
            assert forall|i: int, j: int| 0 <= i <= j < d.push(s.last()).len() implies d.push(
                s.last(),
            )[i].sort_key() <= d.push(s.last())[j].sort_key() by {
                if j == d.len() && i < j {
                    lemma_drop_repeats_contains(init, d[i]);
                    assert(d.contains(d[i]));
                    let k = choose|k: int| 0 <= k < init.len() && init[k] == d[i];
                    assert(s[k] == d[i]);
                }
            }
        }
    }
}

proof fn lemma_pixel_runs_ordered(s: Seq<ScreenPoint>)
    requires
        sorted_by_key(s),
    ensures
        forall|a: int, b: int|
            0 <= a <= b < pixel_runs(s).len() ==> #[trigger] pixel_runs(s)[a].0 <= #[trigger] pixel_runs(s)[b].0,
        s.len() > 0 ==> forall|a: int|
            0 <= a < pixel_runs(s).len() ==> s[0].x <= #[trigger] pixel_runs(s)[a].0 <= s.last().x,
    decreases s.len(),
{
    if s.len() > 0 {
        let init = s.drop_last();
        assert(sorted_by_key(init));
        lemma_pixel_runs_ordered(init);
        let r = pixel_runs(init);
        let p = s.last();
        let runs = pixel_runs(s);
        if init.len() > 0 {
            assert(init[0] == s[0]);
            assert(init.last() == s[s.len() - 2]);
            assert(s[s.len() - 2].sort_key() <= s[s.len() - 1].sort_key());
            assert(s[0].sort_key() <= s[s.len() - 1].sort_key());
        }
        if r.len() > 0 && p.x == r.last().0 + r.last().2 && p.color == r.last().1 {
            assert(runs == r.update(r.len() - 1, (r.last().0, r.last().1, r.last().2 + 1)));
            assert forall|a: int| 0 <= a < runs.len() implies #[trigger] runs[a].0 == r[a].0 by {}
        } else {
            assert(runs == r.push((p.x as int, p.color, 1int)));
            assert forall|a: int| 0 <= a < r.len() implies #[trigger] runs[a].0 == r[a].0 by {}
            assert forall|a: int| 0 <= a < r.len() implies r[a].0 <= p.x by {
                assert(init.len() > 0);
                assert(s[0].x <= r[a].0 <= init.last().x);
            }
        }
    }
}

/// The runs of a row of the optimised layer start in columns that never decrease and lie on
/// the screen, when the screen is at most `u32::MAX` columns wide and no point has a negative
/// column.
pub(crate) proof fn lemma_optimised_row_ordered(
    points: Seq<ScreenPoint>,
    screen_height: i64,
    screen_width: i64,
    r: int,
)
    requires
        screen_width <= u32::MAX,
        forall|i: int| 0 <= i < points.len() ==> #[trigger] points[i].x >= 0,
    ensures
        forall|a: int, b: int|
            0 <= a <= b < optimised_row(points, screen_height, screen_width, r).len() ==> #[trigger] optimised_row(
                points,
                screen_height,
                screen_width,
                r,
            )[a].x <= #[trigger] optimised_row(points, screen_height, screen_width, r)[b].x,
        forall|a: int|
            0 <= a < optimised_row(points, screen_height, screen_width, r).len() ==> #[trigger] optimised_row(
                points,
                screen_height,
                screen_width,
                r,
            )[a].x < screen_width,
{
    let row = screen_row(points, (r + 1) as i64);
    if row.len() > 0 && row_fits(row, screen_height, screen_width) {
        lemma_sort_sorted(points_in_row(points, (r + 1) as i64));
        lemma_drop_repeats_sorted(stable_sort(points_in_row(points, (r + 1) as i64)));
        lemma_pixel_runs_ordered(row);
        assert(row.contains(row[0]));
        lemma_screen_row_contains(points, (r + 1) as i64, row[0]);
        let k = choose|k: int| 0 <= k < points.len() && points[k] == row[0];
        assert(points[k].x >= 0);
        assert(row.last() == row[row.len() - 1]);
        let runs = pixel_runs(row);
        let e = optimised_row(points, screen_height, screen_width, r);
        assert(e == encode_row(row));
        assert forall|a: int| 0 <= a < e.len() implies #[trigger] e[a].x == runs[a].0 by {
            assert(row[0].x <= runs[a].0 <= row.last().x);
        }
    }
}

} // verus!
