//! The integer side of triangle drawing: filling outlines, tagging runs with a triangle, the
//! vertex index of a mesh and the faces of a sphere.
use vstd::prelude::*;

use crate::color::Color;
use crate::screen_points::{OptimisedScreenPoint, ShadingOptimisedScreenPoints};
use crate::rows::{ScreenPoint, optimised_row, lemma_optimised_row_ordered};

verus! {

/// The outline runs of a row that pair up as left and right bounds: with an odd number of
/// runs (three or more) the second run is dropped.
pub open spec fn paired_bounds(row: Seq<OptimisedScreenPoint>) -> Seq<OptimisedScreenPoint> {
    if row.len() % 2 != 0 {
        row.remove(1)
    } else {
        row
    }
}

/// A row of a filled triangle: a row with one outline run is kept; otherwise each pair of
/// bounds becomes one run of `color` from the first bound's column to the second's.
pub open spec fn filled_row(row: Seq<OptimisedScreenPoint>, color: Color) -> Seq<OptimisedScreenPoint> {
    if row.len() == 1 {
        row
    } else {
        let b = paired_bounds(row);
        Seq::new(
            b.len() / 2,
            |k: int|
                OptimisedScreenPoint {
                    color,
                    occurence_length: (b[2 * k + 1].x - b[2 * k].x + 1) as u32,
                    x: b[2 * k].x,
                },
        )
    }
}

/// Each pair of bounds of the row runs from left to right and its length fits in `u32`.
pub open spec fn can_fill_row(row: Seq<OptimisedScreenPoint>) -> bool {
    row.len() != 1 ==> {
        let b = paired_bounds(row);
        forall|k: int|
            0 <= 2 * k && 2 * k + 1 < b.len() ==> b[2 * k].x <= #[trigger] b[2 * k + 1].x && b[2 * k
                + 1].x - b[2 * k].x + 1 <= u32::MAX
    }
}

fn fill_row(line: Vec<OptimisedScreenPoint>, color: Color) -> (filled: Vec<OptimisedScreenPoint>)
    requires
        can_fill_row(line@),
    ensures
        filled@ == filled_row(line@, color),
{
    let ghost orig = line@;
    let mut line = line;
    let mut filled_line: Vec<OptimisedScreenPoint> = Vec::new();
    if line.len() == 1 {
        filled_line.push(line[0]);
        assert(filled_line@ =~= line@);
        return filled_line;
    }
    if line.len() % 2 != 0 {
        line.remove(1);
    }
    let ghost b = line@;
    assert(b == paired_bounds(orig));
    let mut index: usize = 1;
    while index < line.len()
        invariant
            b == line@,
            b.len() % 2 == 0,
            index % 2 == 1,
            1 <= index <= b.len() + 1,
            filled_line.len() == index / 2,
            forall|k: int|
                0 <= 2 * k && 2 * k + 1 < b.len() ==> b[2 * k].x <= #[trigger] b[2 * k + 1].x && b[2 * k
                    + 1].x - b[2 * k].x + 1 <= u32::MAX,
            forall|k: int|
                0 <= k < filled_line.len() ==> #[trigger] filled_line@[k] == (OptimisedScreenPoint {
                    color,
                    occurence_length: (b[2 * k + 1].x - b[2 * k].x + 1) as u32,
                    x: b[2 * k].x,
                }),
        decreases line.len() + 1 - index,
    {
        let pixel = line[index];
        let recent_pixel = line[index - 1];
        let ghost k = (index / 2) as int;
        assert(2 * k + 1 == index && 2 * k == index - 1);
        filled_line.push(OptimisedScreenPoint::new(color, pixel.x - recent_pixel.x + 1, recent_pixel.x));
        index = index + 2;
    }
    assert(filled_line@ =~= filled_row(orig, color));
    filled_line
}

/// Fills the outline of a drawn triangle row by row (see `filled_row`).
pub fn fill_rows(rows: Vec<Vec<OptimisedScreenPoint>>, color: Color) -> (filled: Vec<
    Vec<OptimisedScreenPoint>,
>)
    requires
        forall|i: int| 0 <= i < rows.len() ==> can_fill_row(#[trigger] rows@[i]@),
    ensures
        filled.len() == rows.len(),
        forall|i: int| 0 <= i < rows.len() ==> #[trigger] filled@[i]@ == filled_row(rows@[i]@, color),
{
    let ghost orig = rows@;
    let mut rows = rows;
    let mut reversed: Vec<Vec<OptimisedScreenPoint>> = Vec::new();
    while rows.len() > 0
        invariant
            rows@ + reversed@.reverse() == orig,
        decreases rows.len(),
    {
        let row = rows.pop().unwrap();
        proof {
            assert(rows@.push(row) + reversed@.reverse() =~= rows@ + reversed@.push(row).reverse());
        }
        reversed.push(row);
    }
    assert(reversed@.reverse() =~= orig);
    let mut filled: Vec<Vec<OptimisedScreenPoint>> = Vec::new();
    while reversed.len() > 0
        invariant
            filled@.len() + reversed@.len() == orig.len(),
            reversed@.reverse() == orig.skip(filled@.len() as int),
            forall|i: int| 0 <= i < orig.len() ==> can_fill_row(#[trigger] orig[i]@),
            forall|i: int| 0 <= i < filled.len() ==> #[trigger] filled@[i]@ == filled_row(orig[i]@, color),
        decreases reversed.len(),
    {
        let ghost done = filled@.len() as int;
        let row = reversed.pop().unwrap();
        proof {
            assert(orig.skip(done)[0] == row) by {
                assert(reversed@.push(row).reverse()[0] == row);
            }
            assert(reversed@.reverse() =~= orig.skip(done + 1)) by {
                assert(orig.skip(done + 1) =~= orig.skip(done).drop_first());
                assert(reversed@.push(row).reverse().drop_first() =~= reversed@.reverse());
            }
            assert(orig[done] == row);
        }
        let filled_row = fill_row(row, color);
        filled.push(filled_row);
    }
    filled
}

fn can_fill_one(row: &Vec<OptimisedScreenPoint>) -> (ok: bool)
    ensures
        ok == can_fill_row(row@),
{
    let n = row.len();
    if n == 1 {
        return true;
    }
    let odd = n % 2 != 0;
    let ghost b = paired_bounds(row@);
    let pairs = if odd {
        (n - 1) / 2
    } else {
        n / 2
    };
    assert(b.len() == 2 * pairs);
    assert forall|m: int| 0 <= m < b.len() implies #[trigger] b[m] == row@[if odd && m >= 1 {
        m + 1
    } else {
        m
    }] by {}
    let mut k: usize = 0;
    while k < pairs
        invariant
            n == row.len(),
            n != 1,
            b == paired_bounds(row@),
            b.len() == 2 * pairs,
            odd == (n % 2 != 0),
            k <= pairs,
            forall|m: int| 0 <= m < b.len() ==> #[trigger] b[m] == row@[if odd && m >= 1 {
                m + 1
            } else {
                m
            }],
            forall|j: int|
                0 <= 2 * j && 2 * j + 1 < 2 * k ==> b[2 * j].x <= #[trigger] b[2 * j + 1].x && b[2 * j
                    + 1].x - b[2 * j].x + 1 <= u32::MAX,
        decreases pairs - k,
    {
        let left = if odd && k > 0 {
            row[2 * k + 1]
        } else {
            row[2 * k]
        };
        let right = if odd {
            row[2 * k + 2]
        } else {
            row[2 * k + 1]
        };
        assert(left == b[2 * k as int]);
        assert(right == b[2 * k as int + 1]);
        if left.x > right.x || right.x - left.x == u32::MAX {
            return false;
        }
        k = k + 1;
    }
    true
}

/// Whether every row can be filled (see `can_fill_row`).
pub fn can_fill(rows: &Vec<Vec<OptimisedScreenPoint>>) -> (ok: bool)
    ensures
        ok == forall|i: int| 0 <= i < rows.len() ==> can_fill_row(#[trigger] rows@[i]@),
{
    let mut i: usize = 0;
    while i < rows.len()
        invariant
            i <= rows.len(),
            forall|j: int| 0 <= j < i ==> can_fill_row(#[trigger] rows@[j]@),
        decreases rows.len() - i,
    {
        if !can_fill_one(&rows[i]) {
            return false;
        }
        i = i + 1;
    }
    true
}

/// Tags every run of the rows with a shading signature, keeping its extent.
pub fn with_shading_signature(rows: &Vec<Vec<OptimisedScreenPoint>>, shading_index: u32) -> (res: Vec<
    Vec<ShadingOptimisedScreenPoints>,
>)
    ensures
        res.len() == rows.len(),
        forall|i: int|
            0 <= i < rows.len() ==> (#[trigger] res@[i]@).len() == rows@[i]@.len() && forall|j: int|
                0 <= j < rows@[i]@.len() ==> #[trigger] res@[i]@[j] == (ShadingOptimisedScreenPoints {
                    shading_signature: shading_index,
                    occurence_length: rows@[i]@[j].occurence_length,
                    x: rows@[i]@[j].x,
                }),
{
    let mut result: Vec<Vec<ShadingOptimisedScreenPoints>> = Vec::new();
    let mut i: usize = 0;
    while i < rows.len()
        invariant
            i <= rows.len(),
            result.len() == i,
            forall|a: int|
                0 <= a < i ==> (#[trigger] result@[a]@).len() == rows@[a]@.len() && forall|j: int|
                    0 <= j < rows@[a]@.len() ==> #[trigger] result@[a]@[j] == (ShadingOptimisedScreenPoints {
                        shading_signature: shading_index,
                        occurence_length: rows@[a]@[j].occurence_length,
                        x: rows@[a]@[j].x,
                    }),
        decreases rows.len() - i,
    {
        let line = &rows[i];
        let mut converted_line: Vec<ShadingOptimisedScreenPoints> = Vec::new();
        let mut j: usize = 0;
        while j < line.len()
            invariant
                j <= line.len(),
                converted_line.len() == j,
                forall|b: int|
                    0 <= b < j ==> #[trigger] converted_line@[b] == (ShadingOptimisedScreenPoints {
                        shading_signature: shading_index,
                        occurence_length: line@[b].occurence_length,
                        x: line@[b].x,
                    }),
            decreases line.len() - j,
        {
            converted_line.push(ShadingOptimisedScreenPoints::new_from_optimised(line[j], shading_index));
            j = j + 1;
        }
        result.push(converted_line);
        i = i + 1;
    }
    result
}

/// Stands for a triangle corner when corners are compared: two corners are the same corner
/// exactly when their keys are equal.
#[derive(Clone, Copy, Debug, PartialEq, Eq, Structural)]
pub struct CornerKey {
    pub position_x: u32,
    pub position_y: u32,
    pub position_z: u32,
    pub normal_x: u32,
    pub normal_y: u32,
    pub normal_z: u32,
    pub texture_x: u32,
    pub texture_y: u32,
    pub unique: u64,
}

/// Checks the corners of a new triangle: there must be three, and no two of them may be the
/// same corner.
pub fn check_triangle_corners(keys: &Vec<CornerKey>) -> (res: Result<(), String>)
    ensures
        keys.len() != 3 ==> (res matches Err(m) && m@ == "to few or to many corners to make Triangle :("@),
        keys.len() == 3 ==> (res is Err <==> exists|i: int, j: int|
            0 <= i < 3 && 0 <= j < 3 && i != j && keys@[i] == keys@[j]),
        keys.len() == 3 && res is Err ==> (res matches Err(m) && m@ == "Not all corners are unique :("@),
{
    if keys.len() != 3 {
        return Err(String::from_str("to few or to many corners to make Triangle :("));
    }
    let mut i: usize = 0;
    while i < 3
        invariant
            keys.len() == 3,
            i <= 3,
            forall|a: int, b: int| 0 <= a < i && 0 <= b < 3 && a != b ==> keys@[a] != keys@[b],
        decreases 3 - i,
    {
        let mut counter: usize = 0;
        let mut j: usize = 0;
        let ghost mut witness: int = -1;
        while j < 3
            invariant
                keys.len() == 3,
                i < 3,
                j <= 3,
                counter <= j,
                counter >= (if j > i { 1int } else { 0int }),
                counter > (if j > i { 1int } else { 0int }) ==> 0 <= witness < 3 && witness != i
                    && keys@[i as int] == keys@[witness],
                counter == (if j > i { 1int } else { 0int }) ==> forall|b: int|
                    0 <= b < j && b != i ==> keys@[i as int] != keys@[b],
            decreases 3 - j,
        {
            if keys[i] == keys[j] {
                counter = counter + 1;
                proof {
                    if j != i {
                        witness = j as int;
                    }
                }
            }
            j = j + 1;
        }
        if counter > 1 {
            return Err(String::from_str("Not all corners are unique :("));
        }
        i = i + 1;
    }
    Ok(())
}

/// The distinct keys of `keys`, each where it first occurs.
pub open spec fn distinct_keys(keys: Seq<CornerKey>) -> Seq<CornerKey>
    decreases keys.len(),
{
    if keys.len() == 0 {
        Seq::empty()
    } else if distinct_keys(keys.drop_last()).contains(keys.last()) {
        distinct_keys(keys.drop_last())
    } else {
        distinct_keys(keys.drop_last()).push(keys.last())
    }
}

/// The position of the first occurrence of `k` in `s` (`s.len()` when there is none).
pub open spec fn position_of(s: Seq<CornerKey>, k: CornerKey) -> int
    decreases s.len(),
{
    if s.len() == 0 {
        0
    } else if s[0] == k {
        0
    } else {
        1 + position_of(s.drop_first(), k)
    }
}

proof fn lemma_position_of(s: Seq<CornerKey>, k: CornerKey)
    ensures
        0 <= position_of(s, k) <= s.len(),
        position_of(s, k) < s.len() <==> s.contains(k),
        position_of(s, k) < s.len() ==> s[position_of(s, k)] == k,
        forall|j: int| 0 <= j < position_of(s, k) ==> s[j] != k,
    decreases s.len(),
{
    if s.len() > 0 && s[0] != k {
        lemma_position_of(s.drop_first(), k);
        assert forall|j: int| 0 <= j < position_of(s, k) implies s[j] != k by {
            if j > 0 {
                assert(s[j] == s.drop_first()[j - 1]);
            }
        }
        if s.contains(k) {
            let j = choose|j: int| 0 <= j < s.len() && s[j] == k;
            assert(s.drop_first()[j - 1] == k);
        }
        if s.drop_first().contains(k) {
            let j = choose|j: int| 0 <= j < s.drop_first().len() && s.drop_first()[j] == k;
            assert(s[j + 1] == k);
        }
    } else if s.len() > 0 {
        assert(s.contains(k)) by {
            assert(s[0] == k);
        }
    }
}

proof fn lemma_position_of_push(s: Seq<CornerKey>, e: CornerKey, k: CornerKey)
    requires
        s.contains(k),
    ensures
        position_of(s.push(e), k) == position_of(s, k),
    decreases s.len(),
{
    if s[0] != k {
        let j = choose|j: int| 0 <= j < s.len() && s[j] == k;
        assert(s.drop_first()[j - 1] == k);
        lemma_position_of_push(s.drop_first(), e, k);
        assert(s.push(e).drop_first() =~= s.drop_first().push(e));
    }
}

/// Numbers the corners of a mesh as a vertex list with an index list: the vertex list holds
/// each distinct corner once, in order of first occurrence, and every corner gets the
/// position of its corner in that list. Returns the input positions of the listed corners
/// and the index of every corner.
pub fn index_corners(keys: &Vec<CornerKey>) -> (res: (Vec<usize>, Vec<u32>))
    ensures
        res.0.len() == distinct_keys(keys@).len(),
        forall|k: int|
            0 <= k < res.0.len() ==> #[trigger] res.0@[k] < keys.len() && keys@[res.0@[k] as int]
                == distinct_keys(keys@)[k] && forall|j: int|
                0 <= j < res.0@[k] ==> keys@[j] != distinct_keys(keys@)[k],
        res.1.len() == keys.len(),
        forall|i: int|
            0 <= i < keys.len() ==> #[trigger] res.1@[i] == position_of(
                distinct_keys(keys@),
                keys@[i],
            ) as u32,
{
    let mut firsts: Vec<usize> = Vec::new();
    let mut indexes: Vec<u32> = Vec::new();
    let ghost mut listed: Seq<CornerKey> = Seq::empty();
    let mut i: usize = 0;
    while i < keys.len()
        invariant
            i <= keys.len(),
            listed == distinct_keys(keys@.take(i as int)),
            firsts.len() == listed.len(),
            forall|k: int|
                0 <= k < firsts.len() ==> #[trigger] firsts@[k] < i && keys@[firsts@[k] as int]
                    == listed[k] && forall|j: int| 0 <= j < firsts@[k] ==> keys@[j] != listed[k],
            forall|j: int| 0 <= j < i ==> listed.contains(#[trigger] keys@[j]),
            indexes.len() == i,
            forall|a: int|
                0 <= a < i ==> #[trigger] indexes@[a] == position_of(listed, keys@[a]) as u32,
        decreases keys.len() - i,
    {
        let key = keys[i];
        let mut found: Option<usize> = None;
        let mut inner_index: usize = 0;
        while inner_index < firsts.len()
            invariant
                inner_index <= firsts.len(),
                i < keys.len(),
                firsts.len() == listed.len(),
                forall|k: int|
                    0 <= k < firsts.len() ==> #[trigger] firsts@[k] < i && keys@[firsts@[k] as int]
                        == listed[k],
                found is None ==> forall|k: int| 0 <= k < inner_index ==> listed[k] != key,
                found matches Some(f) ==> f < firsts.len() && listed[f as int] == key && forall|k: int|
                    0 <= k < f ==> listed[k] != key,
            decreases firsts.len() - inner_index,
        {
            if found.is_none() && keys[firsts[inner_index]] == key {
                found = Some(inner_index);
            }
            inner_index = inner_index + 1;
        }
        let ghost before = listed;
        proof {
            assert(keys@.take(i as int + 1).drop_last() =~= keys@.take(i as int));
            assert(keys@.take(i as int + 1).last() == key);
            lemma_position_of(before, key);
        }
        match found {
            Some(f) => {
                proof {
                    assert(before.contains(key)) by {
                        assert(before[f as int] == key);
                    }
                    if position_of(before, key) < f {
                        assert(before[position_of(before, key)] == key);
                    }
                }
                indexes.push(f as u32);
            },
            None => {
                proof {
                    if before.contains(key) {
                        let k = choose|k: int| 0 <= k < before.len() && before[k] == key;
                        assert(before[k] != key);
                    }
                    listed = before.push(key);
                    assert forall|a: int| 0 <= a < i implies #[trigger] indexes@[a] == position_of(
                        listed,
                        keys@[a],
                    ) as u32 by {
                        lemma_position_of_push(before, key, keys@[a]);
                    }
                    lemma_position_of(listed, key);
                    assert(listed[before.len() as int] == key);
                    assert(position_of(listed, key) == before.len()) by {
                        if position_of(listed, key) < before.len() {
                            assert(before[position_of(listed, key)] == key);
                            assert(before.contains(key));
                        }
                    }
                    assert forall|j: int| 0 <= j < i implies keys@[j] != key by {
                        assert(before.contains(keys@[j]));
                    }
                }
                indexes.push(firsts.len() as u32);
                firsts.push(i);
            },
        }
        proof {
            assert forall|j: int| 0 <= j < i + 1 implies listed.contains(#[trigger] keys@[j]) by {
                if j < i {
                    lemma_push_contains_key(before, key, keys@[j]);
                } else {
                    lemma_push_contains_key(before, key, key);
                }
            }
        }
        i = i + 1;
    }
    assert(keys@.take(keys.len() as int) =~= keys@);
    (firsts, indexes)
}

proof fn lemma_push_contains_key(s: Seq<CornerKey>, e: CornerKey, x: CornerKey)
    ensures
        s.contains(x) ==> s.push(e).contains(x),
        s.push(e).contains(e),
{
    crate::sorting::lemma_push_contains(s, e, x);
    crate::sorting::lemma_push_contains(s, e, e);
}

/// The number of neighbouring pairs among `y_layers` layers.
pub open spec fn layer_pairs(y_layers: int) -> int {
    if y_layers > 0 {
        y_layers - 1
    } else {
        0
    }
}

/// A corner of a sphere mesh: the layer and the position of a vertex in its layer.
pub type SphereVertex = (u32, u32);

/// Face `k` of a sphere with `x_layers` vertices per layer. Each pair of neighbouring layers
/// `i`, `i + 1` gives `2 * x_layers` faces: for each vertex `v` first the face
/// (`i`:`v`, `i + 1`:`v`, `i`:`v + 1`), then, after all of those, the face
/// (`i + 1`:`v`, `i`:`v + 1`, `i + 1`:`v + 1`), with `v + 1` wrapping round to 0.
pub open spec fn sphere_face(x_layers: int, k: int) -> [SphereVertex; 3] {
    let i = k / (2 * x_layers);
    let pass = (k / x_layers) % 2;
    let v = k % x_layers;
    let w = (v + 1) % x_layers;
    if pass == 0 {
        [(i as u32, v as u32), ((i + 1) as u32, v as u32), (i as u32, w as u32)]
    } else {
        [((i + 1) as u32, v as u32), (i as u32, w as u32), ((i + 1) as u32, w as u32)]
    }
}

proof fn lemma_face_index(n: int, i: int, p: int, v: int)
    requires
        n > 0,
        i >= 0,
        0 <= p < 2,
        0 <= v < n,
    ensures
        ((2 * i + p) * n + v) / (2 * n) == i,
        (((2 * i + p) * n + v) / n) % 2 == p,
        ((2 * i + p) * n + v) % n == v,
{
    let k = (2 * i + p) * n + v;
    assert(k == i * (2 * n) + (p * n + v)) by (nonlinear_arith)
        requires
            k == (2 * i + p) * n + v,
    ;
    assert(0 <= p * n + v < 2 * n) by (nonlinear_arith)
        requires
            0 <= p < 2,
            0 <= v < n,
    ;
    vstd::arithmetic::div_mod::lemma_fundamental_div_mod_converse(k, 2 * n, i, p * n + v);
    assert(k == (2 * i + p) * n + v);
    vstd::arithmetic::div_mod::lemma_fundamental_div_mod_converse(k, n, 2 * i + p, v);
    vstd::arithmetic::div_mod::lemma_fundamental_div_mod_converse(2 * i + p, 2, i, p);
}

/// The faces of a sphere mesh of `y_layers` layers of `x_layers` vertices, each face given by
/// its three vertices (see `sphere_face`).
pub fn sphere_faces(x_layers: u32, y_layers: u32) -> (faces: Vec<[SphereVertex; 3]>)
    requires
        2 * x_layers * layer_pairs(y_layers as int) <= usize::MAX,
    ensures
        faces.len() == 2 * x_layers * layer_pairs(y_layers as int),
        forall|k: int| 0 <= k < faces.len() ==> #[trigger] faces@[k] == sphere_face(x_layers as int, k),
{
    let mut faces: Vec<[SphereVertex; 3]> = Vec::new();
    let pairs: u32 = if y_layers > 0 {
        y_layers - 1
    } else {
        0
    };
    let n = x_layers;
    let mut i: u32 = 0;
    while i < pairs
        invariant
            pairs == layer_pairs(y_layers as int),
            n == x_layers,
            2 * n * pairs <= usize::MAX,
            i <= pairs,
            faces.len() == 2 * n * i,
            forall|k: int| 0 <= k < faces.len() ==> #[trigger] faces@[k] == sphere_face(n as int, k),
        decreases pairs - i,
    {
        let mut pass: u32 = 0;
        assert(2 * n * i == (2 * i + pass) * n) by (nonlinear_arith)
            requires
                pass == 0,
        ;
        while pass < 2
            invariant
                pairs == layer_pairs(y_layers as int),
                n == x_layers,
                2 * n * pairs <= usize::MAX,
                i < pairs,
                pass <= 2,
                faces.len() == (2 * i + pass) * n,
                forall|k: int| 0 <= k < faces.len() ==> #[trigger] faces@[k] == sphere_face(n as int, k),
            decreases 2 - pass,
        {
            let mut v: u32 = 0;
            while v < n
                invariant
                    pairs == layer_pairs(y_layers as int),
                    n == x_layers,
                    2 * n * pairs <= usize::MAX,
                    i < pairs,
                    pass < 2,
                    v <= n,
                    faces.len() == (2 * i + pass) * n + v,
                    forall|k: int| 0 <= k < faces.len() ==> #[trigger] faces@[k] == sphere_face(n as int, k),
                decreases n - v,
            {
                proof {
                    lemma_face_index(n as int, i as int, pass as int, v as int);
                    assert((2 * i + pass) * n + v < 2 * n * pairs) by (nonlinear_arith)
                        requires
                            i < pairs,
                            pass < 2,
                            v < n,
                    ;
                }
                let w: u32 = if v + 1 < n {
                    v + 1
                } else {
                    0
                };
                let face = if pass == 0 {
                    [(i, v), (i + 1, v), (i, w)]
                } else {
                    [(i + 1, v), (i, w), (i + 1, w)]
                };
                proof {
                    if v + 1 < n {
                        vstd::arithmetic::div_mod::lemma_small_mod((v + 1) as nat, n as nat);
                    } else {
                        vstd::arithmetic::div_mod::lemma_mod_self_0(n as int);
                    }
                }
                faces.push(face);
                v = v + 1;
            }
            pass = pass + 1;
            proof {
                assert((2 * i + (pass - 1)) * n + n == (2 * i + pass) * n) by (nonlinear_arith);
            }
        }
        i = i + 1;
        proof {
            assert((2 * (i - 1) + 2) * n == 2 * n * i) by (nonlinear_arith);
        }
    }
    faces
}

/// The list of distinct corners holds every corner of the mesh, each once, and nothing else.
pub proof fn lemma_distinct_keys(keys: Seq<CornerKey>)
    ensures
        forall|i: int| 0 <= i < keys.len() ==> distinct_keys(keys).contains(#[trigger] keys[i]),
        forall|x: CornerKey| distinct_keys(keys).contains(x) ==> keys.contains(x),
        forall|a: int, b: int|
            0 <= a < b < distinct_keys(keys).len() ==> distinct_keys(keys)[a] != distinct_keys(keys)[b],
    decreases keys.len(),
{
    if keys.len() > 0 {
        let t = keys.drop_last();
        let d = distinct_keys(t);
        lemma_distinct_keys(t);
        assert forall|i: int| 0 <= i < keys.len() implies distinct_keys(keys).contains(#[trigger] keys[i]) by {
            if i < t.len() {
                assert(d.contains(t[i]));
                lemma_push_contains_key(d, keys.last(), t[i]);
            } else {
                lemma_push_contains_key(d, keys.last(), keys.last());
            }
        }
        assert forall|x: CornerKey| distinct_keys(keys).contains(x) implies keys.contains(x) by {
            crate::sorting::lemma_push_contains(d, keys.last(), x);
            crate::sorting::lemma_drop_last_contains(keys, x);
        }
        assert forall|a: int, b: int|
            0 <= a < b < distinct_keys(keys).len() implies distinct_keys(keys)[a] != distinct_keys(keys)[b] by {
            if b == d.len() && !d.contains(keys.last()) {
                assert(d[a] != keys.last());
            }
        }
    }
}

/// Indexing reproduces the mesh: the index of every corner points at an equal corner of the
/// list of distinct corners.
pub proof fn lemma_index_reproduces_corners(keys: Seq<CornerKey>)
    ensures
        forall|i: int|
            0 <= i < keys.len() ==> position_of(distinct_keys(keys), #[trigger] keys[i])
                < distinct_keys(keys).len() && distinct_keys(keys)[position_of(
                distinct_keys(keys),
                keys[i],
            )] == keys[i],
{
    lemma_distinct_keys(keys);
    assert forall|i: int| 0 <= i < keys.len() implies position_of(distinct_keys(keys), #[trigger] keys[i])
        < distinct_keys(keys).len() && distinct_keys(keys)[position_of(distinct_keys(keys), keys[i])]
        == keys[i] by {
        lemma_position_of(distinct_keys(keys), keys[i]);
    }
}

/// Every face of a sphere mesh refers to existing vertices: its layers are below `y_layers`
/// and its positions below `x_layers`.
pub proof fn lemma_sphere_faces_in_range(x_layers: u32, y_layers: u32, k: int)
    requires
        0 <= k < 2 * x_layers * layer_pairs(y_layers as int),
    ensures
        forall|j: int|
            0 <= j < 3 ==> (#[trigger] sphere_face(x_layers as int, k)[j]).0 < y_layers
                && sphere_face(x_layers as int, k)[j].1 < x_layers,
{
    let n = x_layers as int;
    let pairs = layer_pairs(y_layers as int);
    assert(n > 0 && pairs > 0) by (nonlinear_arith)
        requires
            0 <= k < 2 * n * pairs,
            n >= 0,
            pairs >= 0,
    ;
    let i = k / (2 * n);
    vstd::arithmetic::div_mod::lemma_div_pos_is_pos(k, 2 * n);
    assert(k == (2 * n) * (k / (2 * n)) + k % (2 * n)) by {
        vstd::arithmetic::div_mod::lemma_fundamental_div_mod(k, 2 * n);
    }
    vstd::arithmetic::div_mod::lemma_mod_pos_bound(k, 2 * n);
    assert(i < pairs) by (nonlinear_arith)
        requires
            k == (2 * n) * i + k % (2 * n),
            0 <= k % (2 * n),
            k < 2 * n * pairs,
            n > 0,
    ;
    vstd::arithmetic::div_mod::lemma_mod_pos_bound(k, n);
    vstd::arithmetic::div_mod::lemma_mod_pos_bound(k % n + 1, n);
}


/// A drawn outline can always be filled: when the screen is at most `u32::MAX` columns wide
/// and no point has a negative column, every row of the layer that
/// `optimise_screen_point_collection` makes satisfies what `fill_rows` needs.
pub proof fn lemma_optimised_rows_can_be_filled(
    points: Seq<ScreenPoint>,
    screen_height: i64,
    screen_width: i64,
    r: int,
)
    requires
        screen_width <= u32::MAX,
        forall|i: int| 0 <= i < points.len() ==> #[trigger] points[i].x >= 0,
    ensures
        can_fill_row(optimised_row(points, screen_height, screen_width, r)),
{
    let e = optimised_row(points, screen_height, screen_width, r);
    lemma_optimised_row_ordered(points, screen_height, screen_width, r);
    if e.len() != 1 {
        let b = paired_bounds(e);
        let odd = e.len() % 2 != 0;
        assert forall|m: int| 0 <= m < b.len() implies #[trigger] b[m] == e[if odd && m >= 1 {
            m + 1
        } else {
            m
        }] by {}
        assert forall|k: int| 0 <= 2 * k && 2 * k + 1 < b.len() implies b[2 * k].x <= #[trigger] b[2 * k
            + 1].x && b[2 * k + 1].x - b[2 * k].x + 1 <= u32::MAX by {
            let i = if odd && 2 * k >= 1 {
                2 * k + 1
            } else {
                2 * k
            };
            let j = if odd {
                2 * k + 2
            } else {
                2 * k + 1
            };
            assert(b[2 * k] == e[i]);
            assert(b[2 * k + 1] == e[j]);
            assert(e[i].x <= e[j].x);
            assert(e[j].x < screen_width);
        }
    }
}

} // verus!
