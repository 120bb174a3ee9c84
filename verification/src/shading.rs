//! Layering rows of runs that carry shading signatures.
use vstd::prelude::*;

use crate::screen_points::{ShadingOptimisedScreenPoints, copy_row};

verus! {

pub open spec fn cons_shaded(
    a: ShadingOptimisedScreenPoints,
    rest: Option<Seq<ShadingOptimisedScreenPoints>>,
) -> Option<Seq<ShadingOptimisedScreenPoints>> {
    match rest {
        Some(s) => Some(seq![a] + s),
        None => None,
    }
}

/// Sweeps the runs of a lower row from left to right against the front of an upper row, as
/// `ShadingOptimisedScreenPoints::layer` does for one row whose upper side is not empty.
/// `None` where that sweep would stop: an upper row that runs out while the sweep is still
/// looking for an upper run that reaches a lower one, or a sum that leaves `u32`.
pub open spec fn shade_rows(
    lower: Seq<ShadingOptimisedScreenPoints>,
    upper: Seq<ShadingOptimisedScreenPoints>,
) -> Option<Seq<ShadingOptimisedScreenPoints>>
    decreases lower.len(), upper.len(),
{
    if lower.len() == 0 {
        Some(upper)
    } else if upper.len() == 0 {
        // only the current lower run is kept, the rest of the lower row is dropped
        Some(seq![lower[0]])
    } else {
        let l = lower[0];
        let u = upper[0];
        if u.x + u.occurence_length > u32::MAX {
            None
        } else if l.x > u.x + u.occurence_length {
            // the upper run ends before the lower run: keep it and look at the next one
            if upper.len() == 1 {
                None
            } else {
                cons_shaded(u, shade_rows(lower, upper.drop_first()))
            }
        } else if l.x + l.occurence_length > u32::MAX {
            None
        } else if l.x + l.occurence_length < u.x {
            cons_shaded(l, shade_rows(lower.drop_first(), upper))
        } else if l.x < u.x {
            cons_shaded(
                ShadingOptimisedScreenPoints {
                    shading_signature: l.shading_signature,
                    occurence_length: (u.x - l.x) as u32,
                    x: l.x,
                },
                shade_rows(lower.drop_first(), upper),
            )
        } else if l.x > u.x {
            if l.occurence_length + l.x - u.x + u.occurence_length > u32::MAX {
                None
            } else {
                cons_shaded(
                    u,
                    cons_shaded(
                        ShadingOptimisedScreenPoints {
                            shading_signature: l.shading_signature,
                            occurence_length: (l.occurence_length + l.x - u.x
                                + u.occurence_length) as u32,
                            x: (u.x + u.occurence_length) as u32,
                        },
                        shade_rows(lower.drop_first(), upper.drop_first()),
                    ),
                )
            }
        } else {
            shade_rows(lower.drop_first(), upper)
        }
    }
}

/// One row of `ShadingOptimisedScreenPoints::layer`.
pub open spec fn shade_layer_row(
    lower: Seq<ShadingOptimisedScreenPoints>,
    upper: Seq<ShadingOptimisedScreenPoints>,
) -> Option<Seq<ShadingOptimisedScreenPoints>> {
    if upper.len() == 0 {
        Some(lower)
    } else {
        shade_rows(lower, upper)
    }
}

/// What `ShadingOptimisedScreenPoints::layer` needs: an upper row for every lower row, and
/// a sweep that finishes in every row.
pub open spec fn can_shade_layer(
    lower: Seq<Vec<ShadingOptimisedScreenPoints>>,
    upper: Seq<Vec<ShadingOptimisedScreenPoints>>,
) -> bool {
    &&& lower.len() <= upper.len()
    &&& forall|i: int|
        0 <= i < lower.len() ==> #[trigger] shade_layer_row(lower[i]@, upper[i]@) is Some
}

fn sweep_shaded_rows(
    line: &Vec<ShadingOptimisedScreenPoints>,
    upper_line: Vec<ShadingOptimisedScreenPoints>,
) -> (res: Vec<ShadingOptimisedScreenPoints>)
    requires
        shade_rows(line@, upper_line@) is Some,
    ensures
        Some(res@) == shade_rows(line@, upper_line@),
{
    let ghost target = shade_rows(line@, upper_line@).unwrap();
    let mut upper_line = upper_line;
    let mut combined_line: Vec<ShadingOptimisedScreenPoints> = Vec::new();
    let mut area_index: usize = 0;
    assert(line@.skip(0) =~= line@);
    assert(combined_line@ + target =~= target);
    while area_index < line.len()
        invariant
            area_index <= line.len(),
            shade_rows(line@.skip(area_index as int), upper_line@) is Some,
            target == combined_line@ + shade_rows(
                line@.skip(area_index as int),
                upper_line@,
            ).unwrap(),
        decreases line.len() - area_index,
    {
        let ghost rest = line@.skip(area_index as int);
        let lower_area = line[area_index];
        assert(rest[0] == lower_area);
        if upper_line.len() == 0 {
            let ghost before = combined_line@;
            combined_line.push(lower_area);
            area_index = line.len();
            proof {
                assert(line@.skip(area_index as int) =~= Seq::<ShadingOptimisedScreenPoints>::empty());
                assert(combined_line@ =~= before + seq![lower_area]);
            }
        } else {
            while lower_area.x > upper_line[0].x + upper_line[0].occurence_length
                invariant
                    upper_line.len() > 0,
                    rest.len() > 0 && rest[0] == lower_area,
                    rest == line@.skip(area_index as int),
                    shade_rows(rest, upper_line@) is Some,
                    target == combined_line@ + shade_rows(rest, upper_line@).unwrap(),
                decreases upper_line.len(),
            {
                let ghost ups = upper_line@;
                let ghost before = combined_line@;
                let upper_area = upper_line[0];
                combined_line.push(upper_area);
                upper_line.remove(0);
                proof {
                    assert(upper_line@ =~= ups.drop_first());
                    assert(combined_line@ =~= before + seq![upper_area]);
                }
            }
            let ghost ups = upper_line@;
            let ghost before = combined_line@;
            let upper_area = upper_line[0];
            if lower_area.x + lower_area.occurence_length < upper_area.x {
                combined_line.push(lower_area);
                proof {
                    assert(combined_line@ =~= before + seq![lower_area]);
                }
            } else if lower_area.x < upper_area.x {
                let piece = ShadingOptimisedScreenPoints::new(
                    lower_area.shading_signature,
                    upper_area.x - lower_area.x,
                    lower_area.x,
                );
                combined_line.push(piece);
                proof {
                    assert(combined_line@ =~= before + seq![piece]);
                }
            } else if lower_area.x > upper_area.x {
                let piece = ShadingOptimisedScreenPoints::new(
                    lower_area.shading_signature,
                    lower_area.occurence_length + lower_area.x - upper_area.x
                        + upper_area.occurence_length,
                    upper_area.x + upper_area.occurence_length,
                );
                combined_line.push(upper_area);
                combined_line.push(piece);
                upper_line.remove(0);
                proof {
                    assert(upper_line@ =~= ups.drop_first());
                    assert(combined_line@ =~= before + seq![upper_area, piece]);
                }
            }
            area_index = area_index + 1;
            proof {
                assert(line@.skip(area_index as int) =~= rest.drop_first());
            }
        }
    }
    let mut upper_line = upper_line;
    combined_line.append(&mut upper_line);
    combined_line
}

impl ShadingOptimisedScreenPoints {
    /// Lays the rows of `upper_layer` over those of `lower_layer`, one row per lower row: a
    /// lower row whose upper row is empty is kept, any other is swept against its upper row
    /// as `shade_rows` describes.
    pub fn layer(
        lower_layer: Vec<Vec<ShadingOptimisedScreenPoints>>,
        upper_layer: Vec<Vec<ShadingOptimisedScreenPoints>>,
    ) -> (res: Result<Vec<Vec<ShadingOptimisedScreenPoints>>, String>)
        requires
            can_shade_layer(lower_layer@, upper_layer@),
        ensures
            res matches Ok(rows) && rows.len() == lower_layer.len() && forall|i: int|
                0 <= i < rows.len() ==> #[trigger] rows@[i]@ == shade_layer_row(
                    lower_layer@[i]@,
                    upper_layer@[i]@,
                ).unwrap(),
    {
        let mut combined_layer: Vec<Vec<ShadingOptimisedScreenPoints>> = Vec::new();
        let mut index: usize = 0;
        while index < lower_layer.len()
            invariant
                can_shade_layer(lower_layer@, upper_layer@),
                index <= lower_layer.len(),
                combined_layer.len() == index,
                forall|i: int|
                    0 <= i < index ==> #[trigger] combined_layer@[i]@ == shade_layer_row(
                        lower_layer@[i]@,
                        upper_layer@[i]@,
                    ).unwrap(),
            decreases lower_layer.len() - index,
        {
            assert(shade_layer_row(lower_layer@[index as int]@, upper_layer@[index as int]@) is Some);
            if upper_layer[index].len() == 0 {
                combined_layer.push(copy_row(&lower_layer[index]));
            } else {
                let upper_row = copy_row(&upper_layer[index]);
                combined_layer.push(sweep_shaded_rows(&lower_layer[index], upper_row));
            }
            index = index + 1;
        }
        Ok(combined_layer)
    }
}


/// Whether the sweep of one lower row against a non-empty upper row finishes (see
/// `shade_rows`).
fn shade_rows_finish(
    lower: &Vec<ShadingOptimisedScreenPoints>,
    upper: &Vec<ShadingOptimisedScreenPoints>,
) -> (finishes: bool)
    ensures
        finishes == shade_rows(lower@, upper@) is Some,
{
    let mut a: usize = 0;
    let mut b: usize = 0;
    assert(lower@.skip(0) =~= lower@);
    assert(upper@.skip(0) =~= upper@);
    loop
        invariant
            a <= lower.len(),
            b <= upper.len(),
            shade_rows(lower@, upper@) is Some <==> shade_rows(
                lower@.skip(a as int),
                upper@.skip(b as int),
            ) is Some,
        decreases lower.len() - a + upper.len() - b,
    {
        let ghost ls = lower@.skip(a as int);
        let ghost us = upper@.skip(b as int);
        if a == lower.len() {
            assert(ls.len() == 0);
            return true;
        }
        if b == upper.len() {
            assert(us.len() == 0);
            return true;
        }
        let l = lower[a];
        let u = upper[b];
        assert(ls[0] == l && us[0] == u);
        assert(ls.drop_first() =~= lower@.skip(a as int + 1));
        assert(us.drop_first() =~= upper@.skip(b as int + 1));
        let u_end: u64 = u.x as u64 + u.occurence_length as u64;
        let l_end: u64 = l.x as u64 + l.occurence_length as u64;
        if u_end > u32::MAX as u64 {
            return false;
        } else if l.x as u64 > u_end {
            if b + 1 == upper.len() {
                return false;
            }
            b = b + 1;
        } else if l_end > u32::MAX as u64 {
            return false;
        } else if l_end < u.x as u64 {
            a = a + 1;
        } else if l.x < u.x {
            a = a + 1;
        } else if l.x > u.x {
            if l.occurence_length as u64 + l.x as u64 - u.x as u64 + u.occurence_length as u64
                > u32::MAX as u64 {
                return false;
            }
            a = a + 1;
            b = b + 1;
        } else {
            a = a + 1;
        }
    }
}

impl ShadingOptimisedScreenPoints {
    /// Whether `layer` can lay `upper_layer` over `lower_layer` (see `can_shade_layer`).
    pub fn can_layer(
        lower_layer: &Vec<Vec<ShadingOptimisedScreenPoints>>,
        upper_layer: &Vec<Vec<ShadingOptimisedScreenPoints>>,
    ) -> (possible: bool)
        ensures
            possible == can_shade_layer(lower_layer@, upper_layer@),
    {
        if lower_layer.len() > upper_layer.len() {
            return false;
        }
        let mut index: usize = 0;
        while index < lower_layer.len()
            invariant
                index <= lower_layer.len(),
                lower_layer.len() <= upper_layer.len(),
                forall|i: int|
                    0 <= i < index ==> #[trigger] shade_layer_row(
                        lower_layer@[i]@,
                        upper_layer@[i]@,
                    ) is Some,
            decreases lower_layer.len() - index,
        {
            if upper_layer[index].len() > 0 && !shade_rows_finish(&lower_layer[index], &upper_layer[index]) {
                assert(shade_layer_row(lower_layer@[index as int]@, upper_layer@[index as int]@) is None);
                return false;
            }
            index = index + 1;
        }
        true
    }
}


/// Laying a row over another keeps every upper run whole: where the sweep finishes, each run
/// of the upper row is a run of the layered row. This is what the shadow test relies on when
/// it compares a triangle's own drawing with the layered one.
pub proof fn lemma_shade_layer_keeps_upper_runs(
    lower: Seq<ShadingOptimisedScreenPoints>,
    upper: Seq<ShadingOptimisedScreenPoints>,
)
    requires
        shade_layer_row(lower, upper) is Some,
    ensures
        forall|j: int| 0 <= j < upper.len() ==> shade_layer_row(lower, upper).unwrap().contains(#[trigger] upper[j]),
{
    if upper.len() > 0 {
        lemma_shade_rows_keeps_upper_runs(lower, upper);
    }
}

proof fn lemma_shade_rows_keeps_upper_runs(
    lower: Seq<ShadingOptimisedScreenPoints>,
    upper: Seq<ShadingOptimisedScreenPoints>,
)
    requires
        shade_rows(lower, upper) is Some,
    ensures
        forall|j: int| 0 <= j < upper.len() ==> shade_rows(lower, upper).unwrap().contains(#[trigger] upper[j]),
    decreases lower.len(), upper.len(),
{
    let res = shade_rows(lower, upper).unwrap();
    if lower.len() == 0 {
        assert forall|j: int| 0 <= j < upper.len() implies res.contains(#[trigger] upper[j]) by {
            assert(res[j] == upper[j]);
        }
    } else if upper.len() > 0 {
        let l = lower[0];
        let u = upper[0];
        if l.x > u.x + u.occurence_length {
            let rest = upper.drop_first();
            lemma_shade_rows_keeps_upper_runs(lower, rest);
            let tail = shade_rows(lower, rest).unwrap();
            assert(res == seq![u] + tail);
            assert forall|j: int| 0 <= j < upper.len() implies res.contains(#[trigger] upper[j]) by {
                if j == 0 {
                    assert(res[0] == u);
                } else {
                    assert(rest[j - 1] == upper[j]);
                    let m = choose|m: int| 0 <= m < tail.len() && tail[m] == rest[j - 1];
                    assert(res[m + 1] == upper[j]);
                }
            }
        } else if l.x + l.occurence_length < u.x || l.x < u.x {
            let rest = lower.drop_first();
            lemma_shade_rows_keeps_upper_runs(rest, upper);
            let tail = shade_rows(rest, upper).unwrap();
            assert(res.drop_first() == tail);
            assert forall|j: int| 0 <= j < upper.len() implies res.contains(#[trigger] upper[j]) by {
                let m = choose|m: int| 0 <= m < tail.len() && tail[m] == upper[j];
                assert(res[m + 1] == upper[j]);
            }
        } else if l.x > u.x {
            let rest_lower = lower.drop_first();
            let rest_upper = upper.drop_first();
            lemma_shade_rows_keeps_upper_runs(rest_lower, rest_upper);
            let tail = shade_rows(rest_lower, rest_upper).unwrap();
            assert(res.drop_first().drop_first() == tail);
            assert forall|j: int| 0 <= j < upper.len() implies res.contains(#[trigger] upper[j]) by {
                if j == 0 {
                    assert(res[0] == u);
                } else {
                    assert(rest_upper[j - 1] == upper[j]);
                    let m = choose|m: int| 0 <= m < tail.len() && tail[m] == rest_upper[j - 1];
                    assert(res[m + 2] == upper[j]);
                }
            }
        } else {
            lemma_shade_rows_keeps_upper_runs(lower.drop_first(), upper);
        }
    }
}


/// Runs of the lower row that end before the upper row begins stay as they are: when the first
/// `m` runs of the lower row each end before the first run of the upper row starts, the layered
/// row begins with exactly those `m` runs, unchanged and in their order.
pub proof fn lemma_shade_layer_keeps_runs_before_upper(
    lower: Seq<ShadingOptimisedScreenPoints>,
    upper: Seq<ShadingOptimisedScreenPoints>,
    m: int,
)
    requires
        shade_layer_row(lower, upper) is Some,
        0 <= m <= lower.len(),
        forall|j: int|
            0 <= j < m && upper.len() > 0 ==> #[trigger] lower[j].x + lower[j].occurence_length
                < upper[0].x,
    ensures
        shade_layer_row(lower, upper).unwrap().len() >= m,
        forall|j: int| 0 <= j < m ==> #[trigger] shade_layer_row(lower, upper).unwrap()[j] == lower[j],
    decreases m,
{
    if upper.len() > 0 && m > 0 {
        let l = lower[0];
        let u = upper[0];
        assert(l.x + l.occurence_length < u.x);
        let rest = lower.drop_first();
        let tail = shade_rows(rest, upper);
        assert(shade_rows(lower, upper) == cons_shaded(l, tail));
        assert(tail is Some);
        assert forall|j: int| 0 <= j < m - 1 && upper.len() > 0 implies #[trigger] rest[j].x
            + rest[j].occurence_length < upper[0].x by {
            assert(rest[j] == lower[j + 1]);
        }
        lemma_shade_layer_keeps_runs_before_upper(rest, upper, m - 1);
        let t = tail.unwrap();
        assert(shade_layer_row(rest, upper) == tail);
        assert forall|j: int| 0 <= j < m implies #[trigger] shade_layer_row(lower, upper).unwrap()[j]
            == lower[j] by {
            if j > 0 {
                assert((seq![l] + t)[j] == t[j - 1]);
                assert(t[j - 1] == rest[j - 1]);
            }
        }
    }
}

} // verus!
