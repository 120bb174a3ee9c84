//! Painting one layer of run-length encoded rows over another.
use vstd::prelude::*;

use crate::screen_points::{OptimisedScreenPoint, copy_row};
use crate::sorting::{stable_sort, sort_by_key};

verus! {

/// The last column that a run covers.
pub open spec fn reach(a: OptimisedScreenPoint) -> int {
    a.x + a.occurence_length - 1
}

/// The last column of a run can be computed in `u32` without leaving its range.
pub open spec fn reach_computable(a: OptimisedScreenPoint) -> bool {
    1 <= a.x + a.occurence_length <= u32::MAX
}

pub open spec fn cons_run(
    a: OptimisedScreenPoint,
    rest: Option<Seq<OptimisedScreenPoint>>,
) -> Option<Seq<OptimisedScreenPoint>> {
    match rest {
        Some(s) => Some(seq![a] + s),
        None => None,
    }
}

/// The part of the lower run `l` left of the upper run `u`.
pub open spec fn part_before(l: OptimisedScreenPoint, u: OptimisedScreenPoint) -> OptimisedScreenPoint {
    OptimisedScreenPoint { color: l.color, occurence_length: (u.x - l.x) as u32, x: l.x }
}

/// The part of the lower run `l` right of the upper run `u`.
pub open spec fn part_after(l: OptimisedScreenPoint, u: OptimisedScreenPoint) -> OptimisedScreenPoint {
    OptimisedScreenPoint {
        color: l.color,
        occurence_length: (reach(l) - reach(u)) as u32,
        x: (reach(u) + 1) as u32,
    }
}

/// Sweeps the runs of a lower and an upper row from left to right, both sorted by column:
/// upper runs are kept whole, lower runs are cut where an upper run covers them.
/// `None` where a run's last column does not fit in `u32`.
pub open spec fn merge_rows(
    lower: Seq<OptimisedScreenPoint>,
    upper: Seq<OptimisedScreenPoint>,
) -> Option<Seq<OptimisedScreenPoint>>
    decreases lower.len() + upper.len(),
{
    if lower.len() == 0 {
        Some(upper)
    } else if upper.len() == 0 {
        Some(lower)
    } else {
        let l = lower[0];
        let u = upper[0];
        if !reach_computable(l) || !reach_computable(u) {
            None
        } else if reach(u) < l.x {
            cons_run(u, merge_rows(lower, upper.drop_first()))
        } else if reach(l) < u.x {
            cons_run(l, merge_rows(lower.drop_first(), upper))
        } else if reach(l) <= reach(u) {
            if l.x >= u.x {
                merge_rows(lower.drop_first(), upper)
            } else {
                cons_run(part_before(l, u), merge_rows(lower.drop_first(), upper))
            }
        } else if l.x >= u.x {
            cons_run(u, merge_rows(lower.update(0, part_after(l, u)), upper.drop_first()))
        } else {
            cons_run(
                part_before(l, u),
                cons_run(u, merge_rows(lower.update(0, part_after(l, u)), upper.drop_first())),
            )
        }
    }
}

/// One row of `OptimisedScreenPoint::layer`: both rows sorted by column, then swept.
pub open spec fn layer_row(
    lower: Seq<OptimisedScreenPoint>,
    upper: Seq<OptimisedScreenPoint>,
) -> Option<Seq<OptimisedScreenPoint>> {
    merge_rows(stable_sort(lower), stable_sort(upper))
}

/// Row `i` of the lower layer once it is padded with empty rows to the height of the upper one.
pub open spec fn padded_row(
    lower: Seq<Vec<OptimisedScreenPoint>>,
    i: int,
) -> Seq<OptimisedScreenPoint> {
    if i < lower.len() {
        lower[i]@
    } else {
        Seq::empty()
    }
}

/// What `OptimisedScreenPoint::layer` needs: the lower layer is not higher than the upper
/// one, and every run that the sweep reaches has a last column within `u32`.
pub open spec fn can_layer(
    lower: Seq<Vec<OptimisedScreenPoint>>,
    upper: Seq<Vec<OptimisedScreenPoint>>,
) -> bool {
    &&& lower.len() <= upper.len()
    &&& forall|i: int| 0 <= i < upper.len() ==> #[trigger] layer_row(padded_row(lower, i), upper[i]@) is Some
}

/// The sweep of `merge_rows` on vectors.
fn merge_sorted_rows(line: Vec<OptimisedScreenPoint>, upper_line: Vec<OptimisedScreenPoint>) -> (res:
    Vec<OptimisedScreenPoint>)
    requires
        merge_rows(line@, upper_line@) is Some,
    ensures
        Some(res@) == merge_rows(line@, upper_line@),
{
    let ghost target = merge_rows(line@, upper_line@).unwrap();
    let mut line = line;
    let mut upper_line = upper_line;
    let mut combined: Vec<OptimisedScreenPoint> = Vec::new();
    let mut lower_index: usize = 0;
    assert(line@.skip(0) =~= line@);
    assert(combined@ + target =~= target);
    while lower_index < line.len()
        invariant
            lower_index <= line.len(),
            merge_rows(line@.skip(lower_index as int), upper_line@) is Some,
            target == combined@ + merge_rows(line@.skip(lower_index as int), upper_line@).unwrap(),
        decreases line.len() - lower_index + upper_line.len(),
    {
        let ghost rest = line@.skip(lower_index as int);
        let ghost before = combined@;
        let lower_area = line[lower_index];
        assert(rest[0] == lower_area);
        if upper_line.len() == 0 {
            let mut k = lower_index;
            while k < line.len()
                invariant
                    lower_index <= k <= line.len(),
                    combined@ == before + line@.subrange(lower_index as int, k as int),
                decreases line.len() - k,
            {
                combined.push(line[k]);
                k = k + 1;
                proof {
                    assert(combined@ =~= before + line@.subrange(lower_index as int, k as int));
                }
            }
            proof {
                assert(line@.subrange(lower_index as int, line.len() as int) =~= rest);
            }
            lower_index = line.len();
            proof {
                assert(line@.skip(lower_index as int) =~= Seq::<OptimisedScreenPoint>::empty());
            }
        } else {
            let ghost ups = upper_line@;
            let upper_area = upper_line[0];
            let lower_area_reach = lower_area.x + lower_area.occurence_length - 1;
            let upper_area_reach = upper_area.x + upper_area.occurence_length - 1;
            if upper_area_reach < lower_area.x {
                // the upper run lies before the lower run
                combined.push(upper_area);
                upper_line.remove(0);
                proof {
                    assert(upper_line@ =~= ups.drop_first());
                    assert(combined@ =~= before + seq![upper_area]);
                }
            } else if lower_area_reach < upper_area.x {
                // the lower run lies before the upper run
                combined.push(lower_area);
                lower_index = lower_index + 1;
                proof {
                    assert(line@.skip(lower_index as int) =~= rest.drop_first());
                    assert(combined@ =~= before + seq![lower_area]);
                }
            } else if lower_area_reach <= upper_area_reach {
                if lower_area.x < upper_area.x {
                    // the lower run sticks out on the left only
                    let mod_lower_area = OptimisedScreenPoint {
                        color: lower_area.color,
                        occurence_length: upper_area.x - lower_area.x,
                        x: lower_area.x,
                    };
                    combined.push(mod_lower_area);
                    proof {
                        assert(combined@ =~= before + seq![mod_lower_area]);
                    }
                }
                lower_index = lower_index + 1;
                proof {
                    assert(line@.skip(lower_index as int) =~= rest.drop_first());
                }
            } else if lower_area.x >= upper_area.x {
                // the lower run sticks out on the right only
                let cut = OptimisedScreenPoint {
                    color: lower_area.color,
                    occurence_length: lower_area_reach - upper_area_reach,
                    x: upper_area_reach + 1,
                };
                line.set(lower_index, cut);
                combined.push(upper_area);
                upper_line.remove(0);
                proof {
                    assert(upper_line@ =~= ups.drop_first());
                    assert(line@.skip(lower_index as int) =~= rest.update(0, cut));
                    assert(combined@ =~= before + seq![upper_area]);
                }
            } else {
                // the lower run sticks out on both sides
                let mod_lower_area = OptimisedScreenPoint {
                    color: lower_area.color,
                    occurence_length: upper_area.x - lower_area.x,
                    x: lower_area.x,
                };
                let cut = OptimisedScreenPoint {
                    color: lower_area.color,
                    occurence_length: lower_area_reach - upper_area_reach,
                    x: upper_area_reach + 1,
                };
                line.set(lower_index, cut);
                combined.push(mod_lower_area);
                combined.push(upper_area);
                upper_line.remove(0);
                proof {
                    assert(upper_line@ =~= ups.drop_first());
                    assert(line@.skip(lower_index as int) =~= rest.update(0, cut));
                    assert(combined@ =~= before + seq![mod_lower_area, upper_area]);
                }
            }
        }
    }
    combined.append(&mut upper_line);
    combined
}

impl OptimisedScreenPoint {
    /// Paints the rows of `upper_layer` over the rows of `lower_layer`. The lower layer is first
    /// padded with empty rows to the height of the upper one; in each row both sets of runs are
    /// sorted by column and swept as `merge_rows` describes.
    pub fn layer(
        lower_layer: Vec<Vec<OptimisedScreenPoint>>,
        upper_layer: Vec<Vec<OptimisedScreenPoint>>,
    ) -> (res: Result<Vec<Vec<OptimisedScreenPoint>>, String>)
        requires
            can_layer(lower_layer@, upper_layer@),
        ensures
            res matches Ok(rows) && rows.len() == upper_layer.len() && forall|i: int|
                0 <= i < rows.len() ==> #[trigger] rows@[i]@ == layer_row(
                    padded_row(lower_layer@, i),
                    upper_layer@[i]@,
                ).unwrap(),
    {
        let mut combined_layer: Vec<Vec<OptimisedScreenPoint>> = Vec::new();
        let mut index: usize = 0;
        while index < upper_layer.len()
            invariant
                can_layer(lower_layer@, upper_layer@),
                index <= upper_layer.len(),
                combined_layer.len() == index,
                forall|i: int|
                    0 <= i < index ==> #[trigger] combined_layer@[i]@ == layer_row(
                        padded_row(lower_layer@, i),
                        upper_layer@[i]@,
                    ).unwrap(),
            decreases upper_layer.len() - index,
        {
            let lower_row = if index < lower_layer.len() {
                copy_row(&lower_layer[index])
            } else {
                Vec::new()
            };
            let upper_row = copy_row(&upper_layer[index]);
            proof {
                assert(lower_row@ =~= padded_row(lower_layer@, index as int));
                assert(layer_row(padded_row(lower_layer@, index as int), upper_layer@[index as int]@) is Some);
            }
            let sorted_lower = sort_by_key(lower_row);
            let sorted_upper = sort_by_key(upper_row);
            let merged = merge_sorted_rows(sorted_lower, sorted_upper);
            combined_layer.push(merged);
            index = index + 1;
        }
        Ok(combined_layer)
    }
}

} // verus!
