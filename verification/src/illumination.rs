//! The bookkeeping of the shadow test: which triangle shows where in the layered drawing.
use vstd::prelude::*;

use crate::screen_points::ShadingOptimisedScreenPoints;
use crate::shading::{can_shade_layer, shade_layer_row};
use crate::sorting::{
    SortKey,
    with_key,
    key_is,
    stable_sort,
    sort_by_key,
    sorted_by_key,
    lemma_sort_contains,
    lemma_sort_sorted,
    lemma_push_contains,
};

verus! {

impl SortKey for u32 {
    open spec fn sort_key(&self) -> int {
        *self as int
    }

    fn key_of(&self) -> (k: i64) {
        *self as i64
    }
}

/// All runs of all rows, row after row.
pub open spec fn fused(rows: Seq<Vec<ShadingOptimisedScreenPoints>>) -> Seq<ShadingOptimisedScreenPoints>
    decreases rows.len(),
{
    if rows.len() == 0 {
        Seq::empty()
    } else {
        fused(rows.drop_last()) + rows.last()@
    }
}

/// Puts the runs of all rows into one list, row after row.
pub fn fuse_rows(rows: &Vec<Vec<ShadingOptimisedScreenPoints>>) -> (runs: Vec<ShadingOptimisedScreenPoints>)
    ensures
        runs@ == fused(rows@),
{
    let mut runs: Vec<ShadingOptimisedScreenPoints> = Vec::new();
    let mut i: usize = 0;
    while i < rows.len()
        invariant
            i <= rows.len(),
            runs@ == fused(rows@.take(i as int)),
        decreases rows.len() - i,
    {
        let line = &rows[i];
        let ghost before = runs@;
        let mut j: usize = 0;
        while j < line.len()
            invariant
                j <= line.len(),
                runs@ == before + line@.take(j as int),
            decreases line.len() - j,
        {
            runs.push(line[j]);
            j = j + 1;
            proof {
                assert(runs@ =~= before + line@.take(j as int));
            }
        }
        proof {
            assert(line@.take(line.len() as int) =~= line@);
            assert(rows@.take(i as int + 1).drop_last() =~= rows@.take(i as int));
        }
        i = i + 1;
    }
    assert(rows@.take(rows.len() as int) =~= rows@);
    runs
}

/// The rows where a drawing starts and stops: the first row with runs, and the first empty
/// row after it (`None` where there is no such row).
pub fn nonempty_row_range(rows: &Vec<Vec<ShadingOptimisedScreenPoints>>) -> (range: (
    Option<usize>,
    Option<usize>,
))
    ensures
        range.0 matches Some(first) ==> first < rows.len() && rows@[first as int]@.len() > 0 && forall|
            j: int,
        | 0 <= j < first ==> #[trigger] rows@[j]@.len() == 0,
        range.0 is None ==> forall|j: int| 0 <= j < rows.len() ==> #[trigger] rows@[j]@.len() == 0,
        range.1 matches Some(end) ==> range.0 matches Some(first) && first < end < rows.len()
            && rows@[end as int]@.len() == 0 && forall|j: int|
            first <= j < end ==> #[trigger] rows@[j]@.len() > 0,
        range.1 is None ==> (range.0 matches Some(first) ==> forall|j: int|
            first <= j < rows.len() ==> #[trigger] rows@[j]@.len() > 0),
{
    let mut first: Option<usize> = None;
    let mut index: usize = 0;
    while index < rows.len()
        invariant
            index <= rows.len(),
            first is None ==> forall|j: int| 0 <= j < index ==> #[trigger] rows@[j]@.len() == 0,
            first matches Some(f) ==> f < index && rows@[f as int]@.len() > 0 && (forall|j: int|
                0 <= j < f ==> #[trigger] rows@[j]@.len() == 0) && forall|j: int|
                f <= j < index ==> #[trigger] rows@[j]@.len() > 0,
        decreases rows.len() - index,
    {
        if rows[index].len() == 0 {
            if first.is_some() {
                return (first, Some(index));
            }
        } else if first.is_none() {
            first = Some(index);
        }
        index = index + 1;
    }
    (first, None)
}

/// The signatures of the runs in `default_runs` that also occur in `top_runs` or that carry
/// `shading_index` themselves, each once, in increasing order.
pub fn overshadowing_signatures(
    default_runs: &Vec<ShadingOptimisedScreenPoints>,
    top_runs: &Vec<ShadingOptimisedScreenPoints>,
    shading_index: u32,
) -> (signatures: Vec<u32>)
    ensures
        forall|a: int, b: int| 0 <= a < b < signatures.len() ==> signatures@[a] < signatures@[b],
        forall|s: u32|
            signatures@.contains(s) <==> exists|i: int|
                0 <= i < default_runs.len() && #[trigger] default_runs@[i].shading_signature == s && (
                top_runs@.contains(default_runs@[i]) || s == shading_index),
{
    let mut picked: Vec<u32> = Vec::new();
    let mut i: usize = 0;
    while i < default_runs.len()
        invariant
            i <= default_runs.len(),
            forall|s: u32|
                picked@.contains(s) <==> exists|k: int|
                    0 <= k < i && #[trigger] default_runs@[k].shading_signature == s && (
                    top_runs@.contains(default_runs@[k]) || s == shading_index),
        decreases default_runs.len() - i,
    {
        let area = default_runs[i];
        let mut in_top = false;
        let mut j: usize = 0;
        while j < top_runs.len()
            invariant
                j <= top_runs.len(),
                in_top <==> exists|m: int| 0 <= m < j && top_runs@[m] == area,
            decreases top_runs.len() - j,
        {
            if top_runs[j] == area {
                in_top = true;
            }
            j = j + 1;
        }
        let ghost before = picked@;
        if in_top || area.shading_signature == shading_index {
            picked.push(area.shading_signature);
        }
        proof {
            assert forall|s: u32|
                picked@.contains(s) <==> exists|k: int|
                    0 <= k < i + 1 && #[trigger] default_runs@[k].shading_signature == s && (
                    top_runs@.contains(default_runs@[k]) || s == shading_index) by {
                lemma_push_contains(before, area.shading_signature, s);
                if in_top {
                    let m = choose|m: int| 0 <= m < top_runs.len() && top_runs@[m] == area;
                    assert(top_runs@.contains(area));
                }
                if top_runs@.contains(area) {
                    let m = choose|m: int| 0 <= m < top_runs.len() && top_runs@[m] == area;
                    assert(in_top);
                }
                if exists|k: int|
                    0 <= k < i + 1 && #[trigger] default_runs@[k].shading_signature == s && (
                    top_runs@.contains(default_runs@[k]) || s == shading_index) {
                    let k = choose|k: int|
                        0 <= k < i + 1 && #[trigger] default_runs@[k].shading_signature == s && (
                        top_runs@.contains(default_runs@[k]) || s == shading_index);
                    if k < i {
                        assert(exists|k2: int|
                            0 <= k2 < i && #[trigger] default_runs@[k2].shading_signature == s && (
                            top_runs@.contains(default_runs@[k2]) || s == shading_index));
                    }
                }
            }
        }
        i = i + 1;
    }
    let ghost unsorted = picked@;
    let sorted = sort_by_key(picked);
    proof {
        lemma_sort_contains(unsorted);
        lemma_sort_sorted(unsorted);
    }
    let mut signatures: Vec<u32> = Vec::new();
    let mut k: usize = 0;
    while k < sorted.len()
        invariant
            k <= sorted.len(),
            sorted_by_key(sorted@),
            forall|a: int, b: int| 0 <= a < b < signatures.len() ==> signatures@[a] < signatures@[b],
            signatures.len() > 0 ==> signatures@.last() == sorted@[k - 1] && k > 0,
            signatures.len() == 0 ==> k == 0,
            forall|s: u32| signatures@.contains(s) <==> sorted@.take(k as int).contains(s),
        decreases sorted.len() - k,
    {
        let ghost before = signatures@;
        proof {
            assert(sorted@.take(k as int + 1) =~= sorted@.take(k as int).push(sorted@[k as int]));
        }
        if k == 0 || sorted[k - 1] != sorted[k] {
            signatures.push(sorted[k]);
            proof {
                if k > 0 {
                    assert(sorted@[k - 1].sort_key() <= sorted@[k as int].sort_key());
                }
                assert forall|s: u32| signatures@.contains(s) <==> sorted@.take(k as int + 1).contains(s) by {
                    lemma_push_contains(before, sorted@[k as int], s);
                    lemma_push_contains(sorted@.take(k as int), sorted@[k as int], s);
                }
            }
        } else {
            proof {
                assert forall|s: u32| signatures@.contains(s) <==> sorted@.take(k as int + 1).contains(s) by {
                    lemma_push_contains(sorted@.take(k as int), sorted@[k as int], s);
                    assert(before.last() == sorted@[k as int]);
                    assert(before.contains(before.last())) by {
                        assert(before[before.len() - 1] == before.last());
                    }
                }
            }
        }
        k = k + 1;
    }
    assert(sorted@.take(sorted.len() as int) =~= sorted@);
    signatures
}


/// How a triangle shows in the layered drawing of all triangles: the drawing is compared with
/// the triangle's own drawing through the runs that carry the triangle's signature.
#[derive(Clone, Copy, Debug, PartialEq, Eq, Structural)]
pub enum Visibility {
    /// No run of the layered drawing carries the triangle's signature: it is wholly in shadow.
    Hidden,
    /// The runs of the layered drawing that carry the triangle's signature are exactly the
    /// runs of its own drawing: it is wholly visible.
    Shown,
    /// Some runs carry the triangle's signature, but they differ from its own drawing.
    Partly,
}

/// What `visibility_of` gives: the runs of the drawing that carry the signature, in their
/// order, decide.
pub open spec fn visibility(
    drawing_runs: Seq<ShadingOptimisedScreenPoints>,
    own_runs: Seq<ShadingOptimisedScreenPoints>,
    shading_index: u32,
) -> Visibility {
    let carried = with_key(drawing_runs, shading_index as int);
    if carried.len() == 0 {
        Visibility::Hidden
    } else if carried == own_runs {
        Visibility::Shown
    } else {
        Visibility::Partly
    }
}

/// What the shadow test decides, in terms of the runs themselves: a triangle is hidden exactly
/// when no run of the drawing carries its signature, and shown exactly when the runs that carry
/// it are, one for one and in order, the runs of its own drawing; otherwise it is partly shown.
pub proof fn lemma_visibility_meaning(
    drawing_runs: Seq<ShadingOptimisedScreenPoints>,
    own_runs: Seq<ShadingOptimisedScreenPoints>,
    shading_index: u32,
)
    ensures
        visibility(drawing_runs, own_runs, shading_index) == Visibility::Hidden <==> forall|i: int|
            0 <= i < drawing_runs.len() ==> #[trigger] drawing_runs[i].shading_signature != shading_index,
        visibility(drawing_runs, own_runs, shading_index) == Visibility::Shown <==> {
            let carried = drawing_runs.filter(
                |r: ShadingOptimisedScreenPoints| r.shading_signature == shading_index,
            );
            &&& carried.len() > 0
            &&& carried.len() == own_runs.len()
            &&& forall|k: int| 0 <= k < own_runs.len() ==> #[trigger] carried[k] == own_runs[k]
        },
        visibility(drawing_runs, own_runs, shading_index) == Visibility::Partly <==> !(
        visibility(drawing_runs, own_runs, shading_index) == Visibility::Hidden) && !(visibility(
            drawing_runs,
            own_runs,
            shading_index,
        ) == Visibility::Shown),
{
    let f = |r: ShadingOptimisedScreenPoints| r.shading_signature == shading_index;
    let carried = drawing_runs.filter(f);
    assert(with_key(drawing_runs, shading_index as int) =~= carried) by {
        assert(key_is::<ShadingOptimisedScreenPoints>(shading_index as int) =~= f);
    }
    lemma_filter_empty(drawing_runs, shading_index);
    if carried.len() == own_runs.len() && forall|k: int| 0 <= k < own_runs.len() ==> #[trigger] carried[k]
        == own_runs[k] {
        assert(carried =~= own_runs);
    }
}

proof fn lemma_filter_empty(runs: Seq<ShadingOptimisedScreenPoints>, shading_index: u32)
    ensures
        runs.filter(|r: ShadingOptimisedScreenPoints| r.shading_signature == shading_index).len() == 0
            <==> forall|i: int| 0 <= i < runs.len() ==> #[trigger] runs[i].shading_signature != shading_index,
    decreases runs.len(),
{
    let f = |r: ShadingOptimisedScreenPoints| r.shading_signature == shading_index;
    reveal(Seq::filter);
    if runs.len() > 0 {
        let init = runs.drop_last();
        lemma_filter_empty(init, shading_index);
        assert(runs.filter(f) == if f(runs.last()) {
            init.filter(f).push(runs.last())
        } else {
            init.filter(f)
        });
        if runs.filter(f).len() == 0 {
            assert forall|i: int| 0 <= i < runs.len() implies #[trigger] runs[i].shading_signature != shading_index by {
                if i < init.len() {
                    assert(init[i] == runs[i]);
                }
            }
        }
        if forall|i: int| 0 <= i < runs.len() ==> #[trigger] runs[i].shading_signature != shading_index {
            assert(runs[runs.len() - 1].shading_signature != shading_index);
            assert forall|i: int| 0 <= i < init.len() implies #[trigger] init[i].shading_signature != shading_index by {
                assert(init[i] == runs[i]);
            }
        }
    }
}

/// The runs that carry `shading_index`, in their order.
fn runs_with_signature(runs: &Vec<ShadingOptimisedScreenPoints>, shading_index: u32) -> (mine: Vec<
    ShadingOptimisedScreenPoints,
>)
    ensures
        mine@ == with_key(runs@, shading_index as int),
{
    let mut mine: Vec<ShadingOptimisedScreenPoints> = Vec::new();
    let mut i: usize = 0;
    proof {
        reveal(Seq::filter);
    }
    assert(runs@.take(0) =~= Seq::<ShadingOptimisedScreenPoints>::empty());
    while i < runs.len()
        invariant
            i <= runs.len(),
            mine@ == with_key(runs@.take(i as int), shading_index as int),
        decreases runs.len() - i,
    {
        let r = runs[i];
        proof {
            assert(runs@.take(i as int + 1) =~= runs@.take(i as int).push(r));
            runs@.take(i as int).lemma_filter_push(r, key_is::<ShadingOptimisedScreenPoints>(shading_index as int));
        }
        if r.shading_signature == shading_index {
            mine.push(r);
        }
        i = i + 1;
    }
    assert(runs@.take(runs.len() as int) =~= runs@);
    mine
}

fn same_runs(a: &Vec<ShadingOptimisedScreenPoints>, b: &Vec<ShadingOptimisedScreenPoints>) -> (same: bool)
    ensures
        same == (a@ == b@),
{
    if a.len() != b.len() {
        return false;
    }
    let mut i: usize = 0;
    while i < a.len()
        invariant
            i <= a.len(),
            a.len() == b.len(),
            forall|j: int| 0 <= j < i ==> a@[j] == b@[j],
        decreases a.len() - i,
    {
        if a[i] != b[i] {
            return false;
        }
        i = i + 1;
    }
    assert(a@ =~= b@);
    true
}

/// Decides how a triangle shows (see `visibility`), from the runs of the layered drawing of
/// all triangles and the runs of the triangle's own drawing, row after row. The drawing's
/// runs may be given row after row or sorted stably by signature: both keep the runs of one
/// signature in the same order (see `lemma_sort_stable`).
pub fn visibility_of(
    drawing_runs: &Vec<ShadingOptimisedScreenPoints>,
    own_runs: &Vec<ShadingOptimisedScreenPoints>,
    shading_index: u32,
) -> (v: Visibility)
    ensures
        v == visibility(drawing_runs@, own_runs@, shading_index),
{
    let carried = runs_with_signature(drawing_runs, shading_index);
    if carried.len() == 0 {
        Visibility::Hidden
    } else if same_runs(&carried, own_runs) {
        Visibility::Shown
    } else {
        Visibility::Partly
    }
}

/// Which triangles the shadow test has found wholly visible and wholly in shadow, by their
/// position in the list of triangles.
pub struct ShadowBook {
    pub fully_lit: Vec<usize>,
    pub fully_shadowed: Vec<usize>,
}

impl ShadowBook {
    /// A book in which no triangle is noted yet.
    pub fn new() -> (book: ShadowBook)
        ensures
            book.fully_lit@ == Seq::<usize>::empty(),
            book.fully_shadowed@ == Seq::<usize>::empty(),
    {
        ShadowBook { fully_lit: Vec::new(), fully_shadowed: Vec::new() }
    }

    /// Notes how triangle `index` shows: a shown triangle is wholly lit, a hidden one wholly
    /// in shadow; a partly shown one is left for the shadow cut and not noted.
    pub fn record(&mut self, index: usize, v: Visibility)
        ensures
            final(self).fully_lit@ == if v == Visibility::Shown {
                old(self).fully_lit@.push(index)
            } else {
                old(self).fully_lit@
            },
            final(self).fully_shadowed@ == if v == Visibility::Hidden {
                old(self).fully_shadowed@.push(index)
            } else {
                old(self).fully_shadowed@
            },
    {
        match v {
            Visibility::Shown => self.fully_lit.push(index),
            Visibility::Hidden => self.fully_shadowed.push(index),
            Visibility::Partly => {},
        }
    }
}

/// The run `run` lies in one of the rows.
pub open spec fn in_some_row(rows: Seq<Vec<ShadingOptimisedScreenPoints>>, run: ShadingOptimisedScreenPoints) -> bool {
    exists|k: int| 0 <= k < rows.len() && (#[trigger] rows[k])@.contains(run)
}

proof fn lemma_fused_contains(rows: Seq<Vec<ShadingOptimisedScreenPoints>>, run: ShadingOptimisedScreenPoints)
    ensures
        fused(rows).contains(run) <==> in_some_row(rows, run),
    decreases rows.len(),
{
    if rows.len() > 0 {
        let init = rows.drop_last();
        lemma_fused_contains(init, run);
        let f = fused(init);
        let last = rows.last()@;
        if fused(rows).contains(run) {
            let m = choose|m: int| 0 <= m < fused(rows).len() && fused(rows)[m] == run;
            if m < f.len() {
                assert(f[m] == run);
                let k = choose|k: int| 0 <= k < init.len() && (#[trigger] init[k])@.contains(run);
                assert(rows[k] == init[k]);
            } else {
                assert(last[m - f.len()] == run);
                assert(rows[rows.len() - 1]@.contains(run));
            }
        }
        if in_some_row(rows, run) {
            let k = choose|k: int| 0 <= k < rows.len() && (#[trigger] rows[k])@.contains(run);
            let m = choose|m: int| 0 <= m < rows[k]@.len() && rows[k]@[m] == run;
            if k < init.len() {
                assert(init[k] == rows[k]);
                assert(in_some_row(init, run));
                let m2 = choose|m2: int| 0 <= m2 < f.len() && f[m2] == run;
                assert(fused(rows)[m2] == run);
            } else {
                assert(fused(rows)[f.len() + m] == run);
            }
        }
    }
}

/// The signatures of the triangles that share the rows of a partly shown triangle: given
/// the rows of the layered drawing of all triangles and those of the triangle's own drawing
/// (the same rows of the screen), each signature of a run of the layered drawing that the
/// triangle's drawing, laid over it, leaves in place, or that is the triangle's own; sorted,
/// each once.
pub fn shadowing_signatures(
    full_rows: Vec<Vec<ShadingOptimisedScreenPoints>>,
    own_rows: Vec<Vec<ShadingOptimisedScreenPoints>>,
    shading_index: u32,
) -> (signatures: Vec<u32>)
    requires
        can_shade_layer(full_rows@, own_rows@),
    ensures
        forall|a: int, b: int| 0 <= a < b < signatures.len() ==> signatures@[a] < signatures@[b],
        forall|s: u32|
            signatures@.contains(s) <==> exists|run: ShadingOptimisedScreenPoints|
                #[trigger] in_some_row(full_rows@, run) && run.shading_signature == s && (s
                    == shading_index || exists|k: int|
                    0 <= k < full_rows.len() && shade_layer_row(
                        full_rows@[k]@,
                        own_rows@[k]@,
                    ).unwrap().contains(run)),
{
    let ghost full = full_rows@;
    let ghost own = own_rows@;
    let default_runs = fuse_rows(&full_rows);
    let layered = match ShadingOptimisedScreenPoints::layer(full_rows, own_rows) {
        Ok(rows) => rows,
        Err(_) => Vec::new(),
    };
    let top_runs = fuse_rows(&layered);
    let signatures = overshadowing_signatures(&default_runs, &top_runs, shading_index);
    proof {
        assert forall|s: u32|
            signatures@.contains(s) <==> exists|run: ShadingOptimisedScreenPoints|
                #[trigger] in_some_row(full, run) && run.shading_signature == s && (s
                    == shading_index || exists|k: int|
                    0 <= k < full.len() && shade_layer_row(full[k]@, own[k]@).unwrap().contains(run)) by {
            if signatures@.contains(s) {
                let i = choose|i: int|
                    0 <= i < default_runs.len() && #[trigger] default_runs@[i].shading_signature == s && (
                    top_runs@.contains(default_runs@[i]) || s == shading_index);
                let run = default_runs@[i];
                lemma_fused_contains(full, run);
                assert(fused(full).contains(run));
                if top_runs@.contains(run) {
                    lemma_fused_contains(layered@, run);
                    let k = choose|k: int| 0 <= k < layered@.len() && (#[trigger] layered@[k])@.contains(run);
                    assert(layered@[k]@ == shade_layer_row(full[k]@, own[k]@).unwrap());
                }
                assert(in_some_row(full, run));
            }
            if exists|run: ShadingOptimisedScreenPoints|
                #[trigger] in_some_row(full, run) && run.shading_signature == s && (s
                    == shading_index || exists|k: int|
                    0 <= k < full.len() && shade_layer_row(full[k]@, own[k]@).unwrap().contains(run)) {
                let run = choose|run: ShadingOptimisedScreenPoints|
                    #[trigger] in_some_row(full, run) && run.shading_signature == s && (s
                        == shading_index || exists|k: int|
                        0 <= k < full.len() && shade_layer_row(full[k]@, own[k]@).unwrap().contains(run));
                lemma_fused_contains(full, run);
                let i = choose|i: int| 0 <= i < default_runs.len() && default_runs@[i] == run;
                if s != shading_index {
                    let k = choose|k: int|
                        0 <= k < full.len() && shade_layer_row(full[k]@, own[k]@).unwrap().contains(run);
                    assert(layered@[k]@ == shade_layer_row(full[k]@, own[k]@).unwrap());
                    assert(in_some_row(layered@, run));
                    lemma_fused_contains(layered@, run);
                }
                assert(default_runs@[i].shading_signature == s);
            }
        }
    }
    signatures
}

} // verus!
