//! What holds of every storage estimate.

use crate::binary64::{
    lemma_magnitude_increases, lemma_one, lemma_rounded_at_least, lemma_rounded_at_most,
    lemma_rounded_exists, magnitude, quotient, ratio, rounds_to, sum, unit, Binary64, INFINITY_BITS,
    ONE_BITS, UNIT_EXPONENT,
};
use crate::binary64_laws::{
    lemma_amount_pattern, lemma_positive_pattern, lemma_quotient_at_least, lemma_quotient_by_one,
    lemma_quotient_monotone, lemma_rounded_exact, lemma_sum_at_least, lemma_sum_monotone,
};
use crate::fit::{FitLevel, ModelFit};
use crate::storage::{
    candidates, conflicts, estimate_fault, first_fault, is_estimate, is_first, is_first_row,
    is_next_tier, is_ranking, is_valid_size, largest_size, lemma_candidates_step, lemma_fault_stays,
    lemma_name_is_ranked, lemma_no_fault, lemma_ranking_grows, lemma_ranking_keeps,
    lemma_ranking_unique, lemma_ranks_total, lemma_usable_share, need_of, partial_message,
    qualifies, ranking, ranks_before, request_fault, retained, row, row_fault, scratch_size,
    target_of, texts, total_size, usable_share, views, zero, EstimateView, SSD_TIERS_GB,
    ScratchPolicy, StorageEstimate, StorageModelEstimate, StorageRequest, StorageSelection,
};
use crate::text::{comes_before, decimal};
use vstd::prelude::*;
use vstd::std_specs::convert::FromSpec;

verus! {

// Which models are retained.

/// The place of a row in a ranking, from position `k` on.
proof fn lemma_place(
    selection: StorageSelection,
    s: Seq<EstimateView>,
    r: EstimateView,
    k: int,
) -> (place: int)
    requires
        0 <= k <= s.len(),
        forall|i: int| 0 <= i < k ==> ranks_before(selection, s[i], r),
    ensures
        0 <= place <= s.len(),
        forall|i: int| 0 <= i < place ==> ranks_before(selection, s[i], r),
        place < s.len() ==> !ranks_before(selection, s[place], r),
    decreases s.len() - k,
{
    if k < s.len() && ranks_before(selection, s[k], r) {
        lemma_place(selection, s, r, k + 1)
    } else {
        k
    }
}

/// All rows can be ranked, in one way.
pub proof fn lemma_ranking_exists(rows: Seq<EstimateView>, selection: StorageSelection)
    ensures
        is_ranking(rows, selection, ranking(rows, selection)),
    decreases rows.len(),
{
    if rows.len() == 0 {
        assert(is_ranking(rows, selection, Seq::empty()));
    } else {
        let shorter = rows.drop_last();
        let r = rows.last();
        lemma_ranking_exists(shorter, selection);
        let s = ranking(shorter, selection);
        assert(shorter.push(r) =~= rows);
        if exists|k: int| 0 <= k < s.len() && (#[trigger] s[k]).name == r.name {
            let k = choose|k: int| 0 <= k < s.len() && (#[trigger] s[k]).name == r.name;
            lemma_ranking_keeps(shorter, r, selection, s, k);
        } else {
            let k = lemma_place(selection, s, r, 0);
            lemma_ranking_grows(shorter, r, selection, s, k);
        }
    }
}

/// Every candidate is what is said of a fit that qualifies.
pub proof fn lemma_candidate_source(fits: Seq<ModelFit>, perfect: bool, i: int) -> (k: int)
    requires
        0 <= i < candidates(fits, perfect).len(),
    ensures
        0 <= k < fits.len(),
        qualifies(fits[k], perfect),
        row(fits[k]) == candidates(fits, perfect)[i],
    decreases fits.len(),
{
    reveal(Seq::filter);
    if fits.len() == 0 {
        0
    } else {
        let n = fits.len() - 1;
        lemma_candidates_step(fits, perfect, n);
        assert(fits.take(n + 1) =~= fits);
        let shorter = fits.take(n);
        if i < candidates(shorter, perfect).len() {
            let k = lemma_candidate_source(shorter, perfect, i);
            assert(shorter[k] == fits[k]);
            k
        } else {
            n
        }
    }
}

/// What is said of a fit that qualifies is a candidate.
pub proof fn lemma_candidate_of(fits: Seq<ModelFit>, perfect: bool, k: int) -> (i: int)
    requires
        0 <= k < fits.len(),
        qualifies(fits[k], perfect),
    ensures
        0 <= i < candidates(fits, perfect).len(),
        candidates(fits, perfect)[i] == row(fits[k]),
    decreases fits.len(),
{
    let n = fits.len() - 1;
    lemma_candidates_step(fits, perfect, n);
    assert(fits.take(n + 1) =~= fits);
    if k == n {
        candidates(fits, perfect).len() - 1
    } else {
        lemma_candidate_of(fits.take(n), perfect, k)
    }
}

/// Each catalog identity counts once: no two ranked models have the same name, and
/// the name of every candidate is ranked.
pub proof fn each_name_counts_once(fits: Seq<ModelFit>, request: StorageRequest)
    ensures
        ({
            let rows = candidates(fits, request.perfect);
            let ranked = ranking(rows, request.selection);
            &&& forall|i: int, j: int|
                0 <= i < j < ranked.len() ==> (#[trigger] ranked[i]).name != (
                #[trigger] ranked[j]).name
            &&& forall|k: int|
                0 <= k < fits.len() && qualifies(#[trigger] fits[k], request.perfect)
                    ==> exists|i: int|
                    0 <= i < ranked.len() && (#[trigger] ranked[i]).name == fits[k].model.name@
        }),
{
    let rows = candidates(fits, request.perfect);
    let ranked = ranking(rows, request.selection);
    lemma_ranking_exists(rows, request.selection);
    assert forall|i: int, j: int| 0 <= i < j < ranked.len() implies (#[trigger] ranked[i]).name
        != (#[trigger] ranked[j]).name by {
        let a = choose|a: int| is_first(rows, a) && rows[a] == ranked[i];
        let b = choose|b: int| is_first(rows, b) && rows[b] == ranked[j];
        assert(ranks_before(request.selection, ranked[i], ranked[j]));
        lemma_ranks_total(request.selection, ranked[i], ranked[j]);
        if ranked[i].name == ranked[j].name {
            assert(a == b);
        }
    }
    assert forall|k: int|
        0 <= k < fits.len() && qualifies(#[trigger] fits[k], request.perfect) implies exists|i: int|
        0 <= i < ranked.len() && (#[trigger] ranked[i]).name == fits[k].model.name@ by {
        let j = lemma_candidate_of(fits, request.perfect, k);
        let i = lemma_name_is_ranked(rows, request.selection, ranked, j);
    }
}

/// Whether `r` is what is said of a given fit that qualifies.
pub open spec fn is_said_of(fits: Seq<ModelFit>, perfect: bool, r: EstimateView) -> bool {
    exists|i: int|
        0 <= i < fits.len() && qualifies(#[trigger] fits[i], perfect) && row(fits[i]) == r
}

/// Filters precede selection: every retained model is what is said of a given fit
/// that runs, and that is perfect where perfect fits were asked for. As many are
/// retained as were asked for, or all that are eligible.
pub proof fn retained_models_qualify(fits: Seq<ModelFit>, request: StorageRequest)
    ensures
        forall|k: int|
            0 <= k < retained(fits, request).len() ==> is_said_of(
                fits,
                request.perfect,
                #[trigger] retained(fits, request)[k],
            ),
        ({
            let eligible = ranking(candidates(fits, request.perfect), request.selection).len();
            retained(fits, request).len() == if request.keep < eligible {
                request.keep as nat
            } else {
                eligible
            }
        }),
{
    let rows = candidates(fits, request.perfect);
    let ranked = ranking(rows, request.selection);
    lemma_ranking_exists(rows, request.selection);
    assert forall|k: int| 0 <= k < retained(fits, request).len() implies is_said_of(
        fits,
        request.perfect,
        #[trigger] retained(fits, request)[k],
    ) by {
        assert(retained(fits, request)[k] == ranked[k]);
        let j = choose|j: int| is_first(rows, j) && rows[j] == ranked[k];
        let i = lemma_candidate_source(fits, request.perfect, j);
    }
}

/// The best are retained: every retained model ranks before every eligible model
/// that is left out.
pub proof fn best_models_are_retained(fits: Seq<ModelFit>, request: StorageRequest)
    ensures
        ({
            let ranked = ranking(candidates(fits, request.perfect), request.selection);
            let models = retained(fits, request);
            forall|i: int, j: int|
                0 <= i < models.len() <= j < ranked.len() ==> ranks_before(
                    request.selection,
                    #[trigger] models[i],
                    #[trigger] ranked[j],
                )
        }),
{
    let rows = candidates(fits, request.perfect);
    let ranked = ranking(rows, request.selection);
    lemma_ranking_exists(rows, request.selection);
    let models = retained(fits, request);
    assert forall|i: int, j: int| 0 <= i < models.len() <= j < ranked.len() implies ranks_before(
        request.selection,
        #[trigger] models[i],
        #[trigger] ranked[j],
    ) by {
        assert(models[i] == ranked[i]);
    }
}

/// Fits that do not qualify change nothing.
pub proof fn other_fits_do_not_matter(fits: Seq<ModelFit>, request: StorageRequest)
    ensures
        candidates(
            fits.filter(|fit: ModelFit| qualifies(fit, request.perfect)),
            request.perfect,
        ) == candidates(fits, request.perfect),
        retained(
            fits.filter(|fit: ModelFit| qualifies(fit, request.perfect)),
            request,
        ) == retained(fits, request),
        estimate_fault(
            fits.filter(|fit: ModelFit| qualifies(fit, request.perfect)),
            request,
        ) == estimate_fault(fits, request),
{
    let good = |fit: ModelFit| qualifies(fit, request.perfect);
    lemma_filter_twice(fits, good);
}

proof fn lemma_filter_twice(fits: Seq<ModelFit>, good: spec_fn(ModelFit) -> bool)
    ensures
        fits.filter(good).filter(good) == fits.filter(good),
    decreases fits.len(),
{
    reveal(Seq::filter);
    if fits.len() > 0 {
        let shorter = fits.drop_last();
        lemma_filter_twice(shorter, good);
        if good(fits.last()) {
            assert(shorter.filter(good).push(fits.last()).drop_last() =~= shorter.filter(good));
        }
    }
}

/// Which models are retained does not depend on the reserve, the scratch space or
/// the headroom.
pub proof fn allowances_do_not_change_the_models(
    fits: Seq<ModelFit>,
    a: StorageRequest,
    b: StorageRequest,
)
    requires
        a.keep == b.keep,
        a.selection == b.selection,
        a.perfect == b.perfect,
    ensures
        retained(fits, a) == retained(fits, b),
        total_size(retained(fits, a)) == total_size(retained(fits, b)),
{
}

/// Whether two lists of fits have the same candidates, in any order and number.
pub open spec fn same_candidates(a: Seq<ModelFit>, b: Seq<ModelFit>, perfect: bool) -> bool {
    forall|r: EstimateView|
        candidates(a, perfect).contains(r) <==> #[trigger] candidates(b, perfect).contains(r)
}

proof fn lemma_row_in_both(rows: Seq<EstimateView>, others: Seq<EstimateView>, i: int) -> (j: int)
    requires
        forall|r: EstimateView| rows.contains(r) <==> #[trigger] others.contains(r),
        0 <= i < rows.len(),
    ensures
        0 <= j < others.len(),
        others[j] == rows[i],
{
    assert(rows.contains(rows[i]));
    assert(others.contains(rows[i]));
    choose|j: int| 0 <= j < others.len() && others[j] == rows[i]
}

proof fn lemma_first_of_name(rows: Seq<EstimateView>, i: int) -> (j: int)
    requires
        0 <= i < rows.len(),
    ensures
        is_first(rows, j),
        rows[j].name == rows[i].name,
    decreases i,
{
    if is_first(rows, i) {
        i
    } else {
        let k = choose|k: int| 0 <= k < i && rows[k].name == rows[i].name;
        lemma_first_of_name(rows, k)
    }
}

/// Whether both list the same models in the same order, their numbers compared as
/// numbers.
pub open spec fn same_models(s: Seq<EstimateView>, t: Seq<EstimateView>) -> bool {
    s.len() == t.len() && forall|k: int| 0 <= k < s.len() ==> (#[trigger] s[k]).same_as(t[k])
}

/// Whether all rows are sound, and rows with the same name say the same.
spec fn rows_agree(rows: Seq<EstimateView>) -> bool {
    &&& forall|i: int| 0 <= i < rows.len() ==> (#[trigger] rows[i]).is_sound()
    &&& forall|i: int, j: int|
        0 <= i < rows.len() && 0 <= j < rows.len() && (#[trigger] rows[i]).name == (
        #[trigger] rows[j]).name ==> rows[i].same_as(rows[j])
}

/// The first row with a name.
spec fn first_named(rows: Seq<EstimateView>, name: Seq<char>) -> EstimateView {
    choose|r: EstimateView| #[trigger] is_first_row(rows, r) && r.name == name
}

proof fn lemma_faultless_rows_agree(rows: Seq<EstimateView>)
    requires
        first_fault(rows) is None,
    ensures
        rows_agree(rows),
{
    assert forall|i: int| 0 <= i < rows.len() implies (#[trigger] rows[i]).is_sound() by {
        lemma_no_fault(rows, i);
    }
    assert forall|i: int, j: int|
        0 <= i < rows.len() && 0 <= j < rows.len() && (#[trigger] rows[i]).name == (
        #[trigger] rows[j]).name implies rows[i].same_as(rows[j]) by {
        lemma_no_fault(rows, i);
        lemma_no_fault(rows, j);
        assert(!conflicts(rows, i) && !conflicts(rows, j));
    }
}

proof fn lemma_agreeing_rows_have_no_fault(rows: Seq<EstimateView>)
    requires
        rows_agree(rows),
    ensures
        first_fault(rows) is None,
    decreases rows.len(),
{
    if rows.len() > 0 {
        let shorter = rows.drop_last();
        assert forall|i: int| 0 <= i < shorter.len() implies (#[trigger] shorter[i]).is_sound() by {
            assert(shorter[i] == rows[i]);
        }
        assert forall|i: int, j: int|
            0 <= i < shorter.len() && 0 <= j < shorter.len() && (#[trigger] shorter[i]).name == (
            #[trigger] shorter[j]).name implies shorter[i].same_as(shorter[j]) by {
            assert(shorter[i] == rows[i] && shorter[j] == rows[j]);
        }
        lemma_agreeing_rows_have_no_fault(shorter);
        assert(row_fault(rows, rows.len() - 1) is None);
    }
}

/// Rows without a fault have none in another order and number.
proof fn lemma_same_rows_agree(rows: Seq<EstimateView>, others: Seq<EstimateView>)
    requires
        forall|r: EstimateView| rows.contains(r) <==> #[trigger] others.contains(r),
        first_fault(rows) is None,
    ensures
        first_fault(others) is None,
{
    lemma_faultless_rows_agree(rows);
    assert forall|i: int| 0 <= i < others.len() implies (#[trigger] others[i]).is_sound() by {
        let x = lemma_row_in_both(others, rows, i);
    }
    assert forall|i: int, j: int|
        0 <= i < others.len() && 0 <= j < others.len() && (#[trigger] others[i]).name == (
        #[trigger] others[j]).name implies others[i].same_as(others[j]) by {
        let x = lemma_row_in_both(others, rows, i);
        let y = lemma_row_in_both(others, rows, j);
    }
    lemma_agreeing_rows_have_no_fault(others);
}

/// A row of `others` has a namesake among the first rows of `rows`, which says the same.
proof fn lemma_first_named(rows: Seq<EstimateView>, others: Seq<EstimateView>, i: int)
    requires
        forall|r: EstimateView| rows.contains(r) <==> #[trigger] others.contains(r),
        rows_agree(rows),
        0 <= i < others.len(),
    ensures
        is_first_row(rows, first_named(rows, others[i].name)),
        first_named(rows, others[i].name).same_as(others[i]),
{
    let j = lemma_row_in_both(others, rows, i);
    let f = lemma_first_of_name(rows, j);
    assert(is_first_row(rows, rows[f]));
    let r = first_named(rows, others[i].name);
    assert(is_first_row(rows, r) && r.name == others[i].name);
    let g = choose|g: int| #[trigger] is_first(rows, g) && rows[g] == r;
    assert(rows[g].same_as(rows[j]));
}

/// The same rows, in any order and number, have rankings that say the same.
proof fn lemma_rankings_of_same_rows(
    rows: Seq<EstimateView>,
    others: Seq<EstimateView>,
    selection: StorageSelection,
    s: Seq<EstimateView>,
    t: Seq<EstimateView>,
)
    requires
        is_ranking(rows, selection, s),
        is_ranking(others, selection, t),
        forall|r: EstimateView| rows.contains(r) <==> #[trigger] others.contains(r),
        first_fault(rows) is None,
    ensures
        same_models(s, t),
{
    lemma_faultless_rows_agree(rows);
    let u = Seq::new(t.len(), |k: int| first_named(rows, t[k].name));
    assert forall|k: int| 0 <= k < t.len() implies is_first_row(rows, #[trigger] u[k])
        && u[k].same_as(t[k]) by {
        assert(is_first_row(others, t[k]));
        let i = choose|i: int| #[trigger] is_first(others, i) && others[i] == t[k];
        lemma_first_named(rows, others, i);
    }
    assert forall|i: int, j: int| 0 <= i < j < u.len() implies ranks_before(
        selection,
        u[i],
        u[j],
    ) by {
        assert(u[i].same_as(t[i]) && u[j].same_as(t[j]));
        assert(ranks_before(selection, t[i], t[j]));
    }
    assert forall|i: int| #[trigger] is_first(rows, i) implies u.contains(rows[i]) by {
        let j = lemma_row_in_both(rows, others, i);
        let f = lemma_first_of_name(others, j);
        assert(t.contains(others[f]));
        let m = choose|m: int| 0 <= m < t.len() && t[m] == others[f];
        assert(is_first_row(rows, u[m]) && u[m].same_as(t[m]));
        let g = choose|g: int| #[trigger] is_first(rows, g) && rows[g] == u[m];
        assert(g == i);
        assert(u[m] == rows[i]);
    }
    lemma_ranking_unique(rows, selection, s, u);
    assert forall|k: int| 0 <= k < s.len() implies (#[trigger] s[k]).same_as(t[k]) by {
        assert(s[k] == u[k]);
    }
}

proof fn lemma_same_models_take_the_same(s: Seq<EstimateView>, t: Seq<EstimateView>)
    requires
        same_models(s, t),
        forall|k: int| 0 <= k < s.len() ==> (#[trigger] s[k]).is_sound(),
    ensures
        total_size(s) == total_size(t),
        largest_size(s) == largest_size(t),
    decreases s.len(),
{
    if s.len() > 0 {
        let n = s.len() - 1;
        assert(s[n].is_sound() && s[n].same_as(t[n]));
        lemma_positive_pattern(s[n].disk_size_gb, t[n].disk_size_gb);
        let (a, b) = (s.drop_last(), t.drop_last());
        assert forall|k: int| 0 <= k < a.len() implies (#[trigger] a[k]).is_sound()
            && a[k].same_as(b[k]) by {
            assert(a[k] == s[k] && b[k] == t[k]);
            assert(s[k].same_as(t[k]));
        }
        lemma_same_models_take_the_same(a, b);
    }
}

/// The order in which the catalog lists its models does not matter, nor how often
/// it lists one: the same candidates give the same library, or fail together.
/// The models of both are the same with their numbers compared as numbers, for a
/// catalog may list a score as zero and as negative zero.
pub proof fn order_of_fits_does_not_matter(
    a: Seq<ModelFit>,
    b: Seq<ModelFit>,
    request: StorageRequest,
)
    requires
        same_candidates(a, b, request.perfect),
    ensures
        first_fault(candidates(a, request.perfect)) is None <==> first_fault(
            candidates(b, request.perfect),
        ) is None,
        estimate_fault(a, request) is None <==> estimate_fault(b, request) is None,
        first_fault(candidates(a, request.perfect)) is None ==> {
            &&& same_models(
                ranking(candidates(a, request.perfect), request.selection),
                ranking(candidates(b, request.perfect), request.selection),
            )
            &&& same_models(retained(a, request), retained(b, request))
            &&& total_size(retained(a, request)) == total_size(retained(b, request))
            &&& largest_size(retained(a, request)) == largest_size(retained(b, request))
        },
{
    let rows = candidates(a, request.perfect);
    let others = candidates(b, request.perfect);
    let s = ranking(rows, request.selection);
    let t = ranking(others, request.selection);
    assert forall|r: EstimateView| others.contains(r) <==> #[trigger] rows.contains(r) by {
        assert(rows.contains(r) <==> others.contains(r));
    }
    if first_fault(rows) is None {
        lemma_same_rows_agree(rows, others);
        lemma_ranking_exists(rows, request.selection);
        lemma_ranking_exists(others, request.selection);
        lemma_rankings_of_same_rows(rows, others, request.selection, s, t);
        let (x, y) = (retained(a, request), retained(b, request));
        assert forall|k: int| 0 <= k < x.len() implies (#[trigger] x[k]).same_as(y[k]) by {
            assert(x[k] == s[k] && y[k] == t[k]);
        }
        lemma_retained_sound(a, request);
        lemma_same_models_take_the_same(x, y);
    }
    if first_fault(others) is None {
        lemma_same_rows_agree(others, rows);
    }
}

// What the library takes on disk.

proof fn lemma_retained_sound(fits: Seq<ModelFit>, request: StorageRequest)
    requires
        first_fault(candidates(fits, request.perfect)) is None,
    ensures
        forall|k: int|
            0 <= k < retained(fits, request).len() ==> (#[trigger] retained(
                fits,
                request,
            )[k]).is_sound(),
{
    let rows = candidates(fits, request.perfect);
    let ranked = ranking(rows, request.selection);
    lemma_ranking_exists(rows, request.selection);
    assert forall|k: int| 0 <= k < retained(fits, request).len() implies (#[trigger] retained(
        fits,
        request,
    )[k]).is_sound() by {
        assert(retained(fits, request)[k] == ranked[k]);
        assert(is_first_row(rows, ranked[k]));
        let i = choose|i: int| #[trigger] is_first(rows, i) && rows[i] == ranked[k];
        lemma_no_fault(rows, i);
    }
}

proof fn lemma_sizes_are_amounts(models: Seq<EstimateView>)
    requires
        forall|k: int| 0 <= k < models.len() ==> (#[trigger] models[k]).is_sound(),
    ensures
        total_size(models).is_unsigned_amount(),
        total_size(models).is_amount(),
        largest_size(models).is_amount(),
    decreases models.len(),
{
    lemma_one();
    if models.len() > 0 {
        let shorter = models.drop_last();
        assert forall|k: int| 0 <= k < shorter.len() implies (#[trigger] shorter[k]).is_sound() by {
            assert(shorter[k] == models[k]);
        }
        lemma_sizes_are_amounts(shorter);
        assert(models[models.len() - 1].is_sound());
        let size = models.last().disk_size_gb;
        lemma_amount_pattern(size);
        lemma_sum_at_least(total_size(shorter), size);
        lemma_amount_pattern(total_size(models));
    }
}

/// The first models take no more than all of them.
proof fn lemma_prefix_sizes(models: Seq<EstimateView>, n: int)
    requires
        forall|k: int| 0 <= k < models.len() ==> (#[trigger] models[k]).is_sound(),
        0 <= n <= models.len(),
    ensures
        total_size(models.take(n)).number() <= total_size(models).number(),
        largest_size(models.take(n)).number() <= largest_size(models).number(),
    decreases models.len(),
{
    if n == models.len() {
        assert(models.take(n) =~= models);
    } else {
        let shorter = models.drop_last();
        assert forall|k: int| 0 <= k < shorter.len() implies (#[trigger] shorter[k]).is_sound() by {
            assert(shorter[k] == models[k]);
        }
        lemma_prefix_sizes(shorter, n);
        assert(shorter.take(n) =~= models.take(n));
        lemma_sizes_are_amounts(shorter);
        assert(models[models.len() - 1].is_sound());
        lemma_sum_at_least(total_size(shorter), models.last().disk_size_gb);
    }
}

/// What a valid request needs is an amount, and covers the reserve, the library and
/// the scratch space each.
pub proof fn need_covers_its_parts(fits: Seq<ModelFit>, request: StorageRequest)
    requires
        request_fault(request) is None,
        first_fault(candidates(fits, request.perfect)) is None,
    ensures
        ({
            let models = retained(fits, request);
            let need = need_of(models, request);
            &&& need.is_amount()
            &&& need.is_unsigned_amount()
            &&& request.os_reserve_gb.number() <= need.number()
            &&& total_size(models).number() <= need.number()
            &&& scratch_size(models, request.scratch).number() <= need.number()
        }),
{
    let models = retained(fits, request);
    lemma_retained_sound(fits, request);
    lemma_sizes_are_amounts(models);
    lemma_one();
    let first = sum(request.os_reserve_gb, total_size(models));
    let scratch = scratch_size(models, request.scratch);
    lemma_sum_at_least(request.os_reserve_gb, total_size(models));
    lemma_sum_at_least(first, scratch);
    lemma_amount_pattern(first);
    lemma_amount_pattern(sum(first, scratch));
}

/// The target capacity is never below the need, so the suggested drive is never
/// smaller than the smallest that holds the library.
pub proof fn headroom_never_shrinks_the_drive(
    fits: Seq<ModelFit>,
    request: StorageRequest,
    minimum: Option<u32>,
    suggested: Option<u32>,
)
    requires
        request_fault(request) is None,
        first_fault(candidates(fits, request.perfect)) is None,
        is_next_tier(need_of(retained(fits, request), request), minimum),
        is_next_tier(target_of(retained(fits, request), request), suggested),
    ensures
        need_of(retained(fits, request), request).number() <= target_of(
            retained(fits, request),
            request,
        ).number(),
        suggested is Some ==> minimum is Some && minimum->0 <= suggested->0,
{
    need_covers_its_parts(fits, request);
    lemma_usable_share(request.headroom_percent);
    let need = need_of(retained(fits, request), request);
    let share = usable_share(request.headroom_percent);
    lemma_quotient_at_least(need, share);
    next_tier_is_monotone(need, quotient(need, share), minimum, suggested);
}

/// The suggested drive leaves the headroom free: the usable share of the next larger
/// number than its capacity exceeds the need. `pattern` is that of the capacity.
pub proof fn suggested_drive_leaves_the_headroom(
    fits: Seq<ModelFit>,
    request: StorageRequest,
    tier: u32,
    pattern: u64,
)
    requires
        request_fault(request) is None,
        first_fault(candidates(fits, request.perfect)) is None,
        need_of(retained(fits, request), request).is_finite(),
        is_next_tier(target_of(retained(fits, request), request), Some(tier)),
        pattern < INFINITY_BITS,
        magnitude(pattern as int) == tier * unit(),
    ensures
        need_of(retained(fits, request), request).number() * unit() < magnitude(pattern + 1)
            * usable_share(request.headroom_percent).number(),
{
    need_covers_its_parts(fits, request);
    lemma_usable_share(request.headroom_percent);
    let need = need_of(retained(fits, request), request);
    let share = usable_share(request.headroom_percent);
    let target = quotient(need, share);
    let p = (need.number() * unit()) as nat;
    let q = share.number() as nat;
    let next = (pattern + 1) as u64;
    lemma_quotient_at_least(need, share);
    if magnitude(next as int) * q <= p {
        lemma_rounded_at_least(p, q, next);
        lemma_magnitude_increases(pattern as int, target.bits as int);
    }
}

/// A smaller need never takes a larger drive.
pub proof fn next_tier_is_monotone(
    a: Binary64,
    b: Binary64,
    tier_a: Option<u32>,
    tier_b: Option<u32>,
)
    requires
        !a.is_nan(),
        !b.is_nan(),
        a.number() <= b.number(),
        is_next_tier(a, tier_a),
        is_next_tier(b, tier_b),
    ensures
        tier_b is Some ==> tier_a is Some && tier_a->0 <= tier_b->0,
{
    if let Some(tier) = tier_b {
        let i = choose|i: int| 0 <= i < SSD_TIERS_GB@.len() && SSD_TIERS_GB@[i] == tier;
        assert(a.number() <= SSD_TIERS_GB@[i] * unit());
    }
}

/// Without headroom the target capacity is the need itself.
pub proof fn no_headroom_targets_the_need(fits: Seq<ModelFit>, request: StorageRequest)
    requires
        request_fault(request) is None,
        first_fault(candidates(fits, request.perfect)) is None,
        request.headroom_percent == 0,
    ensures
        target_of(retained(fits, request), request) == need_of(retained(fits, request), request),
{
    need_covers_its_parts(fits, request);
    lemma_usable_share(0);
    lemma_one();
    let u = unit();
    assert(0 * u == 0) by (nonlinear_arith);
    lemma_rounded_at_most(0, 100, 0);
    assert(ratio(0, 100) == zero());
    assert(ratio(1, 1).number() - ratio(0, 100).number() == u);
    assert(u * 1 == u);
    lemma_rounded_at_least(u, 1, ONE_BITS);
    lemma_rounded_at_most(u, 1, ONE_BITS);
    lemma_quotient_by_one(need_of(retained(fits, request), request));
}

/// An explicit scratch space replaces the automatic one, whatever the models take.
pub proof fn explicit_scratch_replaces_automatic(models: Seq<EstimateView>, gb: Binary64)
    ensures
        models.len() > 0 ==> scratch_size(models, ScratchPolicy::Fixed(gb)) == gb,
        models.len() == 0 ==> scratch_size(models, ScratchPolicy::Fixed(gb)) == zero(),
{
}

/// Retaining more models never reduces the capacity, for a fixed selection.
pub proof fn retaining_more_never_reduces_capacity(
    fits: Seq<ModelFit>,
    a: StorageRequest,
    b: StorageRequest,
)
    requires
        request_fault(a) is None,
        request_fault(b) is None,
        first_fault(candidates(fits, a.perfect)) is None,
        a.keep <= b.keep,
        a.selection == b.selection,
        a.perfect == b.perfect,
        a.os_reserve_gb == b.os_reserve_gb,
        a.scratch == b.scratch,
        a.headroom_percent == b.headroom_percent,
    ensures
        total_size(retained(fits, a)).number() <= total_size(retained(fits, b)).number(),
        need_of(retained(fits, a), a).number() <= need_of(retained(fits, b), b).number(),
        target_of(retained(fits, a), a).number() <= target_of(retained(fits, b), b).number(),
{
    let fewer = retained(fits, a);
    let more = retained(fits, b);
    lemma_retained_sound(fits, a);
    lemma_retained_sound(fits, b);
    assert(more.take(fewer.len() as int) =~= fewer);
    lemma_prefix_sizes(more, fewer.len() as int);
    lemma_sizes_are_amounts(fewer);
    lemma_sizes_are_amounts(more);
    lemma_one();
    let first_a = sum(a.os_reserve_gb, total_size(fewer));
    let first_b = sum(b.os_reserve_gb, total_size(more));
    lemma_sum_at_least(a.os_reserve_gb, total_size(fewer));
    lemma_sum_at_least(b.os_reserve_gb, total_size(more));
    lemma_sum_monotone(a.os_reserve_gb, total_size(fewer), b.os_reserve_gb, total_size(more));
    lemma_sum_monotone(
        first_a,
        scratch_size(fewer, a.scratch),
        first_b,
        scratch_size(more, b.scratch),
    );
    need_covers_its_parts(fits, a);
    need_covers_its_parts(fits, b);
    lemma_usable_share(a.headroom_percent);
    lemma_quotient_monotone(
        need_of(fewer, a),
        need_of(more, b),
        usable_share(a.headroom_percent),
    );
}

/// A larger reserve never takes less.
pub proof fn larger_reserve_never_reduces_capacity(
    fits: Seq<ModelFit>,
    a: StorageRequest,
    b: StorageRequest,
)
    requires
        request_fault(a) is None,
        request_fault(b) is None,
        first_fault(candidates(fits, a.perfect)) is None,
        a.os_reserve_gb.number() <= b.os_reserve_gb.number(),
        a.keep == b.keep,
        a.selection == b.selection,
        a.perfect == b.perfect,
        a.scratch == b.scratch,
    ensures
        need_of(retained(fits, a), a).number() <= need_of(retained(fits, b), b).number(),
{
    let models = retained(fits, a);
    lemma_retained_sound(fits, a);
    lemma_sizes_are_amounts(models);
    lemma_one();
    let scratch = scratch_size(models, a.scratch);
    lemma_sum_at_least(a.os_reserve_gb, total_size(models));
    lemma_sum_at_least(b.os_reserve_gb, total_size(models));
    lemma_sum_monotone(
        a.os_reserve_gb,
        total_size(models),
        b.os_reserve_gb,
        total_size(models),
    );
    lemma_sum_monotone(
        sum(a.os_reserve_gb, total_size(models)),
        scratch,
        sum(b.os_reserve_gb, total_size(models)),
        scratch,
    );
}

/// At most one tier is the next.
pub proof fn next_tier_is_unique(need: Binary64, a: Option<u32>, b: Option<u32>)
    requires
        is_next_tier(need, a),
        is_next_tier(need, b),
    ensures
        a == b,
{
    if let Some(tier) = a {
        let i = choose|i: int| 0 <= i < SSD_TIERS_GB@.len() && SSD_TIERS_GB@[i] == tier;
        assert(need.number() <= SSD_TIERS_GB@[i] * unit());
    }
    if let Some(tier) = b {
        let i = choose|i: int| 0 <= i < SSD_TIERS_GB@.len() && SSD_TIERS_GB@[i] == tier;
        assert(need.number() <= SSD_TIERS_GB@[i] * unit());
    }
}

/// Estimates are deterministic: two of them for the same candidates, listed in any
/// order and number, say the same. Their models are compared as the catalog's
/// duplicates are, with numbers as numbers; all else is the same bit by bit.
pub proof fn estimates_are_deterministic(
    a: Seq<ModelFit>,
    b: Seq<ModelFit>,
    request: StorageRequest,
    x: StorageEstimate,
    y: StorageEstimate,
)
    requires
        same_candidates(a, b, request.perfect),
        estimate_fault(a, request) is None,
        is_estimate(x, a, request),
        is_estimate(y, b, request),
    ensures
        same_models(views(x.models@), views(y.models@)),
        x.selection == y.selection,
        x.keep_requested == y.keep_requested,
        x.selected_count == y.selected_count,
        x.eligible_count == y.eligible_count,
        x.perfect == y.perfect,
        x.library_gb == y.library_gb,
        x.os_reserve_gb == y.os_reserve_gb,
        x.scratch_policy == y.scratch_policy,
        x.download_scratch_gb == y.download_scratch_gb,
        x.headroom_percent == y.headroom_percent,
        x.need_gb == y.need_gb,
        x.target_capacity_gb == y.target_capacity_gb,
        x.minimum_ssd_gb == y.minimum_ssd_gb,
        x.suggested_ssd_gb == y.suggested_ssd_gb,
        x.estimate_notice@ == y.estimate_notice@,
        texts(x.warnings@) == texts(y.warnings@),
{
    order_of_fits_does_not_matter(a, b, request);
    if retained(a, request).len() > 0 {
        next_tier_is_unique(x.need_gb, x.minimum_ssd_gb, y.minimum_ssd_gb);
        next_tier_is_unique(x.target_capacity_gb, x.suggested_ssd_gb, y.suggested_ssd_gb);
    }
}

// What a report says, in terms of the fits and the request.

/// Whether a fit level is one that was asked for: one that runs, and the perfect one
/// where perfect fits alone were asked for.
pub open spec fn level_asked_for(level: FitLevel, perfect: bool) -> bool {
    match level {
        FitLevel::Perfect => true,
        FitLevel::Good => !perfect,
        FitLevel::Marginal => !perfect,
        FitLevel::TooTight => false,
    }
}

/// Whether an estimate says of a model what its fit says.
pub open spec fn describes(model: StorageModelEstimate, fit: ModelFit) -> bool {
    &&& model.name@ == fit.model.name@
    &&& model.best_quant@ == fit.best_quant@
    &&& model.fit_level == fit.fit_level
    &&& model.runtime == fit.runtime
    &&& model.score == fit.score
    &&& model.disk_size_gb == fit.disk_size_gb
    &&& model.effective_context_length == fit.effective_context_length
}

/// Whether an estimate describes one of the fits, at a level that was asked for.
pub open spec fn describes_one_of(
    fits: Seq<ModelFit>,
    perfect: bool,
    model: StorageModelEstimate,
) -> bool {
    exists|i: int|
        0 <= i < fits.len() && describes(model, #[trigger] fits[i]) && level_asked_for(
            fits[i].fit_level,
            perfect,
        )
}

/// Whether a fit of the level asked for has this name.
pub open spec fn names_one_of(fits: Seq<ModelFit>, perfect: bool, name: Seq<char>) -> bool {
    exists|i: int|
        0 <= i < fits.len() && (#[trigger] fits[i]).model.name@ == name && level_asked_for(
            fits[i].fit_level,
            perfect,
        )
}

/// Every model of a report runs, and is perfect where perfect fits alone were asked for.
pub proof fn models_have_the_level_asked_for(
    fits: Seq<ModelFit>,
    request: StorageRequest,
    report: StorageEstimate,
    k: int,
)
    requires
        is_estimate(report, fits, request),
        0 <= k < report.models@.len(),
    ensures
        report.models@[k].fit_level != FitLevel::TooTight,
        request.perfect ==> report.models@[k].fit_level == FitLevel::Perfect,
{
    models_describe_fits(fits, request, report, k);
}

/// Every model of a report is described as one of the given fits, of a level that was
/// asked for.
pub proof fn models_describe_fits(
    fits: Seq<ModelFit>,
    request: StorageRequest,
    report: StorageEstimate,
    k: int,
)
    requires
        is_estimate(report, fits, request),
        0 <= k < report.models@.len(),
    ensures
        describes_one_of(fits, request.perfect, report.models@[k]),
{
    let rows = candidates(fits, request.perfect);
    let ranked = ranking(rows, request.selection);
    lemma_ranking_exists(rows, request.selection);
    assert(views(report.models@)[k] == report.models@[k]@);
    assert(ranked[k] == report.models@[k]@);
    assert(is_first_row(rows, ranked[k]));
    let j = choose|j: int| #[trigger] is_first(rows, j) && rows[j] == ranked[k];
    let i = lemma_candidate_source(fits, request.perfect, j);
    assert(describes(report.models@[k], fits[i]));
}

/// Each name counts once: the eligible models of a report have the names of the fits of
/// a level that was asked for, all of them and no other, each once. The models retained
/// are the first of them, as many as were asked for as far as there are so many.
pub proof fn eligible_names_are_counted_once(
    fits: Seq<ModelFit>,
    request: StorageRequest,
    report: StorageEstimate,
) -> (names: Seq<Seq<char>>)
    requires
        is_estimate(report, fits, request),
    ensures
        names.len() == report.eligible_count,
        names.no_duplicates(),
        forall|k: int|
            0 <= k < names.len() ==> names_one_of(fits, request.perfect, #[trigger] names[k]),
        forall|i: int|
            0 <= i < fits.len() && (#[trigger] fits[i]).fit_level != FitLevel::TooTight && (
            request.perfect ==> fits[i].fit_level == FitLevel::Perfect) ==> names.contains(
                fits[i].model.name@,
            ),
        report.selected_count == report.models@.len(),
        report.models@.len() == if request.keep < names.len() {
            request.keep as nat
        } else {
            names.len()
        },
        forall|k: int|
            0 <= k < report.models@.len() ==> (#[trigger] report.models@[k]).name@ == names[k],
{
    let rows = candidates(fits, request.perfect);
    let ranked = ranking(rows, request.selection);
    lemma_ranking_exists(rows, request.selection);
    each_name_counts_once(fits, request);
    let names = Seq::new(ranked.len(), |k: int| ranked[k].name);
    assert forall|k: int| 0 <= k < names.len() implies names_one_of(
        fits,
        request.perfect,
        #[trigger] names[k],
    ) by {
        assert(is_first_row(rows, ranked[k]));
        let j = choose|j: int| #[trigger] is_first(rows, j) && rows[j] == ranked[k];
        let i = lemma_candidate_source(fits, request.perfect, j);
        assert(fits[i].model.name@ == names[k]);
    }
    assert forall|i: int|
        0 <= i < fits.len() && (#[trigger] fits[i]).fit_level != FitLevel::TooTight && (
        request.perfect ==> fits[i].fit_level == FitLevel::Perfect) implies names.contains(
        fits[i].model.name@,
    ) by {
        assert(qualifies(fits[i], request.perfect));
        let k = choose|k: int| 0 <= k < ranked.len() && (#[trigger] ranked[k]).name
            == fits[i].model.name@;
        assert(names[k] == fits[i].model.name@);
    }
    assert forall|k: int| 0 <= k < report.models@.len() implies (
    #[trigger] report.models@[k]).name@ == names[k] by {
        assert(views(report.models@)[k] == report.models@[k]@);
    }
    assert(views(report.models@).len() == report.models@.len());
    names
}

/// Whether one model goes before another, given what they score, what they take on disk
/// and their names: by score, or first by size; the name decides between equals.
pub open spec fn goes_before(
    selection: StorageSelection,
    score: int,
    size: int,
    name: Seq<char>,
    other_score: int,
    other_size: int,
    other_name: Seq<char>,
) -> bool {
    ||| selection == StorageSelection::Largest && size > other_size
    ||| (selection == StorageSelection::Score || size == other_size) && score > other_score
    ||| (selection == StorageSelection::Score || size == other_size) && score == other_score
        && comes_before(name, other_name)
}

/// The models of a report are in order, the best first.
pub proof fn models_are_in_order(
    fits: Seq<ModelFit>,
    request: StorageRequest,
    report: StorageEstimate,
    i: int,
    j: int,
)
    requires
        is_estimate(report, fits, request),
        0 <= i < j < report.models@.len(),
    ensures
        ({
            let (a, b) = (report.models@[i], report.models@[j]);
            goes_before(
                request.selection,
                a.score.number(),
                a.disk_size_gb.number(),
                a.name@,
                b.score.number(),
                b.disk_size_gb.number(),
                b.name@,
            )
        }),
{
    let rows = candidates(fits, request.perfect);
    let ranked = ranking(rows, request.selection);
    lemma_ranking_exists(rows, request.selection);
    assert(views(report.models@)[i] == report.models@[i]@);
    assert(views(report.models@)[j] == report.models@[j]@);
    assert(ranked[i] == report.models@[i]@ && ranked[j] == report.models@[j]@);
    assert(ranks_before(request.selection, ranked[i], ranked[j]));
}

/// Nothing better is left out: a fit of a level that was asked for has its name among
/// the models retained, or every model retained goes before it.
pub proof fn nothing_better_is_left_out(
    fits: Seq<ModelFit>,
    request: StorageRequest,
    report: StorageEstimate,
    i: int,
    k: int,
)
    requires
        is_estimate(report, fits, request),
        estimate_fault(fits, request) is None,
        0 <= i < fits.len(),
        fits[i].fit_level != FitLevel::TooTight,
        request.perfect ==> fits[i].fit_level == FitLevel::Perfect,
        forall|j: int|
            0 <= j < report.models@.len() ==> (#[trigger] report.models@[j]).name@
                != fits[i].model.name@,
        0 <= k < report.models@.len(),
    ensures
        goes_before(
            request.selection,
            report.models@[k].score.number(),
            report.models@[k].disk_size_gb.number(),
            report.models@[k].name@,
            fits[i].score.number(),
            fits[i].disk_size_gb.number(),
            fits[i].model.name@,
        ),
        report.models@.len() == request.keep,
{
    let rows = candidates(fits, request.perfect);
    let ranked = ranking(rows, request.selection);
    lemma_ranking_exists(rows, request.selection);
    assert(qualifies(fits[i], request.perfect));
    let c = lemma_candidate_of(fits, request.perfect, i);
    let r = lemma_name_is_ranked(rows, request.selection, ranked, c);
    assert(views(report.models@)[k] == report.models@[k]@);
    assert(ranked[k] == report.models@[k]@);
    if r < report.models@.len() {
        assert(views(report.models@)[r] == report.models@[r]@);
        assert(report.models@[r].name@ == fits[i].model.name@);
    }
    assert(ranks_before(request.selection, ranked[k], ranked[r]));
    lemma_faultless_rows_agree(rows);
    assert(is_first_row(rows, ranked[r]));
    let f = choose|f: int| #[trigger] is_first(rows, f) && rows[f] == ranked[r];
    assert(rows[f].same_as(rows[c]));
}

/// A report repeats what was asked for, and carries the same notice as every other.
pub proof fn reports_repeat_the_request(
    fits: Seq<ModelFit>,
    request: StorageRequest,
    report: StorageEstimate,
)
    requires
        is_estimate(report, fits, request),
    ensures
        report.selection == request.selection,
        report.keep_requested == request.keep,
        report.perfect == request.perfect,
        report.os_reserve_gb == request.os_reserve_gb,
        report.scratch_policy == request.scratch,
        report.headroom_percent == request.headroom_percent,
        report.estimate_notice@
            == "Estimated weights in decimal GB for one library copy used sequentially. Actual artifacts, auxiliary files, and runtime caches may differ. Automatic scratch covers one additional download as large as the largest selected model. Reserve and free headroom are planning allowances; current disk usage is not measured."@,
{
}

// What the numbers of a report are.

/// A library takes what its models take, added one by one and rounded each time: nothing
/// without models, and with one more model the number nearest to what it took and what
/// the model takes.
pub proof fn libraries_add_up(models: Seq<EstimateView>, m: EstimateView)
    requires
        forall|k: int| 0 <= k < models.len() ==> (#[trigger] models[k]).is_sound(),
        m.is_sound(),
        total_size(models).is_finite(),
    ensures
        total_size(Seq::empty()).bits == 0,
        rounds_to(
            (total_size(models).number() + m.disk_size_gb.number()) as nat,
            1,
            total_size(models.push(m)).bits,
        ),
        total_size(seq![m]) == m.disk_size_gb,
{
    lemma_sizes_are_amounts(models);
    lemma_amount_pattern(m.disk_size_gb);
    assert(models.push(m).drop_last() =~= models);
    lemma_rounded_exists((total_size(models).number() + m.disk_size_gb.number()) as nat, 1);
    let one = seq![m];
    assert(one.drop_last() =~= Seq::empty());
    assert(total_size(one.drop_last()) == zero());
    lemma_one();
    lemma_rounded_exact(m.disk_size_gb.bits, 1);
}

/// One more model retained adds what it takes: of two reports that differ in how many
/// models are asked for by one, the second holds the models of the first, and one more
/// if there is one.
pub proof fn one_more_model_adds_what_it_takes(
    fits: Seq<ModelFit>,
    a: StorageRequest,
    b: StorageRequest,
    x: StorageEstimate,
    y: StorageEstimate,
)
    requires
        is_estimate(x, fits, a),
        is_estimate(y, fits, b),
        estimate_fault(fits, a) is None,
        estimate_fault(fits, b) is None,
        a.keep + 1 == b.keep,
        a.selection == b.selection,
        a.perfect == b.perfect,
    ensures
        x.models@.len() <= y.models@.len() <= x.models@.len() + 1,
        forall|k: int|
            0 <= k < x.models@.len() ==> {
                &&& (#[trigger] x.models@[k]).name@ == y.models@[k].name@
                &&& x.models@[k].disk_size_gb == y.models@[k].disk_size_gb
                &&& x.models@[k].score == y.models@[k].score
            },
        y.models@.len() == x.models@.len() ==> y.library_gb == x.library_gb,
        y.models@.len() == x.models@.len() + 1 ==> rounds_to(
            (x.library_gb.number() + y.models@.last().disk_size_gb.number()) as nat,
            1,
            y.library_gb.bits,
        ),
{
    let (u, v) = (retained(fits, a), retained(fits, b));
    lemma_retained_sound(fits, a);
    lemma_retained_sound(fits, b);
    assert(views(x.models@).len() == x.models@.len() && views(y.models@).len() == y.models@.len());
    assert forall|k: int| 0 <= k < x.models@.len() implies {
        &&& (#[trigger] x.models@[k]).name@ == y.models@[k].name@
        &&& x.models@[k].disk_size_gb == y.models@[k].disk_size_gb
        &&& x.models@[k].score == y.models@[k].score
    } by {
        assert(views(x.models@)[k] == x.models@[k]@);
        assert(views(y.models@)[k] == y.models@[k]@);
        assert(u[k] == v[k]);
    }
    if v.len() == u.len() {
        assert(u =~= v);
    } else {
        let m = v.last();
        assert(v =~= u.push(m));
        assert(views(y.models@)[v.len() - 1] == y.models@[v.len() - 1]@);
        assert(v[v.len() - 1].is_sound());
        lemma_library_is_finite(fits, a);
        libraries_add_up(u, m);
    }
}

/// What a report says a library takes is finite.
proof fn lemma_library_is_finite(fits: Seq<ModelFit>, request: StorageRequest)
    requires
        estimate_fault(fits, request) is None,
    ensures
        ({
            let models = retained(fits, request);
            &&& total_size(models).is_finite()
            &&& total_size(models).is_unsigned_amount()
            &&& scratch_size(models, request.scratch).is_amount()
            &&& scratch_size(models, request.scratch).is_finite()
            &&& need_of(models, request).is_finite()
            &&& need_of(models, request).is_unsigned_amount()
        }),
{
    let models = retained(fits, request);
    need_covers_its_parts(fits, request);
    lemma_retained_sound(fits, request);
    lemma_sizes_are_amounts(models);
    let need = need_of(models, request);
    let (total, scratch) = (total_size(models), scratch_size(models, request.scratch));
    lemma_amount_pattern(need);
    lemma_amount_pattern(total);
    lemma_one();
    if !total.is_finite() {
        lemma_magnitude_increases(need.bits as int, INFINITY_BITS as int);
    }
    lemma_amount_pattern(scratch);
    if !scratch.is_finite() {
        lemma_magnitude_increases(need.bits as int, INFINITY_BITS as int);
    }
}

/// The library of one model takes what the model takes, and that of none takes nothing.
pub proof fn one_model_takes_its_size(
    fits: Seq<ModelFit>,
    request: StorageRequest,
    report: StorageEstimate,
)
    requires
        is_estimate(report, fits, request),
        estimate_fault(fits, request) is None,
    ensures
        report.models@.len() == 0 ==> report.library_gb.number() == 0
            && report.download_scratch_gb.number() == 0,
        report.models@.len() == 1 ==> report.library_gb == report.models@[0].disk_size_gb,
{
    let models = retained(fits, request);
    lemma_retained_sound(fits, request);
    lemma_one();
    assert(views(report.models@).len() == report.models@.len());
    if models.len() == 1 {
        assert(views(report.models@)[0] == report.models@[0]@);
        assert(models[0].is_sound());
        assert(models =~= seq![models[0]]);
        let none = Seq::<EstimateView>::empty();
        assert(total_size(none) == zero());
        libraries_add_up(none, models[0]);
    }
}

/// The room for a download is what was asked for, or by default what the largest model
/// retained takes: no model takes more, and one takes as much.
pub proof fn downloads_have_room(
    fits: Seq<ModelFit>,
    request: StorageRequest,
    report: StorageEstimate,
) -> (largest: int)
    requires
        is_estimate(report, fits, request),
        estimate_fault(fits, request) is None,
        report.models@.len() > 0,
    ensures
        request.scratch matches ScratchPolicy::Fixed(gb) ==> report.download_scratch_gb == gb,
        request.scratch is Auto ==> {
            &&& 0 <= largest < report.models@.len()
            &&& report.download_scratch_gb == report.models@[largest].disk_size_gb
            &&& forall|k: int|
                0 <= k < report.models@.len() ==> (
                #[trigger] report.models@[k]).disk_size_gb.number()
                    <= report.download_scratch_gb.number()
        },
{
    let models = retained(fits, request);
    lemma_retained_sound(fits, request);
    assert(views(report.models@).len() == report.models@.len());
    let largest = lemma_largest(models);
    assert(views(report.models@)[largest] == report.models@[largest]@);
    assert forall|k: int| 0 <= k < report.models@.len() implies (
    #[trigger] report.models@[k]).disk_size_gb.number() <= largest_size(models).number() by {
        assert(views(report.models@)[k] == report.models@[k]@);
        assert(models[k].disk_size_gb.number() <= largest_size(models).number());
    }
    largest
}

proof fn lemma_largest(models: Seq<EstimateView>) -> (largest: int)
    requires
        models.len() > 0,
        forall|k: int| 0 <= k < models.len() ==> (#[trigger] models[k]).is_sound(),
    ensures
        0 <= largest < models.len(),
        largest_size(models) == models[largest].disk_size_gb,
        forall|k: int|
            0 <= k < models.len() ==> (#[trigger] models[k]).disk_size_gb.number()
                <= largest_size(models).number(),
    decreases models.len(),
{
    let n = models.len() - 1;
    let shorter = models.drop_last();
    assert(models[n].is_sound());
    assert(forall|k: int| 0 <= k < n ==> #[trigger] shorter[k] == models[k]);
    lemma_one();
    if n == 0 {
        assert(largest_size(shorter) == zero());
        0
    } else {
        let before = lemma_largest(shorter);
        assert forall|k: int| 0 <= k < models.len() implies (
        #[trigger] models[k]).disk_size_gb.number() <= largest_size(models).number() by {
            if k < n {
                assert(shorter[k] == models[k]);
            }
        }
        if largest_size(shorter).number() < models[n].disk_size_gb.number() {
            n
        } else {
            before
        }
    }
}

/// What is needed is the reserve and the library, and to that the room for a download,
/// rounded each time. `first` is the pattern of the first sum.
pub proof fn needs_add_up(
    fits: Seq<ModelFit>,
    request: StorageRequest,
    report: StorageEstimate,
) -> (first: u64)
    requires
        is_estimate(report, fits, request),
        estimate_fault(fits, request) is None,
    ensures
        rounds_to(
            (request.os_reserve_gb.number() + report.library_gb.number()) as nat,
            1,
            first,
        ),
        rounds_to(
            magnitude(first as int) + report.download_scratch_gb.number() as nat,
            1,
            report.need_gb.bits,
        ),
        report.need_gb.is_finite(),
        report.download_scratch_gb.number() >= 0,
{
    let models = retained(fits, request);
    lemma_library_is_finite(fits, request);
    need_sums_are_nearest(models, request);
    sum(request.os_reserve_gb, total_size(models)).bits
}

/// What is needed for some models is the nearest to the exact sums, and infinite where
/// these are too large.
proof fn need_sums_are_nearest(models: Seq<EstimateView>, request: StorageRequest)
    requires
        request_fault(request) is None,
        total_size(models).is_unsigned_amount(),
        scratch_size(models, request.scratch).is_amount(),
    ensures
        ({
            let first = sum(request.os_reserve_gb, total_size(models));
            let scratch = scratch_size(models, request.scratch);
            &&& rounds_to(
                (request.os_reserve_gb.number() + total_size(models).number()) as nat,
                1,
                first.bits,
            )
            &&& rounds_to(
                magnitude(first.bits as int) + scratch.number() as nat,
                1,
                need_of(models, request).bits,
            )
        }),
{
    let (a, b) = (request.os_reserve_gb, total_size(models));
    let first = sum(a, b);
    let scratch = scratch_size(models, request.scratch);
    lemma_sum_is_nearest(a, b);
    lemma_sum_at_least(a, b);
    lemma_amount_pattern(first);
    lemma_sum_is_nearest(first, scratch);
}

/// A sum with an unsigned amount is the nearest to the exact one.
proof fn lemma_sum_is_nearest(a: Binary64, b: Binary64)
    requires
        a.is_amount(),
        b.is_amount(),
        a.is_unsigned_amount() || b.is_unsigned_amount(),
    ensures
        rounds_to((a.number() + b.number()) as nat, 1, sum(a, b).bits),
{
    lemma_amount_pattern(a);
    lemma_amount_pattern(b);
    let p = (a.number() + b.number()) as nat;
    lemma_rounded_exists(p, 1);
    if !a.is_finite() || !b.is_finite() {
        lemma_rounded_at_least(p, 1, INFINITY_BITS);
    }
}

/// The capacity to aim at is what is needed over the share of a drive that may be
/// filled, rounded each time: `free` is the pattern of the headroom as a fraction and
/// `share` that of the rest of one.
pub proof fn targets_leave_the_headroom(
    fits: Seq<ModelFit>,
    request: StorageRequest,
    report: StorageEstimate,
) -> (parts: (u64, u64))
    requires
        is_estimate(report, fits, request),
        estimate_fault(fits, request) is None,
    ensures
        ({
            let (free, share) = parts;
            &&& rounds_to(request.headroom_percent as nat * unit(), 100, free)
            &&& magnitude(free as int) < unit()
            &&& rounds_to((unit() - magnitude(free as int)) as nat, 1, share)
            &&& magnitude(share as int) > 0
            &&& rounds_to(
                (report.need_gb.number() * unit()) as nat,
                magnitude(share as int),
                report.target_capacity_gb.bits,
            )
            &&& report.target_capacity_gb.is_finite()
        }),
{
    let h = request.headroom_percent;
    lemma_library_is_finite(fits, request);
    lemma_share_is_nearest(h);
    lemma_quotient_is_nearest(report.need_gb, usable_share(h));
    (ratio(h as nat, 100).bits, usable_share(h).bits)
}

/// The share of a drive that may be filled is the nearest to the rest of one, the
/// headroom being the nearest to so many hundredths.
proof fn lemma_share_is_nearest(h: u8)
    requires
        h < 100,
    ensures
        ({
            let (free, share) = (ratio(h as nat, 100), usable_share(h));
            &&& rounds_to(h as nat * unit(), 100, free.bits)
            &&& magnitude(free.bits as int) < unit()
            &&& rounds_to((unit() - magnitude(free.bits as int)) as nat, 1, share.bits)
            &&& magnitude(share.bits as int) == share.number()
            &&& share.is_finite()
            &&& share.is_unsigned_amount()
            &&& 0 < share.number() <= unit()
        }),
{
    lemma_usable_share(h);
    lemma_one();
    let free = ratio(h as nat, 100);
    lemma_rounded_exists(h as nat * unit(), 100);
    lemma_amount_pattern(free);
    lemma_amount_pattern(usable_share(h));
    lemma_rounded_exists((unit() - magnitude(free.bits as int)) as nat, 1);
}

/// A quotient by at most one is the nearest to the exact one, and infinite where that is
/// too large.
proof fn lemma_quotient_is_nearest(a: Binary64, b: Binary64)
    requires
        a.is_unsigned_amount(),
        b.is_finite(),
        0 < b.number() <= unit(),
    ensures
        rounds_to((a.number() * unit()) as nat, b.number() as nat, quotient(a, b).bits),
{
    lemma_amount_pattern(a);
    let (m, u, q) = (a.number() as nat, unit(), b.number() as nat);
    lemma_rounded_exists(m * u, q);
    if !a.is_finite() {
        assert(m * q <= m * u) by (nonlinear_arith)
            requires
                q <= u,
        ;
        lemma_rounded_at_least(m * u, q, INFINITY_BITS);
    }
}

/// The drives that are listed hold 256, 512, 1000, 2000, 4000, 8000 and 16000
/// gigabytes, and the next one is the smallest of them that holds what is needed.
pub proof fn next_tiers_are_the_smallest(need: Binary64, tier: Option<u32>)
    requires
        !need.is_nan(),
        is_next_tier(need, tier),
    ensures
        tier == Some(256u32) <==> need.number() <= 256 * unit(),
        tier == Some(512u32) <==> 256 * unit() < need.number() <= 512 * unit(),
        tier == Some(1000u32) <==> 512 * unit() < need.number() <= 1000 * unit(),
        tier == Some(2000u32) <==> 1000 * unit() < need.number() <= 2000 * unit(),
        tier == Some(4000u32) <==> 2000 * unit() < need.number() <= 4000 * unit(),
        tier == Some(8000u32) <==> 4000 * unit() < need.number() <= 8000 * unit(),
        tier == Some(16000u32) <==> 8000 * unit() < need.number() <= 16000 * unit(),
        tier is None <==> 16000 * unit() < need.number(),
{
    let tiers = SSD_TIERS_GB@;
    let u = unit();
    vstd::arithmetic::power2::lemma_pow2_pos(UNIT_EXPONENT as nat);
    assert(tiers.len() == 7);
    assert(tiers[0] == 256 && tiers[1] == 512 && tiers[2] == 1000 && tiers[3] == 2000);
    assert(tiers[4] == 4000 && tiers[5] == 8000 && tiers[6] == 16000);
    if let Some(t) = tier {
        let i = choose|i: int| 0 <= i < tiers.len() && tiers[i] == t;
        assert(t == 256 || t == 512 || t == 1000 || t == 2000 || t == 4000 || t == 8000 || t
            == 16000);
    }
    assert(need.number() <= tiers[0] * u ==> tier is Some && tier->0 <= 256);
    assert(need.number() <= tiers[1] * u ==> tier is Some && tier->0 <= 512);
    assert(need.number() <= tiers[2] * u ==> tier is Some && tier->0 <= 1000);
    assert(need.number() <= tiers[3] * u ==> tier is Some && tier->0 <= 2000);
    assert(need.number() <= tiers[4] * u ==> tier is Some && tier->0 <= 4000);
    assert(need.number() <= tiers[5] * u ==> tier is Some && tier->0 <= 8000);
    assert(need.number() <= tiers[6] * u ==> tier is Some && tier->0 <= 16000);
    assert(256 * u < 512 * u < 1000 * u) by (nonlinear_arith)
        requires
            u > 0,
    ;
    assert(1000 * u < 2000 * u < 4000 * u) by (nonlinear_arith)
        requires
            u > 0,
    ;
    assert(4000 * u < 8000 * u < 16000 * u) by (nonlinear_arith)
        requires
            u > 0,
    ;
}

/// The drives of a report are the next ones to what is needed and to the capacity to
/// aim at. Without models no drive is named.
pub proof fn drives_hold_what_is_needed(
    fits: Seq<ModelFit>,
    request: StorageRequest,
    report: StorageEstimate,
)
    requires
        is_estimate(report, fits, request),
        estimate_fault(fits, request) is None,
    ensures
        report.models@.len() == 0 ==> report.minimum_ssd_gb is None
            && report.suggested_ssd_gb is None,
        report.models@.len() > 0 ==> {
            &&& report.minimum_ssd_gb is None <==> report.need_gb.number() > 16000 * unit()
            &&& report.suggested_ssd_gb is None <==> report.target_capacity_gb.number() > 16000
                * unit()
            &&& report.minimum_ssd_gb matches Some(tier) ==> report.need_gb.number() <= tier
                * unit()
            &&& report.suggested_ssd_gb matches Some(tier) ==> report.target_capacity_gb.number()
                <= tier * unit()
            &&& is_next_tier(report.need_gb, report.minimum_ssd_gb)
            &&& is_next_tier(report.target_capacity_gb, report.suggested_ssd_gb)
        },
{
    assert(views(report.models@).len() == report.models@.len());
    lemma_library_is_finite(fits, request);
    if report.models@.len() > 0 {
        next_tiers_are_the_smallest(report.need_gb, report.minimum_ssd_gb);
        next_tiers_are_the_smallest(report.target_capacity_gb, report.suggested_ssd_gb);
    }
}

/// A report warns where it falls short of the request, and nowhere else: of no models at
/// all, or of fewer than were asked for, and of no drive that is large enough.
pub proof fn reports_warn_where_they_fall_short(
    fits: Seq<ModelFit>,
    request: StorageRequest,
    report: StorageEstimate,
)
    requires
        is_estimate(report, fits, request),
    ensures
        ({
            let warnings = report.warnings@;
            let found = report.models@.len();
            let few = found < request.keep;
            let large = report.suggested_ssd_gb is None;
            let few_text = "Requested "@ + decimal(request.keep as nat) + " models, but only "@
                + decimal(found) + " are eligible"@;
            let large_text =
                "No listed SSD tier is large enough for the requested headroom; use target_capacity_gb to size a larger drive"@;
            &&& found == 0 ==> warnings.len() == 1 && warnings[0]@
                == "No runnable models match the filters; no SSD recommendation was made"@
            &&& found > 0 && !few && !large ==> warnings.len() == 0
            &&& found > 0 && few && !large ==> warnings.len() == 1 && warnings[0]@ == few_text
            &&& found > 0 && !few && large ==> warnings.len() == 1 && warnings[0]@ == large_text
            &&& found > 0 && few && large ==> warnings.len() == 2 && warnings[0]@ == few_text
                && warnings[1]@ == large_text
        }),
{
    assert(views(report.models@).len() == report.models@.len());
    let said = texts(report.warnings@);
    assert(said.len() == report.warnings@.len());
    assert(said.len() > 0 ==> said[0] == report.warnings@[0]@);
    assert(said.len() > 1 ==> said[1] == report.warnings@[1]@);
    let found = report.models@.len();
    let few_text = partial_message(request.keep as nat, found);
    let large_text =
        "No listed SSD tier is large enough for the requested headroom; use target_capacity_gb to size a larger drive"@;
    if found > 0 {
        let (few, large) = (found < request.keep, report.suggested_ssd_gb is None);
        assert(few && large ==> said =~= seq![few_text, large_text]);
        assert(few && !large ==> said =~= seq![few_text]);
        assert(!few && large ==> said =~= seq![large_text]);
        assert(!few && !large ==> said =~= Seq::empty());
    }
}

// What is refused.

/// A size can be asked for where its pattern is that of a finite number that is not
/// negative: below that of infinity, or negative zero.
pub proof fn valid_sizes_by_pattern(value: Binary64)
    ensures
        is_valid_size(value) <==> value.bits < 0x7ff0_0000_0000_0000 || value.bits
            == 0x8000_0000_0000_0000,
{
    lemma_one();
    if value.unsigned() > 0 {
        lemma_magnitude_increases(0, value.unsigned());
    }
}

/// A request is refused for asking for no model, for a reserve or a room for downloads
/// that is not a finite amount, or for more headroom than there is; the first of these
/// is said. No other request is refused for itself.
pub proof fn invalid_requests_are_refused(fits: Seq<ModelFit>, request: StorageRequest)
    ensures
        ({
            let fault = estimate_fault(fits, request);
            let reserve = request.os_reserve_gb.bits < 0x7ff0_0000_0000_0000
                || request.os_reserve_gb.bits == 0x8000_0000_0000_0000;
            let scratch = match request.scratch {
                ScratchPolicy::Auto => true,
                ScratchPolicy::Fixed(gb) => gb.bits < 0x7ff0_0000_0000_0000 || gb.bits
                    == 0x8000_0000_0000_0000,
            };
            &&& request.keep == 0 ==> fault == Some("--keep must be at least 1"@)
            &&& request.keep > 0 && !reserve ==> fault == Some(
                "OS reserve"@ + " must be finite and non-negative"@,
            )
            &&& request.keep > 0 && reserve && !scratch ==> fault == Some(
                "Download scratch"@ + " must be finite and non-negative"@,
            )
            &&& request.keep > 0 && reserve && scratch && request.headroom_percent >= 100
                ==> fault == Some("--headroom must be between 0 and 99 percent"@)
            &&& request.keep > 0 && reserve && scratch && request.headroom_percent < 100
                <==> request_fault(request) is None
        }),
{
    valid_sizes_by_pattern(request.os_reserve_gb);
    if let ScratchPolicy::Fixed(gb) = request.scratch {
        valid_sizes_by_pattern(gb);
    }
}

/// Whether a fit can be ranked and summed: it takes some finite room on disk, and has a
/// finite score.
pub open spec fn can_be_sized(fit: ModelFit) -> bool {
    &&& fit.disk_size_gb.is_finite()
    &&& fit.disk_size_gb.number() > 0
    &&& fit.score.is_finite()
}

/// Whether two fits say the same of a library, their numbers compared as numbers.
pub open spec fn agree(a: ModelFit, b: ModelFit) -> bool {
    &&& a.best_quant@ == b.best_quant@
    &&& a.fit_level == b.fit_level
    &&& a.runtime == b.runtime
    &&& a.score.number() == b.score.number()
    &&& a.disk_size_gb.number() == b.disk_size_gb.number()
    &&& a.effective_context_length == b.effective_context_length
}

/// The fits of the levels asked for are refused exactly where one of them cannot be
/// sized, or two with one name do not agree. Other fits are never looked at.
pub proof fn fits_at_fault_are_refused(fits: Seq<ModelFit>, perfect: bool)
    ensures
        first_fault(candidates(fits, perfect)) is None <==> {
            &&& forall|i: int|
                0 <= i < fits.len() && level_asked_for((#[trigger] fits[i]).fit_level, perfect)
                    ==> can_be_sized(fits[i])
            &&& forall|i: int, j: int|
                0 <= i < fits.len() && 0 <= j < fits.len() && level_asked_for(
                    (#[trigger] fits[i]).fit_level,
                    perfect,
                ) && level_asked_for((#[trigger] fits[j]).fit_level, perfect)
                    && fits[i].model.name@ == fits[j].model.name@ ==> agree(fits[i], fits[j])
        },
{
    let rows = candidates(fits, perfect);
    if first_fault(rows) is None {
        lemma_faultless_rows_agree(rows);
        assert forall|i: int|
            0 <= i < fits.len() && level_asked_for(
                (#[trigger] fits[i]).fit_level,
                perfect,
            ) implies can_be_sized(fits[i]) by {
            let x = lemma_candidate_of(fits, perfect, i);
            assert(rows[x].is_sound());
        }
        assert forall|i: int, j: int|
            0 <= i < fits.len() && 0 <= j < fits.len() && level_asked_for(
                (#[trigger] fits[i]).fit_level,
                perfect,
            ) && level_asked_for((#[trigger] fits[j]).fit_level, perfect) && fits[i].model.name@
                == fits[j].model.name@ implies agree(fits[i], fits[j]) by {
            let x = lemma_candidate_of(fits, perfect, i);
            let y = lemma_candidate_of(fits, perfect, j);
            assert(rows[x].same_as(rows[y]));
        }
    }
    if (forall|i: int|
        0 <= i < fits.len() && level_asked_for((#[trigger] fits[i]).fit_level, perfect)
            ==> can_be_sized(fits[i])) && (forall|i: int, j: int|
        0 <= i < fits.len() && 0 <= j < fits.len() && level_asked_for(
            (#[trigger] fits[i]).fit_level,
            perfect,
        ) && level_asked_for((#[trigger] fits[j]).fit_level, perfect) && fits[i].model.name@
            == fits[j].model.name@ ==> agree(fits[i], fits[j])) {
        assert forall|x: int| 0 <= x < rows.len() implies (#[trigger] rows[x]).is_sound() by {
            let i = lemma_candidate_source(fits, perfect, x);
            assert(can_be_sized(fits[i]));
        }
        assert forall|x: int, y: int|
            0 <= x < rows.len() && 0 <= y < rows.len() && (#[trigger] rows[x]).name == (
            #[trigger] rows[y]).name implies rows[x].same_as(rows[y]) by {
            let i = lemma_candidate_source(fits, perfect, x);
            let j = lemma_candidate_source(fits, perfect, y);
            assert(can_be_sized(fits[i]) && can_be_sized(fits[j]));
            assert(agree(fits[i], fits[j]));
        }
        lemma_agreeing_rows_have_no_fault(rows);
    }
}

/// The first fit at fault is named: for the room it takes on disk, else for its score,
/// else for disagreeing with an earlier fit of its name.
pub proof fn the_first_fit_at_fault_is_named(
    fits: Seq<ModelFit>,
    request: StorageRequest,
    i: int,
    j: int,
)
    requires
        request_fault(request) is None,
        0 <= i < fits.len(),
        level_asked_for(fits[i].fit_level, request.perfect),
        first_fault(candidates(fits.take(i), request.perfect)) is None,
    ensures
        ({
            let fault = estimate_fault(fits, request);
            let fit = fits[i];
            let weight = fit.disk_size_gb.is_finite() && fit.disk_size_gb.number() > 0;
            &&& !weight ==> fault == Some(
                "Invalid weight estimate for '"@ + fit.model.name@ + "'"@,
            )
            &&& weight && !fit.score.is_finite() ==> fault == Some(
                "Invalid ranking score for '"@ + fit.model.name@ + "'"@,
            )
            &&& can_be_sized(fit) && 0 <= j < i && level_asked_for(
                fits[j].fit_level,
                request.perfect,
            ) && fits[j].model.name@ == fit.model.name@ && !agree(fits[j], fit) ==> fault == Some(
                "Conflicting estimates for duplicate model '"@ + fit.model.name@ + "'"@,
            )
        }),
{
    let perfect = request.perfect;
    lemma_candidates_step(fits, perfect, i);
    let rows = candidates(fits.take(i), perfect);
    let longer = candidates(fits.take(i + 1), perfect);
    let n = rows.len() as int;
    assert(longer =~= rows.push(row(fits[i])));
    assert(longer.drop_last() =~= rows);
    assert(longer[n] == row(fits[i]));
    assert(first_fault(longer) == row_fault(longer, n));
    if 0 <= j < i && level_asked_for(fits[j].fit_level, perfect) && fits[j].model.name@
        == fits[i].model.name@ && !agree(fits[j], fits[i]) {
        assert(fits.take(i)[j] == fits[j]);
        let x = lemma_candidate_of(fits.take(i), perfect, j);
        assert(longer[x] == rows[x]);
        assert(longer[x].name == longer[n].name && !longer[x].same_as(longer[n]));
        assert(conflicts(longer, n));
    }
    if first_fault(longer) is Some {
        lemma_fault_stays(fits, perfect, i + 1);
    }
}

/// A valid request for fits that are not at fault is refused exactly where what is
/// needed, or the capacity to aim at, is too large to be finite.
pub proof fn only_what_is_too_large_is_refused(fits: Seq<ModelFit>, request: StorageRequest)
    requires
        request_fault(request) is None,
        first_fault(candidates(fits, request.perfect)) is None,
    ensures
        ({
            let need = need_of(retained(fits, request), request);
            let target = target_of(retained(fits, request), request);
            let fault = estimate_fault(fits, request);
            &&& need.bits < INFINITY_BITS && target.bits < INFINITY_BITS ==> fault is None
            &&& need.bits == INFINITY_BITS || target.bits == INFINITY_BITS ==> fault == Some(
                "Storage requirement exceeds the supported numeric range"@,
            )
            &&& need.bits <= INFINITY_BITS
            &&& target.bits <= INFINITY_BITS
        }),
{
    let need = need_of(retained(fits, request), request);
    need_covers_its_parts(fits, request);
    lemma_share_is_nearest(request.headroom_percent);
    lemma_quotient_at_least(need, usable_share(request.headroom_percent));
}

/// What is needed is the nearest to the exact sums, and the capacity to aim at the
/// nearest to the exact quotient, whether they are finite or not. `first` is the pattern
/// of the first sum.
pub proof fn needs_and_targets_are_nearest(
    fits: Seq<ModelFit>,
    request: StorageRequest,
) -> (first: u64)
    requires
        request_fault(request) is None,
        first_fault(candidates(fits, request.perfect)) is None,
    ensures
        ({
            let models = retained(fits, request);
            &&& rounds_to(
                (request.os_reserve_gb.number() + total_size(models).number()) as nat,
                1,
                first,
            )
            &&& rounds_to(
                magnitude(first as int) + scratch_size(models, request.scratch).number() as nat,
                1,
                need_of(models, request).bits,
            )
            &&& rounds_to(
                (need_of(models, request).number() * unit()) as nat,
                usable_share(request.headroom_percent).number() as nat,
                target_of(models, request).bits,
            )
        }),
{
    let models = retained(fits, request);
    need_covers_its_parts(fits, request);
    lemma_retained_sound(fits, request);
    lemma_sizes_are_amounts(models);
    lemma_one();
    need_sums_are_nearest(models, request);
    lemma_share_is_nearest(request.headroom_percent);
    lemma_quotient_is_nearest(
        need_of(models, request),
        usable_share(request.headroom_percent),
    );
    sum(request.os_reserve_gb, total_size(models)).bits
}

/// Two estimates of a model are the same where they agree in every field, their numbers
/// compared as numbers, and differ where one field does.
pub proof fn estimates_differ_in_any_field(a: StorageModelEstimate, b: StorageModelEstimate)
    ensures
        a@.same_as(b@) <==> {
            &&& a.name@ == b.name@
            &&& a.best_quant@ == b.best_quant@
            &&& a.fit_level == b.fit_level
            &&& a.runtime == b.runtime
            &&& !a.score.is_nan() && !b.score.is_nan() && a.score.number() == b.score.number()
            &&& !a.disk_size_gb.is_nan() && !b.disk_size_gb.is_nan() && a.disk_size_gb.number()
                == b.disk_size_gb.number()
            &&& a.effective_context_length == b.effective_context_length
        },
{
}

/// What an estimate is made from is what it says.
pub proof fn estimates_are_made_from_fits(fit: ModelFit)
    ensures
        describes(<StorageModelEstimate as FromSpec<&ModelFit>>::from_spec(&fit), fit),
{
}

} // verus!
