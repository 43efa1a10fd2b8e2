//! Storage for one library of models used sequentially, at their selected quants.
//!
//! Which models are retained, what they and their downloads take on disk, and
//! which drive is large enough. This module has no I/O or side effects.

use crate::binary64::{
    difference, larger, lemma_one, lemma_rounded_at_least, lemma_rounded_at_most, magnitude,
    quotient, ratio, sum, unit, Binary64, ONE_BITS,
};
use crate::fit::{FitLevel, InferenceRuntime, ModelFit};
use crate::text::{
    comes_before, concat3, decimal, decimal_text, lemma_text_order_total,
    lemma_text_order_transitive, text_before,
};
use vstd::prelude::*;
use vstd::string::*;

verus! {

/// Generic marketed capacities, in decimal GB. Not every device offers every tier.
pub const SSD_TIERS_GB: [u32; 7] = [256, 512, 1000, 2000, 4000, 8000, 16000];

/// Which models of a catalog to retain.
#[derive(Clone, Copy, Debug, PartialEq, Eq, Structural)]
pub enum StorageSelection {
    Score,
    Largest,
}

impl Default for StorageSelection {
    fn default() -> (r: StorageSelection)
        ensures
            r == StorageSelection::Score,
    {
        StorageSelection::Score
    }
}

/// How much room to leave for a download.
#[derive(Clone, Copy, Debug, PartialEq)]
pub enum ScratchPolicy {
    /// As much as the largest retained model takes.
    Auto,
    /// So many decimal gigabytes.
    Fixed(Binary64),
}

impl Default for ScratchPolicy {
    fn default() -> (r: ScratchPolicy)
        ensures
            r == ScratchPolicy::Auto,
    {
        ScratchPolicy::Auto
    }
}

/// What a library is asked to be.
#[derive(Clone, Debug)]
pub struct StorageRequest {
    /// How many models to retain.
    pub keep: usize,
    pub selection: StorageSelection,
    pub os_reserve_gb: Binary64,
    pub scratch: ScratchPolicy,
    /// The share of the drive that stays free.
    pub headroom_percent: u8,
    /// Whether to retain perfect fits alone.
    pub perfect: bool,
}

impl Default for StorageRequest {
    fn default() -> (r: StorageRequest)
        ensures
            r.keep == 3,
            r.selection == StorageSelection::Score,
            r.os_reserve_gb == ratio(100, 1),
            r.scratch == ScratchPolicy::Auto,
            r.headroom_percent == 15,
            r.perfect == false,
    {
        StorageRequest {
            keep: 3,
            selection: StorageSelection::Score,
            os_reserve_gb: Binary64::from_ratio(100, 1),
            scratch: ScratchPolicy::Auto,
            headroom_percent: 15,
            perfect: false,
        }
    }
}

/// A model of the library, with what it takes on disk.
#[derive(Clone, Debug)]
pub struct StorageModelEstimate {
    pub name: String,
    pub best_quant: String,
    pub fit_level: FitLevel,
    pub runtime: InferenceRuntime,
    pub score: Binary64,
    pub disk_size_gb: Binary64,
    pub effective_context_length: u32,
}

/// What a [`StorageModelEstimate`] says.
#[verifier::ext_equal]
pub struct EstimateView {
    pub name: Seq<char>,
    pub best_quant: Seq<char>,
    pub fit_level: FitLevel,
    pub runtime: InferenceRuntime,
    pub score: Binary64,
    pub disk_size_gb: Binary64,
    pub effective_context_length: u32,
}

impl View for StorageModelEstimate {
    type V = EstimateView;

    open spec fn view(&self) -> EstimateView {
        EstimateView {
            name: self.name@,
            best_quant: self.best_quant@,
            fit_level: self.fit_level,
            runtime: self.runtime,
            score: self.score,
            disk_size_gb: self.disk_size_gb,
            effective_context_length: self.effective_context_length,
        }
    }
}

impl EstimateView {
    /// Whether both say the same, their numbers compared as numbers.
    pub open spec fn same_as(self, other: EstimateView) -> bool {
        &&& self.name == other.name
        &&& self.best_quant == other.best_quant
        &&& self.fit_level == other.fit_level
        &&& self.runtime == other.runtime
        &&& self.score.same_number(other.score)
        &&& self.disk_size_gb.same_number(other.disk_size_gb)
        &&& self.effective_context_length == other.effective_context_length
    }

    /// Whether the numbers are fit to be ranked and summed.
    pub open spec fn is_sound(self) -> bool {
        &&& self.disk_size_gb.is_finite()
        &&& self.disk_size_gb.number() > 0
        &&& self.score.is_finite()
    }
}

impl From<&ModelFit> for StorageModelEstimate {
    fn from(fit: &ModelFit) -> (r: StorageModelEstimate) {
        StorageModelEstimate {
            name: fit.model.name.clone(),
            best_quant: fit.best_quant.clone(),
            fit_level: fit.fit_level,
            runtime: fit.runtime,
            score: fit.score,
            disk_size_gb: fit.disk_size_gb,
            effective_context_length: fit.effective_context_length,
        }
    }
}

impl vstd::std_specs::convert::FromSpecImpl<&ModelFit> for StorageModelEstimate {
    open spec fn obeys_from_spec() -> bool {
        true
    }

    open spec fn from_spec(fit: &ModelFit) -> StorageModelEstimate {
        StorageModelEstimate {
            name: fit.model.name,
            best_quant: fit.best_quant,
            fit_level: fit.fit_level,
            runtime: fit.runtime,
            score: fit.score,
            disk_size_gb: fit.disk_size_gb,
            effective_context_length: fit.effective_context_length,
        }
    }
}

impl PartialEq for StorageModelEstimate {
    fn eq(&self, other: &StorageModelEstimate) -> (r: bool) {
        self.name == other.name && self.best_quant == other.best_quant && self.fit_level
            == other.fit_level && self.runtime == other.runtime && self.score.equals(other.score)
            && self.disk_size_gb.equals(other.disk_size_gb) && self.effective_context_length
            == other.effective_context_length
    }
}

impl vstd::std_specs::cmp::PartialEqSpecImpl for StorageModelEstimate {
    open spec fn obeys_eq_spec() -> bool {
        true
    }

    open spec fn eq_spec(&self, other: &StorageModelEstimate) -> bool {
        self@.same_as(other@)
    }
}

/// A sized library, and the drives that it fits on.
#[derive(Clone, Debug)]
pub struct StorageEstimate {
    pub selection: StorageSelection,
    pub keep_requested: usize,
    pub selected_count: usize,
    pub eligible_count: usize,
    pub perfect: bool,
    pub models: Vec<StorageModelEstimate>,
    pub library_gb: Binary64,
    pub os_reserve_gb: Binary64,
    pub scratch_policy: ScratchPolicy,
    pub download_scratch_gb: Binary64,
    pub headroom_percent: u8,
    pub need_gb: Binary64,
    pub target_capacity_gb: Binary64,
    /// None when no models were selected or no listed tier is large enough.
    pub minimum_ssd_gb: Option<u32>,
    pub suggested_ssd_gb: Option<u32>,
    pub estimate_notice: String,
    pub warnings: Vec<String>,
}

// Which models are retained.

/// What the storage estimate says of one fit.
pub open spec fn row(fit: ModelFit) -> EstimateView {
    EstimateView {
        name: fit.model.name@,
        best_quant: fit.best_quant@,
        fit_level: fit.fit_level,
        runtime: fit.runtime,
        score: fit.score,
        disk_size_gb: fit.disk_size_gb,
        effective_context_length: fit.effective_context_length,
    }
}

/// Whether a fit can be retained at all.
pub open spec fn qualifies(fit: ModelFit, perfect: bool) -> bool {
    fit.fit_level != FitLevel::TooTight && (!perfect || fit.fit_level == FitLevel::Perfect)
}

/// The fits that can be retained, in their given order.
pub open spec fn candidates(fits: Seq<ModelFit>, perfect: bool) -> Seq<EstimateView> {
    fits.filter(|fit: ModelFit| qualifies(fit, perfect)).map_values(|fit: ModelFit| row(fit))
}

/// Whether no earlier row has the name of row `i`.
pub open spec fn is_first(rows: Seq<EstimateView>, i: int) -> bool {
    0 <= i < rows.len() && forall|j: int| 0 <= j < i ==> rows[j].name != rows[i].name
}

/// Whether an earlier row has the name of row `i` and says something else.
pub open spec fn conflicts(rows: Seq<EstimateView>, i: int) -> bool {
    exists|j: int|
        0 <= j < i && (#[trigger] rows[j]).name == rows[i].name && !rows[j].same_as(rows[i])
}

/// What is wrong with row `i`, given the rows before it.
pub open spec fn row_fault(rows: Seq<EstimateView>, i: int) -> Option<Seq<char>> {
    let r = rows[i];
    if !r.disk_size_gb.is_finite() || r.disk_size_gb.number() <= 0 {
        Some("Invalid weight estimate for '"@ + r.name + "'"@)
    } else if !r.score.is_finite() {
        Some("Invalid ranking score for '"@ + r.name + "'"@)
    } else if conflicts(rows, i) {
        Some("Conflicting estimates for duplicate model '"@ + r.name + "'"@)
    } else {
        None
    }
}

/// What is wrong with the first row that has a fault.
pub open spec fn first_fault(rows: Seq<EstimateView>) -> Option<Seq<char>>
    decreases rows.len(),
{
    if rows.len() == 0 {
        None
    } else {
        match first_fault(rows.drop_last()) {
            Some(message) => Some(message),
            None => row_fault(rows, rows.len() - 1),
        }
    }
}

/// Whether `a` is retained rather than `b`: for its score, or first for its size
/// on disk. The name decides between equals.
pub open spec fn ranks_before(
    selection: StorageSelection,
    a: EstimateView,
    b: EstimateView,
) -> bool {
    let by_score = a.score.number() > b.score.number() || a.score.number() == b.score.number()
        && comes_before(a.name, b.name);
    match selection {
        StorageSelection::Score => by_score,
        StorageSelection::Largest => a.disk_size_gb.number() > b.disk_size_gb.number()
            || a.disk_size_gb.number() == b.disk_size_gb.number() && by_score,
    }
}

/// Whether `r` is the first row of its name.
pub open spec fn is_first_row(rows: Seq<EstimateView>, r: EstimateView) -> bool {
    exists|i: int| #[trigger] is_first(rows, i) && rows[i] == r
}

/// Whether `s` holds the first row of every name and no other, best first.
pub open spec fn is_ranking(
    rows: Seq<EstimateView>,
    selection: StorageSelection,
    s: Seq<EstimateView>,
) -> bool {
    &&& forall|i: int, j: int| 0 <= i < j < s.len() ==> ranks_before(selection, s[i], s[j])
    &&& forall|k: int| 0 <= k < s.len() ==> is_first_row(rows, #[trigger] s[k])
    &&& forall|i: int| #[trigger] is_first(rows, i) ==> s.contains(rows[i])
}

/// The first row of every name, best first.
pub open spec fn ranking(
    rows: Seq<EstimateView>,
    selection: StorageSelection,
) -> Seq<EstimateView> {
    choose|s: Seq<EstimateView>| is_ranking(rows, selection, s)
}

/// The best `n` of `s`, or all where there are fewer.
pub open spec fn best(s: Seq<EstimateView>, n: nat) -> Seq<EstimateView> {
    if n < s.len() {
        s.take(n as int)
    } else {
        s
    }
}

/// The models that a request retains.
pub open spec fn retained(fits: Seq<ModelFit>, request: StorageRequest) -> Seq<EstimateView> {
    best(ranking(candidates(fits, request.perfect), request.selection), request.keep as nat)
}

pub proof fn lemma_ranks_total(selection: StorageSelection, a: EstimateView, b: EstimateView)
    ensures
        a.name == b.name && a.score.number() == b.score.number() && a.disk_size_gb.number()
            == b.disk_size_gb.number() ==> !ranks_before(selection, a, b),
        a.name != b.name ==> ranks_before(selection, a, b) != ranks_before(selection, b, a),
        !(ranks_before(selection, a, b) && ranks_before(selection, b, a)),
{
    lemma_text_order_total(a.name, b.name);
    lemma_text_order_total(b.name, a.name);
}

proof fn lemma_ranks_transitive(
    selection: StorageSelection,
    a: EstimateView,
    b: EstimateView,
    c: EstimateView,
)
    requires
        ranks_before(selection, a, b),
        ranks_before(selection, b, c),
    ensures
        ranks_before(selection, a, c),
{
    if comes_before(a.name, b.name) && comes_before(b.name, c.name) {
        lemma_text_order_transitive(a.name, b.name, c.name);
    }
}

/// There is only one ranking.
pub proof fn lemma_ranking_unique(
    rows: Seq<EstimateView>,
    selection: StorageSelection,
    s: Seq<EstimateView>,
    t: Seq<EstimateView>,
)
    requires
        is_ranking(rows, selection, s),
        is_ranking(rows, selection, t),
    ensures
        s == t,
{
    lemma_rankings_agree(rows, selection, s, t, s.len());
    lemma_rankings_agree(rows, selection, t, s, t.len());
    assert(s =~= t);
}

/// Every element of one ranking stands in any other.
proof fn lemma_ranking_member(
    rows: Seq<EstimateView>,
    selection: StorageSelection,
    s: Seq<EstimateView>,
    t: Seq<EstimateView>,
    k: int,
) -> (m: int)
    requires
        is_ranking(rows, selection, s),
        is_ranking(rows, selection, t),
        0 <= k < s.len(),
    ensures
        0 <= m < t.len(),
        t[m] == s[k],
{
    let i = choose|i: int| is_first(rows, i) && rows[i] == s[k];
    assert(t.contains(rows[i]));
    choose|m: int| 0 <= m < t.len() && t[m] == rows[i]
}

proof fn lemma_rankings_agree(
    rows: Seq<EstimateView>,
    selection: StorageSelection,
    s: Seq<EstimateView>,
    t: Seq<EstimateView>,
    n: nat,
)
    requires
        is_ranking(rows, selection, s),
        is_ranking(rows, selection, t),
        n <= s.len(),
    ensures
        n <= t.len(),
        forall|i: int| 0 <= i < n ==> s[i] == t[i],
    decreases n,
{
    if n > 0 {
        lemma_rankings_agree(rows, selection, s, t, (n - 1) as nat);
        let k = n - 1;
        let m = lemma_ranking_member(rows, selection, s, t, k);
        if m < k {
            assert(s[m] == s[k]);
            lemma_ranks_total(selection, s[m], s[k]);
        }
        if m > k {
            let j = lemma_ranking_member(rows, selection, t, s, k);
            assert(ranks_before(selection, t[k], t[m]));
            lemma_ranks_total(selection, t[k], t[m]);
            if j < k {
                assert(t[j] == t[k]);
                lemma_ranks_total(selection, t[j], t[k]);
            } else if j > k {
                assert(ranks_before(selection, s[k], s[j]));
            }
        }
    }
}

proof fn lemma_first_in_prefix(rows: Seq<EstimateView>, r: EstimateView, i: int)
    requires
        is_first(rows.push(r), i),
        i < rows.len(),
    ensures
        is_first(rows, i),
        rows[i] == rows.push(r)[i],
{
    assert forall|j: int| 0 <= j < i implies rows[j].name != rows[i].name by {
        assert(rows.push(r)[j] == rows[j]);
    }
}

/// Rows without a first fault have no fault.
pub proof fn lemma_no_fault(rows: Seq<EstimateView>, i: int)
    requires
        first_fault(rows) is None,
        0 <= i < rows.len(),
    ensures
        row_fault(rows, i) is None,
    decreases rows.len(),
{
    if i < rows.len() - 1 {
        let shorter = rows.drop_last();
        lemma_no_fault(shorter, i);
        if conflicts(rows, i) {
            let j = choose|j: int|
                0 <= j < i && (#[trigger] rows[j]).name == rows[i].name && !rows[j].same_as(
                    rows[i],
                );
            assert(shorter[j] == rows[j]);
        }
    }
}

/// A row conflicts with the rows before it exactly where it differs from the
/// ranked row of its name.
proof fn lemma_conflict_with_ranked(
    rows: Seq<EstimateView>,
    r: EstimateView,
    selection: StorageSelection,
    s: Seq<EstimateView>,
    k: int,
)
    requires
        is_ranking(rows, selection, s),
        first_fault(rows) is None,
        0 <= k < s.len(),
        s[k].name == r.name,
    ensures
        conflicts(rows.push(r), rows.len() as int) == !s[k].same_as(r),
{
    let longer = rows.push(r);
    let n = rows.len() as int;
    let f = choose|f: int| is_first(rows, f) && rows[f] == s[k];
    assert(longer[f] == s[k]);
    if conflicts(longer, n) && s[k].same_as(r) {
        let j = choose|j: int|
            0 <= j < n && (#[trigger] longer[j]).name == longer[n].name && !longer[j].same_as(
                longer[n],
            );
        assert(rows[j] == longer[j]);
        lemma_no_fault(rows, j);
        assert(!conflicts(rows, j));
        assert(f <= j);
        if f < j {
            assert(rows[f].same_as(rows[j]));
        }
    }
}

/// A row with a new name conflicts with none.
proof fn lemma_no_conflict(
    rows: Seq<EstimateView>,
    r: EstimateView,
    selection: StorageSelection,
    s: Seq<EstimateView>,
)
    requires
        is_ranking(rows, selection, s),
        forall|i: int| 0 <= i < s.len() ==> s[i].name != r.name,
    ensures
        !conflicts(rows.push(r), rows.len() as int),
{
    let longer = rows.push(r);
    assert forall|j: int| 0 <= j < rows.len() implies (#[trigger] longer[j]).name != r.name by {
        let k = lemma_name_is_ranked(rows, selection, s, j);
    }
}

/// A row whose name is already ranked changes nothing.
pub proof fn lemma_ranking_keeps(
    rows: Seq<EstimateView>,
    r: EstimateView,
    selection: StorageSelection,
    s: Seq<EstimateView>,
    k: int,
)
    requires
        is_ranking(rows, selection, s),
        0 <= k < s.len(),
        s[k].name == r.name,
    ensures
        is_ranking(rows.push(r), selection, s),
{
    let longer = rows.push(r);
    assert forall|i: int| 0 <= i < s.len() implies is_first_row(longer, #[trigger] s[i]) by {
        let j = choose|j: int| is_first(rows, j) && rows[j] == s[i];
        assert(is_first(longer, j) && longer[j] == s[i]);
    }
    assert forall|i: int| #[trigger] is_first(longer, i) implies s.contains(longer[i]) by {
        let j = choose|j: int| is_first(rows, j) && rows[j] == s[k];
        assert(longer[j].name == r.name);
        assert(i < rows.len());
        lemma_first_in_prefix(rows, r, i);
    }
}

/// A row with a new name joins the ranking at its place.
pub proof fn lemma_ranking_grows(
    rows: Seq<EstimateView>,
    r: EstimateView,
    selection: StorageSelection,
    s: Seq<EstimateView>,
    k: int,
)
    requires
        is_ranking(rows, selection, s),
        0 <= k <= s.len(),
        forall|i: int| 0 <= i < s.len() ==> s[i].name != r.name,
        forall|i: int| 0 <= i < k ==> ranks_before(selection, s[i], r),
        k < s.len() ==> !ranks_before(selection, s[k], r),
    ensures
        is_ranking(rows.push(r), selection, s.insert(k, r)),
{
    let longer = rows.push(r);
    let t = s.insert(k, r);
    assert forall|i: int| k <= i < s.len() implies ranks_before(selection, r, s[i]) by {
        lemma_ranks_total(selection, r, s[k]);
        if i > k {
            lemma_ranks_transitive(selection, r, s[k], s[i]);
        }
    }
    assert forall|i: int, j: int| 0 <= i < j < t.len() implies ranks_before(
        selection,
        t[i],
        t[j],
    ) by {
        let a = if i < k {
            i
        } else {
            i - 1
        };
        let b = if j < k {
            j
        } else {
            j - 1
        };
        if i != k && j != k {
            assert(t[i] == s[a] && t[j] == s[b]);
        }
    }
    assert(is_first(longer, rows.len() as int)) by {
        assert forall|j: int| 0 <= j < rows.len() implies longer[j].name != r.name by {
            lemma_name_is_ranked(rows, selection, s, j);
        }
    }
    assert forall|i: int| 0 <= i < t.len() implies is_first_row(longer, #[trigger] t[i]) by {
        if i == k {
            assert(longer[rows.len() as int] == t[i]);
        } else {
            let a = if i < k {
                i
            } else {
                i - 1
            };
            let j = choose|j: int| is_first(rows, j) && rows[j] == s[a];
            assert(is_first(longer, j) && longer[j] == t[i]);
        }
    }
    assert forall|i: int| #[trigger] is_first(longer, i) implies t.contains(longer[i]) by {
        if i == rows.len() {
            assert(t[k] == r);
        } else {
            lemma_first_in_prefix(rows, r, i);
            let a = choose|a: int| 0 <= a < s.len() && s[a] == rows[i];
            let b = if a < k {
                a
            } else {
                a + 1
            };
            assert(t[b] == rows[i]);
        }
    }
}

/// The name of every row stands in the ranking.
pub proof fn lemma_name_is_ranked(
    rows: Seq<EstimateView>,
    selection: StorageSelection,
    s: Seq<EstimateView>,
    j: int,
) -> (k: int)
    requires
        is_ranking(rows, selection, s),
        0 <= j < rows.len(),
    ensures
        0 <= k < s.len(),
        s[k].name == rows[j].name,
    decreases j,
{
    if is_first(rows, j) {
        choose|k: int| 0 <= k < s.len() && s[k] == rows[j]
    } else {
        let i = choose|i: int| 0 <= i < j && rows[i].name == rows[j].name;
        lemma_name_is_ranked(rows, selection, s, i)
    }
}

/// The views of some estimates.
pub open spec fn views(models: Seq<StorageModelEstimate>) -> Seq<EstimateView> {
    models.map_values(|m: StorageModelEstimate| m@)
}

/// Whether `a` is retained rather than `b`.
fn precedes(
    selection: StorageSelection,
    a: &StorageModelEstimate,
    b: &StorageModelEstimate,
) -> (r: bool)
    requires
        a@.is_sound(),
        b@.is_sound(),
    ensures
        r == ranks_before(selection, a@, b@),
{
    if selection == StorageSelection::Largest {
        if b.disk_size_gb.below(a.disk_size_gb) {
            return true;
        }
        if a.disk_size_gb.below(b.disk_size_gb) {
            return false;
        }
    }
    if b.score.below(a.score) {
        return true;
    }
    if a.score.below(b.score) {
        return false;
    }
    text_before(a.name.as_str(), b.name.as_str())
}

pub proof fn lemma_candidates_step(fits: Seq<ModelFit>, perfect: bool, i: int)
    requires
        0 <= i < fits.len(),
    ensures
        candidates(fits.take(i + 1), perfect) == if qualifies(fits[i], perfect) {
            candidates(fits.take(i), perfect).push(row(fits[i]))
        } else {
            candidates(fits.take(i), perfect)
        },
{
    reveal(Seq::filter);
    let longer = fits.take(i + 1);
    assert(longer.drop_last() =~= fits.take(i));
    assert(longer.last() == fits[i]);
    assert(candidates(longer, perfect) =~= if qualifies(fits[i], perfect) {
        candidates(fits.take(i), perfect).push(row(fits[i]))
    } else {
        candidates(fits.take(i), perfect)
    });
}

/// A fault of some first rows is the fault of all of them.
pub proof fn lemma_fault_stays(fits: Seq<ModelFit>, perfect: bool, i: int)
    requires
        0 <= i <= fits.len(),
        first_fault(candidates(fits.take(i), perfect)) is Some,
    ensures
        first_fault(candidates(fits, perfect)) == first_fault(candidates(fits.take(i), perfect)),
    decreases fits.len() - i,
{
    if i == fits.len() {
        assert(fits.take(i) =~= fits);
    } else {
        lemma_candidates_step(fits, perfect, i);
        let rows = candidates(fits.take(i), perfect);
        let r = row(fits[i]);
        assert(rows.push(r).drop_last() =~= rows);
        lemma_fault_stays(fits, perfect, i + 1);
    }
}

/// The position of `name` among `ranked`, if it is there.
fn position_of(ranked: &Vec<StorageModelEstimate>, name: &String) -> (r: Option<usize>)
    ensures
        match r {
            Some(k) => k < ranked@.len() && ranked@[k as int].name@ == name@,
            None => forall|k: int| 0 <= k < ranked@.len() ==> ranked@[k].name@ != name@,
        },
{
    let mut k: usize = 0;
    while k < ranked.len()
        invariant
            k <= ranked@.len(),
            forall|j: int| 0 <= j < k ==> ranked@[j].name@ != name@,
        decreases ranked.len() - k,
    {
        if ranked[k].name == *name {
            return Some(k);
        }
        k += 1;
    }
    None
}

/// The candidates among `fits`, each name once and best first, or what is wrong
/// with the first one at fault.
fn rank_candidates(
    fits: &Vec<ModelFit>,
    perfect: bool,
    selection: StorageSelection,
) -> (r: Result<Vec<StorageModelEstimate>, String>)
    ensures
        match r {
            Ok(ranked) => {
                &&& first_fault(candidates(fits@, perfect)) is None
                &&& is_ranking(candidates(fits@, perfect), selection, views(ranked@))
                &&& views(ranked@) == ranking(candidates(fits@, perfect), selection)
                &&& forall|k: int| 0 <= k < ranked@.len() ==> (#[trigger] ranked@[k])@.is_sound()
            },
            Err(message) => first_fault(candidates(fits@, perfect)) == Some(message@),
        },
{
    let mut ranked: Vec<StorageModelEstimate> = Vec::new();
    let mut i: usize = 0;
    proof {
        reveal(Seq::filter);
        assert(candidates(fits@.take(0), perfect) =~= Seq::empty());
        assert(views(ranked@) =~= Seq::empty());
    }
    while i < fits.len()
        invariant
            i <= fits@.len(),
            first_fault(candidates(fits@.take(i as int), perfect)) is None,
            is_ranking(candidates(fits@.take(i as int), perfect), selection, views(ranked@)),
            forall|k: int| 0 <= k < ranked@.len() ==> (#[trigger] ranked@[k])@.is_sound(),
        decreases fits.len() - i,
    {
        let fit = &fits[i];
        let ghost rows = candidates(fits@.take(i as int), perfect);
        proof {
            lemma_candidates_step(fits@, perfect, i as int);
        }
        if fit.fit_level != FitLevel::TooTight && (!perfect || fit.fit_level
            == FitLevel::Perfect) {
            let estimate = StorageModelEstimate::from(fit);
            let ghost longer = rows.push(row(*fit));
            let ghost ranked_views = views(ranked@);
            proof {
                assert(estimate@ == row(*fit));
                assert(longer.drop_last() =~= rows);
                assert(longer == candidates(fits@.take(i + 1), perfect));
                if first_fault(longer) is Some {
                    lemma_fault_stays(fits@, perfect, i + 1);
                }
            }
            if !estimate.disk_size_gb.finite() || !Binary64::from_bits(0).below(
                estimate.disk_size_gb,
            ) {
                return Err(
                    concat3("Invalid weight estimate for '", estimate.name.as_str(), "'"),
                );
            }
            if !estimate.score.finite() {
                return Err(concat3("Invalid ranking score for '", estimate.name.as_str(), "'"));
            }
            match position_of(&ranked, &estimate.name) {
                Some(k) => {
                    proof {
                        lemma_conflict_with_ranked(
                            rows,
                            row(*fit),
                            selection,
                            ranked_views,
                            k as int,
                        );
                    }
                    if ranked[k] != estimate {
                        return Err(
                            concat3(
                                "Conflicting estimates for duplicate model '",
                                estimate.name.as_str(),
                                "'",
                            ),
                        );
                    }
                    proof {
                        lemma_ranking_keeps(rows, row(*fit), selection, ranked_views, k as int);
                    }
                },
                None => {
                    proof {
                        lemma_no_conflict(rows, row(*fit), selection, ranked_views);
                    }
                    let mut k: usize = 0;
                    while k < ranked.len() && precedes(selection, &ranked[k], &estimate)
                        invariant
                            k <= ranked@.len(),
                            estimate@.is_sound(),
                            forall|j: int|
                                0 <= j < ranked@.len() ==> (#[trigger] ranked@[j])@.is_sound(),
                            forall|j: int|
                                0 <= j < k ==> ranks_before(
                                    selection,
                                    (#[trigger] ranked@[j])@,
                                    estimate@,
                                ),
                        decreases ranked.len() - k,
                    {
                        k += 1;
                    }
                    proof {
                        lemma_ranking_grows(rows, estimate@, selection, ranked_views, k as int);
                        assert(views(ranked@.insert(k as int, estimate)) =~= ranked_views.insert(
                            k as int,
                            estimate@,
                        ));
                    }
                    ranked.insert(k, estimate);
                },
            }
        }
        i += 1;
    }
    proof {
        assert(fits@.take(i as int) =~= fits@);
        let rows = candidates(fits@, perfect);
        lemma_ranking_unique(rows, selection, views(ranked@), ranking(rows, selection));
    }
    Ok(ranked)
}

// What the library takes on disk.

/// Zero.
pub open spec fn zero() -> Binary64 {
    Binary64 { bits: 0 }
}

/// What the models take together, summed in their order.
pub open spec fn total_size(models: Seq<EstimateView>) -> Binary64
    decreases models.len(),
{
    if models.len() == 0 {
        zero()
    } else {
        sum(total_size(models.drop_last()), models.last().disk_size_gb)
    }
}

/// What the largest of the models takes.
pub open spec fn largest_size(models: Seq<EstimateView>) -> Binary64
    decreases models.len(),
{
    if models.len() == 0 {
        zero()
    } else {
        larger(largest_size(models.drop_last()), models.last().disk_size_gb)
    }
}

/// The room for a download: none without models.
pub open spec fn scratch_size(models: Seq<EstimateView>, policy: ScratchPolicy) -> Binary64 {
    if models.len() == 0 {
        zero()
    } else {
        match policy {
            ScratchPolicy::Auto => largest_size(models),
            ScratchPolicy::Fixed(gb) => gb,
        }
    }
}

/// What the operating system, the models and a download take together.
pub open spec fn need_of(models: Seq<EstimateView>, request: StorageRequest) -> Binary64 {
    sum(
        sum(request.os_reserve_gb, total_size(models)),
        scratch_size(models, request.scratch),
    )
}

/// The share of a drive that may be filled.
pub open spec fn usable_share(headroom_percent: u8) -> Binary64 {
    difference(ratio(1, 1), ratio(headroom_percent as nat, 100))
}

/// The capacity of which the need is the usable share.
pub open spec fn target_of(models: Seq<EstimateView>, request: StorageRequest) -> Binary64 {
    quotient(need_of(models, request), usable_share(request.headroom_percent))
}

/// Whether `r` is the smallest listed tier that holds `need`.
pub open spec fn is_next_tier(need: Binary64, r: Option<u32>) -> bool {
    match r {
        Some(tier) => {
            &&& SSD_TIERS_GB@.contains(tier)
            &&& !need.is_nan() && need.number() <= tier * unit()
            &&& forall|i: int|
                0 <= i < SSD_TIERS_GB@.len() && need.number() <= #[trigger] SSD_TIERS_GB@[i]
                    * unit() ==> tier <= SSD_TIERS_GB@[i]
        },
        None => forall|i: int|
            0 <= i < SSD_TIERS_GB@.len() ==> need.is_nan() || need.number()
                > #[trigger] SSD_TIERS_GB@[i] * unit(),
    }
}

/// Whether a size can be asked for.
pub open spec fn is_valid_size(value: Binary64) -> bool {
    value.is_finite() && value.number() >= 0
}

/// What is wrong with a request, apart from the models.
pub open spec fn request_fault(request: StorageRequest) -> Option<Seq<char>> {
    if request.keep == 0 {
        Some("--keep must be at least 1"@)
    } else if !is_valid_size(request.os_reserve_gb) {
        Some("OS reserve"@ + " must be finite and non-negative"@)
    } else if request.scratch matches ScratchPolicy::Fixed(gb) && !is_valid_size(gb) {
        Some("Download scratch"@ + " must be finite and non-negative"@)
    } else if request.headroom_percent >= 100 {
        Some("--headroom must be between 0 and 99 percent"@)
    } else {
        None
    }
}

/// Why a request cannot be estimated, if it cannot.
pub open spec fn estimate_fault(fits: Seq<ModelFit>, request: StorageRequest) -> Option<Seq<char>> {
    if request_fault(request) is Some {
        request_fault(request)
    } else if first_fault(candidates(fits, request.perfect)) is Some {
        first_fault(candidates(fits, request.perfect))
    } else {
        let models = retained(fits, request);
        if need_of(models, request).is_finite() && target_of(models, request).is_finite() {
            None
        } else {
            Some("Storage requirement exceeds the supported numeric range"@)
        }
    }
}

/// What is said where fewer models are eligible than were asked for.
pub open spec fn partial_message(keep: nat, found: nat) -> Seq<char> {
    "Requested "@ + decimal(keep) + " models, but only "@ + decimal(found) + " are eligible"@
}

/// What is said of a result that falls short of the request.
pub open spec fn warnings_for(keep: nat, found: nat, suggested: Option<u32>) -> Seq<Seq<char>> {
    if found == 0 {
        seq!["No runnable models match the filters; no SSD recommendation was made"@]
    } else {
        (if found < keep {
            seq![partial_message(keep, found)]
        } else {
            Seq::empty()
        }) + (if suggested is None {
            seq![
                "No listed SSD tier is large enough for the requested headroom; use target_capacity_gb to size a larger drive"@,
            ]
        } else {
            Seq::empty()
        })
    }
}

/// What every estimate says of itself.
pub open spec fn notice() -> Seq<char> {
    "Estimated weights in decimal GB for one library copy used sequentially. Actual artifacts, auxiliary files, and runtime caches may differ. Automatic scratch covers one additional download as large as the largest selected model. Reserve and free headroom are planning allowances; current disk usage is not measured."@
}

/// What some texts say.
pub open spec fn texts(v: Seq<String>) -> Seq<Seq<char>> {
    v.map_values(|s: String| s@)
}

/// Whether `report` is the estimate of a request for `fits`.
pub open spec fn is_estimate(
    report: StorageEstimate,
    fits: Seq<ModelFit>,
    request: StorageRequest,
) -> bool {
    let ranked = ranking(candidates(fits, request.perfect), request.selection);
    let models = retained(fits, request);
    &&& views(report.models@) == models
    &&& report.selected_count == models.len()
    &&& report.eligible_count == ranked.len()
    &&& report.selection == request.selection
    &&& report.keep_requested == request.keep
    &&& report.perfect == request.perfect
    &&& report.os_reserve_gb == request.os_reserve_gb
    &&& report.scratch_policy == request.scratch
    &&& report.headroom_percent == request.headroom_percent
    &&& report.library_gb == total_size(models)
    &&& report.download_scratch_gb == scratch_size(models, request.scratch)
    &&& report.need_gb == need_of(models, request)
    &&& report.target_capacity_gb == target_of(models, request)
    &&& if models.len() == 0 {
        report.minimum_ssd_gb is None && report.suggested_ssd_gb is None
    } else {
        is_next_tier(report.need_gb, report.minimum_ssd_gb) && is_next_tier(
            report.target_capacity_gb,
            report.suggested_ssd_gb,
        )
    }
    &&& report.estimate_notice@ == notice()
    &&& texts(report.warnings@) == warnings_for(
        request.keep as nat,
        models.len(),
        report.suggested_ssd_gb,
    )
}

/// The share of a drive that may be filled is positive and at most the whole.
pub proof fn lemma_usable_share(headroom_percent: u8)
    requires
        headroom_percent < 100,
    ensures
        ratio(1, 1) == (Binary64 { bits: ONE_BITS }),
        ratio(headroom_percent as nat, 100).is_unsigned_amount(),
        ratio(headroom_percent as nat, 100).number() < ratio(1, 1).number(),
        usable_share(headroom_percent).is_finite(),
        usable_share(headroom_percent).is_unsigned_amount(),
        0 < usable_share(headroom_percent).number() <= unit(),
{
    let u = unit();
    let h = headroom_percent as nat;
    lemma_one();
    assert(1 * u == u && u * 1 == u);
    lemma_rounded_at_least(1 * u, 1, ONE_BITS);
    lemma_rounded_at_most(1 * u, 1, ONE_BITS);
    // The share that stays free is at most 0.99, well below one.
    let below_one = (ONE_BITS - 1) as u64;
    let free = ratio(h, 100);
    vstd::arithmetic::power2::lemma_pow2_adds(1021, 53);
    vstd::arithmetic::power2::lemma2_to64_rest();
    vstd::arithmetic::power2::lemma_pow2_pos(1021);
    let m = magnitude(below_one as int);
    let small = vstd::arithmetic::power2::pow2(1021);
    assert(h * u <= m * 100) by (nonlinear_arith)
        requires
            h <= 99,
            m == u - small,
            u == small * 0x20_0000_0000_0000,
            small > 0,
    ;
    lemma_rounded_at_most(h * u, 100, below_one);
    crate::binary64::lemma_magnitude_increases(free.bits as int, ONE_BITS as int);
    let rest = (u - free.number()) as nat;
    lemma_rounded_at_least(rest, 1, 1);
    lemma_rounded_at_most(rest, 1, ONE_BITS);
    let share = usable_share(headroom_percent);
    crate::binary64::lemma_magnitude_increases(0, share.bits as int);
    if share.bits < ONE_BITS {
        crate::binary64::lemma_magnitude_increases(share.bits as int, ONE_BITS as int);
    }
}

/// Fails, naming the value, where it is not finite or negative.
pub fn validate_nonnegative(value: Binary64, name: &str) -> (r: Result<(), String>)
    ensures
        match r {
            Ok(_) => is_valid_size(value),
            Err(message) => !is_valid_size(value) && message@ == name@
                + " must be finite and non-negative"@,
        },
{
    if value.finite_amount() {
        Ok(())
    } else {
        let mut message = name.to_string();
        message.append(" must be finite and non-negative");
        Err(message)
    }
}

/// The smallest listed tier that holds `need_gb`.
pub fn next_tier(need_gb: Binary64) -> (r: Option<u32>)
    ensures
        is_next_tier(need_gb, r),
{
    let mut i: usize = 0;
    while i < 7
        invariant
            i <= 7,
            forall|j: int|
                0 <= j < i ==> need_gb.is_nan() || need_gb.number() > #[trigger] SSD_TIERS_GB@[j]
                    * unit(),
        decreases 7 - i,
    {
        let tier: u32 = SSD_TIERS_GB[i];
        if need_gb.at_most_whole(tier) {
            return Some(tier);
        }
        i += 1;
    }
    None
}

/// What the models take together, and the largest of them alone.
fn sizes_of(models: &Vec<StorageModelEstimate>) -> (r: (Binary64, Binary64))
    requires
        forall|k: int| 0 <= k < models@.len() ==> (#[trigger] models@[k])@.is_sound(),
    ensures
        r.0 == total_size(views(models@)),
        r.1 == largest_size(views(models@)),
        r.0.is_unsigned_amount(),
        r.1.is_amount(),
{
    let mut total = Binary64::from_bits(0);
    let mut largest = Binary64::from_bits(0);
    let mut i: usize = 0;
    proof {
        assert(magnitude(0) == 0);
    }
    while i < models.len()
        invariant
            i <= models@.len(),
            forall|k: int| 0 <= k < models@.len() ==> (#[trigger] models@[k])@.is_sound(),
            total == total_size(views(models@).take(i as int)),
            largest == largest_size(views(models@).take(i as int)),
            total.is_unsigned_amount(),
            largest.is_amount(),
        decreases models.len() - i,
    {
        let size = models[i].disk_size_gb;
        proof {
            let longer = views(models@).take(i + 1);
            assert(longer.drop_last() =~= views(models@).take(i as int));
            assert(longer.last() == models@[i as int]@);
        }
        total = total.plus(size);
        if largest.below(size) {
            largest = size;
        }
        i += 1;
    }
    assert(views(models@).take(i as int) =~= views(models@));
    (total, largest)
}

/// What is said of a result that falls short of the request.
fn warnings_about(keep: usize, found: usize, suggested: Option<u32>) -> (r: Vec<String>)
    ensures
        texts(r@) == warnings_for(keep as nat, found as nat, suggested),
{
    let mut warnings: Vec<String> = Vec::new();
    if found == 0 {
        warnings.push(
            "No runnable models match the filters; no SSD recommendation was made".to_string(),
        );
    } else {
        if found < keep {
            let mut message = concat3(
                "Requested ",
                decimal_text(keep).as_str(),
                " models, but only ",
            );
            message.append(decimal_text(found).as_str());
            message.append(" are eligible");
            warnings.push(message);
        }
        if suggested.is_none() {
            warnings.push(
                "No listed SSD tier is large enough for the requested headroom; use target_capacity_gb to size a larger drive".to_string(),
            );
        }
    }
    assert(texts(warnings@) =~= warnings_for(keep as nat, found as nat, suggested));
    warnings
}

/// Size a library from backend-compatible, sanitization-checked fits. The caller
/// may further narrow the search scope. Counts each catalog identity once and
/// never sums models' RAM requirements.
pub fn estimate_storage(fits: Vec<ModelFit>, request: &StorageRequest) -> (r: Result<
    StorageEstimate,
    String,
>)
    ensures
        match r {
            Ok(report) => estimate_fault(fits@, *request) is None && is_estimate(
                report,
                fits@,
                *request,
            ),
            Err(message) => estimate_fault(fits@, *request) == Some(message@),
        },
{
    if request.keep == 0 {
        return Err("--keep must be at least 1".to_string());
    }
    match validate_nonnegative(request.os_reserve_gb, "OS reserve") {
        Ok(_) => {},
        Err(message) => {
            return Err(message);
        },
    }
    if let ScratchPolicy::Fixed(gb) = request.scratch {
        match validate_nonnegative(gb, "Download scratch") {
            Ok(_) => {},
            Err(message) => {
                return Err(message);
            },
        }
    }
    if request.headroom_percent >= 100 {
        return Err("--headroom must be between 0 and 99 percent".to_string());
    }
    let mut models = match rank_candidates(&fits, request.perfect, request.selection) {
        Ok(ranked) => ranked,
        Err(message) => {
            return Err(message);
        },
    };
    let eligible_count: usize = models.len();
    let ghost ranked = views(models@);
    models.truncate(request.keep);
    proof {
        assert(views(models@) =~= best(ranked, request.keep as nat));
        lemma_usable_share(request.headroom_percent);
    }
    let selected_count: usize = models.len();
    let (library_gb, largest) = sizes_of(&models);
    let download_scratch_gb = if selected_count == 0 {
        Binary64::from_bits(0)
    } else {
        match request.scratch {
            ScratchPolicy::Auto => largest,
            ScratchPolicy::Fixed(gb) => gb,
        }
    };
    let need_gb = request.os_reserve_gb.plus(library_gb).plus(download_scratch_gb);
    let share = Binary64::from_ratio(1, 1).minus(
        Binary64::from_ratio(request.headroom_percent as u64, 100),
    );
    let target_capacity_gb = need_gb.over(share);
    if !need_gb.finite() || !target_capacity_gb.finite() {
        return Err("Storage requirement exceeds the supported numeric range".to_string());
    }
    let (minimum_ssd_gb, suggested_ssd_gb) = if selected_count == 0 {
        (None, None)
    } else {
        (next_tier(need_gb), next_tier(target_capacity_gb))
    };
    let warnings = warnings_about(request.keep, selected_count, suggested_ssd_gb);
    Ok(
        StorageEstimate {
            selection: request.selection,
            keep_requested: request.keep,
            selected_count,
            eligible_count,
            perfect: request.perfect,
            models,
            library_gb,
            os_reserve_gb: request.os_reserve_gb,
            scratch_policy: request.scratch,
            download_scratch_gb,
            headroom_percent: request.headroom_percent,
            need_gb,
            target_capacity_gb,
            minimum_ssd_gb,
            suggested_ssd_gb,
            estimate_notice: "Estimated weights in decimal GB for one library copy used sequentially. Actual artifacts, auxiliary files, and runtime caches may differ. Automatic scratch covers one additional download as large as the largest selected model. Reserve and free headroom are planning allowances; current disk usage is not measured.".to_string(),
            warnings,
        },
    )
}

} // verus!
