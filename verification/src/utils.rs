//! Parameter and result records, their assembly across runs, and the
//! naming helpers for stored results.

use vstd::prelude::*;
use crate::agent::{ResourceDistributionModel, Strategy};
use crate::fixed::{div_trunc, div_trunc_wide, lemma_avg_in_range};

verus! {

/// One resolved contest: who fought, what each side staked, what each
/// side owned beforehand, and who won (0 the focal side, 1 the enemy).
#[derive(Clone, Copy, PartialEq, Eq, Structural, Debug)]
pub struct FightingEvent {
    pub id_enemy: usize,
    pub id_event: usize,
    pub id_focal: usize,
    pub investment_enemy: i64,
    pub investment_focal: i64,
    pub resources_enemy: i64,
    pub resources_focal: i64,
    pub strategy_enemy: Strategy,
    pub strategy_focal: Strategy,
    pub time: usize,
    pub winner: usize,
}

/// The parameters of one simulation.  All rates, payoffs and fractions
/// are fixed-point values in millionths.
#[derive(Clone, Copy, PartialEq, Eq, Structural, Debug)]
pub struct Input {
    pub cutoff_resources: i64,
    pub flag_analysis_event: bool,
    pub flag_analysis_global: bool,
    pub flag_analysis_time: bool,
    pub fraction_cooperators: i64,
    pub fraction_defectors: i64,
    pub fraction_investment: i64,
    pub model_distribution_resources: ResourceDistributionModel,
    pub nsims: usize,
    pub parameter_noise: i64,
    pub parameter_technology: i64,
    pub payoff_cooperation: i64,
    pub payoff_defection: i64,
    pub rate_consumption: i64,
    pub t_average: usize,
    pub t_equilibrium: usize,
}

/// What the dynamical loop itself needs of the parameters.
pub open spec fn valid_input(pars: Input) -> bool {
    &&& pars.parameter_noise >= 0
    &&& pars.parameter_technology >= 0
    &&& pars.t_average >= 1
    &&& pars.t_equilibrium + pars.t_average <= usize::MAX
}

/// Run-level time-averaged strategy fractions and payoffs, in millionths.
#[derive(Clone, Copy, PartialEq, Eq, Structural, Debug)]
pub struct OutputGlobal {
    pub fraction_cooperators: i64,
    pub fraction_defectors: i64,
    pub fraction_fighters: i64,
    pub payoff_cooperators: i64,
    pub payoff_defectors: i64,
    pub payoff_fighters: i64,
}

/// The global records of several runs, stacked field by field.
#[derive(Clone, PartialEq, Eq, Debug)]
pub struct OutputGlobalAssembled {
    pub fraction_cooperators: Vec<i64>,
    pub fraction_defectors: Vec<i64>,
    pub fraction_fighters: Vec<i64>,
    pub payoff_cooperators: Vec<i64>,
    pub payoff_defectors: Vec<i64>,
    pub payoff_fighters: Vec<i64>,
}

/// Per-timestep strategy counts and per-strategy average payoffs.
#[derive(Clone, PartialEq, Eq, Debug)]
pub struct TimeSeries {
    pub number_cooperators: Vec<usize>,
    pub number_defectors: Vec<usize>,
    pub number_fighters: Vec<usize>,
    pub payoff_cooperators: Vec<i64>,
    pub payoff_defectors: Vec<i64>,
    pub payoff_fighters: Vec<i64>,
}

/// Everything one run produces.
#[derive(Clone, PartialEq, Eq, Debug)]
pub struct Output {
    pub global: OutputGlobal,
    pub events: Option<Vec<FightingEvent>>,
    pub time: Option<TimeSeries>,
}

/// The spec selector for `assemble_events`: a run's event log, if it
/// kept one.
pub open spec fn events_of(o: Output) -> Option<Seq<FightingEvent>> {
    match o.events {
        Some(evs) => Some(evs@),
        None => None,
    }
}

/// An element-wise copy of an event log.
fn copy_events(v: &Vec<FightingEvent>) -> (r: Vec<FightingEvent>)
    ensures
        r@ == v@,
{
    let mut r: Vec<FightingEvent> = Vec::new();
    let mut k: usize = 0;
    while k < v.len()
        invariant
            k <= v@.len(),
            r@ == v@.take(k as int),
        decreases v@.len() - k,
    {
        r.push(v[k]);
        proof {
            assert(v@.take(k as int + 1) =~= v@.take(k as int).push(v@[k as int]));
        }
        k += 1;
    }
    proof {
        assert(v@.take(v@.len() as int) =~= v@);
    }
    r
}

/// The event logs of the runs that kept one, in run order.
pub fn assemble_events(output_ensemble: &Vec<Output>) -> (r: Vec<Vec<FightingEvent>>)
    ensures
        r@.map_values(|v: Vec<FightingEvent>| v@)
            == output_ensemble@.filter_map(|o: Output| events_of(o)),
{
    let mut event_ensemble: Vec<Vec<FightingEvent>> = Vec::new();
    let n = output_ensemble.len();
    let mut i: usize = 0;
    proof {
        assert(output_ensemble@.take(0).filter_map(|o: Output| events_of(o))
            =~= Seq::<Seq<FightingEvent>>::empty());
        assert(event_ensemble@.map_values(|v: Vec<FightingEvent>| v@)
            =~= Seq::<Seq<FightingEvent>>::empty());
    }
    while i < n
        invariant
            i <= n,
            n == output_ensemble@.len(),
            event_ensemble@.map_values(|v: Vec<FightingEvent>| v@)
                == output_ensemble@.take(i as int).filter_map(|o: Output| events_of(o)),
        decreases n - i,
    {
        let ghost pre = event_ensemble@;
        let o = &output_ensemble[i];
        match &o.events {
            Some(events) => {
                event_ensemble.push(copy_events(events));
            }
            None => {}
        }
        proof {
            let f = |o: Output| events_of(o);
            let g = |v: Vec<FightingEvent>| v@;
            let t1 = output_ensemble@.take(i as int + 1);
            assert(t1.drop_last() =~= output_ensemble@.take(i as int));
            assert(t1.last() == output_ensemble@[i as int]);
            match output_ensemble@[i as int].events {
                Some(evs) => {
                    assert(event_ensemble@.map_values(g) =~= pre.map_values(g) + seq![evs@]);
                }
                None => {}
            }
        }
        i += 1;
    }
    proof {
        assert(output_ensemble@.take(n as int) =~= output_ensemble@);
    }
    event_ensemble
}

/// The global record of run `sim`, stacked at index `sim` of each field.
pub fn assemble_global(output_ensemble: &Vec<Output>) -> (r: OutputGlobalAssembled)
    ensures
        r.fraction_cooperators@.len() == output_ensemble@.len(),
        r.fraction_defectors@.len() == output_ensemble@.len(),
        r.fraction_fighters@.len() == output_ensemble@.len(),
        r.payoff_cooperators@.len() == output_ensemble@.len(),
        r.payoff_defectors@.len() == output_ensemble@.len(),
        r.payoff_fighters@.len() == output_ensemble@.len(),
        forall|sim: int| 0 <= sim < output_ensemble@.len() ==> {
            &&& r.fraction_cooperators@[sim] == (#[trigger] output_ensemble@[sim]).global.fraction_cooperators
            &&& r.fraction_defectors@[sim] == output_ensemble@[sim].global.fraction_defectors
            &&& r.fraction_fighters@[sim] == output_ensemble@[sim].global.fraction_fighters
            &&& r.payoff_cooperators@[sim] == output_ensemble@[sim].global.payoff_cooperators
            &&& r.payoff_defectors@[sim] == output_ensemble@[sim].global.payoff_defectors
            &&& r.payoff_fighters@[sim] == output_ensemble@[sim].global.payoff_fighters
        },
{
    let nsims = output_ensemble.len();
    let mut fraction_cooperators: Vec<i64> = Vec::new();
    let mut fraction_defectors: Vec<i64> = Vec::new();
    let mut fraction_fighters: Vec<i64> = Vec::new();
    let mut payoff_cooperators: Vec<i64> = Vec::new();
    let mut payoff_defectors: Vec<i64> = Vec::new();
    let mut payoff_fighters: Vec<i64> = Vec::new();
    let mut sim: usize = 0;
    while sim < nsims
        invariant
            sim <= nsims,
            nsims == output_ensemble@.len(),
            fraction_cooperators@.len() == sim,
            fraction_defectors@.len() == sim,
            fraction_fighters@.len() == sim,
            payoff_cooperators@.len() == sim,
            payoff_defectors@.len() == sim,
            payoff_fighters@.len() == sim,
            forall|j: int| 0 <= j < sim ==> {
                &&& fraction_cooperators@[j] == (#[trigger] output_ensemble@[j]).global.fraction_cooperators
                &&& fraction_defectors@[j] == output_ensemble@[j].global.fraction_defectors
                &&& fraction_fighters@[j] == output_ensemble@[j].global.fraction_fighters
                &&& payoff_cooperators@[j] == output_ensemble@[j].global.payoff_cooperators
                &&& payoff_defectors@[j] == output_ensemble@[j].global.payoff_defectors
                &&& payoff_fighters@[j] == output_ensemble@[j].global.payoff_fighters
            },
        decreases nsims - sim,
    {
        let g = output_ensemble[sim].global;
        fraction_cooperators.push(g.fraction_cooperators);
        fraction_defectors.push(g.fraction_defectors);
        fraction_fighters.push(g.fraction_fighters);
        payoff_cooperators.push(g.payoff_cooperators);
        payoff_defectors.push(g.payoff_defectors);
        payoff_fighters.push(g.payoff_fighters);
        sim += 1;
    }
    OutputGlobalAssembled {
        fraction_cooperators,
        fraction_defectors,
        fraction_fighters,
        payoff_cooperators,
        payoff_defectors,
        payoff_fighters,
    }
}


/// The time series a run carries (meaningful only where `time` is Some).
pub open spec fn ts_of(o: Output) -> TimeSeries {
    o.time->Some_0
}

/// One strategy's count series of a run.
pub open spec fn counts_seq(o: Output, s: Strategy) -> Seq<usize> {
    match s {
        Strategy::Cooperator => ts_of(o).number_cooperators@,
        Strategy::Defector => ts_of(o).number_defectors@,
        Strategy::Fighter => ts_of(o).number_fighters@,
    }
}

/// One strategy's payoff series of a run.
pub open spec fn payoffs_seq(o: Output, s: Strategy) -> Seq<i64> {
    match s {
        Strategy::Cooperator => ts_of(o).payoff_cooperators@,
        Strategy::Defector => ts_of(o).payoff_defectors@,
        Strategy::Fighter => ts_of(o).payoff_fighters@,
    }
}

/// One strategy's global fraction of a run.
pub open spec fn gfrac_of(o: Output, s: Strategy) -> int {
    match s {
        Strategy::Cooperator => o.global.fraction_cooperators as int,
        Strategy::Defector => o.global.fraction_defectors as int,
        Strategy::Fighter => o.global.fraction_fighters as int,
    }
}

/// One strategy's global payoff of a run.
pub open spec fn gpay_of(o: Output, s: Strategy) -> int {
    match s {
        Strategy::Cooperator => o.global.payoff_cooperators as int,
        Strategy::Defector => o.global.payoff_defectors as int,
        Strategy::Fighter => o.global.payoff_fighters as int,
    }
}

/// Global fractions summed over the first `k` runs.
pub open spec fn sum_gfrac_upto(outs: Seq<Output>, s: Strategy, k: int) -> int
    decreases k,
{
    if k <= 0 {
        0
    } else {
        sum_gfrac_upto(outs, s, k - 1) + gfrac_of(outs[k - 1], s)
    }
}

/// Global payoffs summed over the first `k` runs.
pub open spec fn sum_gpay_upto(outs: Seq<Output>, s: Strategy, k: int) -> int
    decreases k,
{
    if k <= 0 {
        0
    } else {
        sum_gpay_upto(outs, s, k - 1) + gpay_of(outs[k - 1], s)
    }
}

/// Slot `j` of the count series, summed over the first `k` runs.
pub open spec fn sum_count_upto(outs: Seq<Output>, s: Strategy, j: int, k: int) -> int
    decreases k,
{
    if k <= 0 {
        0
    } else {
        sum_count_upto(outs, s, j, k - 1) + counts_seq(outs[k - 1], s)[j]
    }
}

/// Slot `j` of the payoff series, summed over the first `k` runs.
pub open spec fn sum_pay_upto(outs: Seq<Output>, s: Strategy, j: int, k: int) -> int
    decreases k,
{
    if k <= 0 {
        0
    } else {
        sum_pay_upto(outs, s, j, k - 1) + payoffs_seq(outs[k - 1], s)[j]
    }
}

/// Every run carries a full time series of one common length.
pub open spec fn uniform_runs(outs: Seq<Output>, l: int) -> bool {
    forall|i: int| 0 <= i < outs.len() ==> {
        &&& (#[trigger] outs[i]).time is Some
        &&& ts_of(outs[i]).number_cooperators@.len() == l
        &&& ts_of(outs[i]).number_defectors@.len() == l
        &&& ts_of(outs[i]).number_fighters@.len() == l
        &&& ts_of(outs[i]).payoff_cooperators@.len() == l
        &&& ts_of(outs[i]).payoff_defectors@.len() == l
        &&& ts_of(outs[i]).payoff_fighters@.len() == l
    }
}

/// No slot's count total overflows the machine word.
pub open spec fn count_sums_fit(outs: Seq<Output>, l: int) -> bool {
    forall|j: int| 0 <= j < l ==> {
        &&& #[trigger] sum_count_upto(outs, Strategy::Cooperator, j, outs.len() as int)
            <= usize::MAX
        &&& sum_count_upto(outs, Strategy::Defector, j, outs.len() as int) <= usize::MAX
        &&& sum_count_upto(outs, Strategy::Fighter, j, outs.len() as int) <= usize::MAX
    }
}

/// The summary record: every global field the truncated mean over the
/// runs, every series slot the truncated mean of that slot, no events.
pub open spec fn is_summary_of(r: Output, outs: Seq<Output>) -> bool {
    let n = outs.len() as int;
    let l = counts_seq(outs[0], Strategy::Cooperator).len() as int;
    &&& r.events is None
    &&& r.time is Some
    &&& r.global.fraction_cooperators as int
        == div_trunc(sum_gfrac_upto(outs, Strategy::Cooperator, n), n)
    &&& r.global.fraction_defectors as int
        == div_trunc(sum_gfrac_upto(outs, Strategy::Defector, n), n)
    &&& r.global.fraction_fighters as int
        == div_trunc(sum_gfrac_upto(outs, Strategy::Fighter, n), n)
    &&& r.global.payoff_cooperators as int
        == div_trunc(sum_gpay_upto(outs, Strategy::Cooperator, n), n)
    &&& r.global.payoff_defectors as int
        == div_trunc(sum_gpay_upto(outs, Strategy::Defector, n), n)
    &&& r.global.payoff_fighters as int
        == div_trunc(sum_gpay_upto(outs, Strategy::Fighter, n), n)
    &&& ts_of(r).number_cooperators@.len() == l
    &&& ts_of(r).number_defectors@.len() == l
    &&& ts_of(r).number_fighters@.len() == l
    &&& ts_of(r).payoff_cooperators@.len() == l
    &&& ts_of(r).payoff_defectors@.len() == l
    &&& ts_of(r).payoff_fighters@.len() == l
    &&& summary_slots_ok(r, outs)
}

/// Every series slot of the summary is the truncated cross-run mean of
/// that slot.
pub open spec fn summary_slots_ok(r: Output, outs: Seq<Output>) -> bool {
    let n = outs.len() as int;
    let l = counts_seq(outs[0], Strategy::Cooperator).len() as int;
    &&& forall|j: int| 0 <= j < l ==> (#[trigger] ts_of(r).number_cooperators@[j]) as int
        == div_trunc(sum_count_upto(outs, Strategy::Cooperator, j, n), n)
    &&& forall|j: int| 0 <= j < l ==> (#[trigger] ts_of(r).number_defectors@[j]) as int
        == div_trunc(sum_count_upto(outs, Strategy::Defector, j, n), n)
    &&& forall|j: int| 0 <= j < l ==> (#[trigger] ts_of(r).number_fighters@[j]) as int
        == div_trunc(sum_count_upto(outs, Strategy::Fighter, j, n), n)
    &&& forall|j: int| 0 <= j < l ==> (#[trigger] ts_of(r).payoff_cooperators@[j]) as int
        == div_trunc(sum_pay_upto(outs, Strategy::Cooperator, j, n), n)
    &&& forall|j: int| 0 <= j < l ==> (#[trigger] ts_of(r).payoff_defectors@[j]) as int
        == div_trunc(sum_pay_upto(outs, Strategy::Defector, j, n), n)
    &&& forall|j: int| 0 <= j < l ==> (#[trigger] ts_of(r).payoff_fighters@[j]) as int
        == div_trunc(sum_pay_upto(outs, Strategy::Fighter, j, n), n)
}

/// Global sums stay within `k` copies of the `i64` range.
proof fn lemma_gsum_bounds(outs: Seq<Output>, s: Strategy, k: int)
    requires
        0 <= k,
    ensures
        k * (i64::MIN as int) <= sum_gfrac_upto(outs, s, k) <= k * (i64::MAX as int),
        k * (i64::MIN as int) <= sum_gpay_upto(outs, s, k) <= k * (i64::MAX as int),
    decreases k,
{
    if k > 0 {
        lemma_gsum_bounds(outs, s, k - 1);
        assert(k * (i64::MIN as int) == (k - 1) * (i64::MIN as int) + i64::MIN as int)
            by (nonlinear_arith);
        assert(k * (i64::MAX as int) == (k - 1) * (i64::MAX as int) + i64::MAX as int)
            by (nonlinear_arith);
    }
}

/// Payoff slot sums stay within `k` copies of the `i64` range.
proof fn lemma_psum_bounds(outs: Seq<Output>, s: Strategy, j: int, k: int)
    requires
        0 <= k,
    ensures
        k * (i64::MIN as int) <= sum_pay_upto(outs, s, j, k) <= k * (i64::MAX as int),
    decreases k,
{
    if k > 0 {
        lemma_psum_bounds(outs, s, j, k - 1);
        assert(k * (i64::MIN as int) == (k - 1) * (i64::MIN as int) + i64::MIN as int)
            by (nonlinear_arith);
        assert(k * (i64::MAX as int) == (k - 1) * (i64::MAX as int) + i64::MAX as int)
            by (nonlinear_arith);
    }
}

/// Count sums only grow with more runs.
pub proof fn lemma_count_sum_monotone(outs: Seq<Output>, s: Strategy, j: int, k1: int, k2: int)
    requires
        0 <= k1 <= k2,
    ensures
        0 <= sum_count_upto(outs, s, j, k1) <= sum_count_upto(outs, s, j, k2),
    decreases k2,
{
    if k2 > 0 {
        if k1 == k2 {
            lemma_count_sum_monotone(outs, s, j, 0, k2 - 1);
        } else {
            lemma_count_sum_monotone(outs, s, j, k1, k2 - 1);
        }
    }
}


/// One more run's global record still fits the wide accumulator.
proof fn lemma_gsum_step_fits(outs: Seq<Output>, s: Strategy, k: int)
    requires
        0 <= k,
        k + 1 <= 18_446_744_073_709_551_615,
    ensures
        i128::MIN as int <= sum_gfrac_upto(outs, s, k + 1) <= i128::MAX as int,
        i128::MIN as int <= sum_gpay_upto(outs, s, k + 1) <= i128::MAX as int,
{
    lemma_gsum_bounds(outs, s, k + 1);
    assert((k + 1) * (i64::MIN as int) >= i128::MIN as int
        && (k + 1) * (i64::MAX as int) <= i128::MAX as int) by (nonlinear_arith)
        requires
            1 <= k + 1 <= 18_446_744_073_709_551_615,
    ;
}

/// One more run's payoff slot still fits the wide accumulator.
proof fn lemma_psum_step_fits(outs: Seq<Output>, s: Strategy, j: int, k: int)
    requires
        0 <= k,
        k + 1 <= 18_446_744_073_709_551_615,
    ensures
        i128::MIN as int <= sum_pay_upto(outs, s, j, k + 1) <= i128::MAX as int,
{
    lemma_psum_bounds(outs, s, j, k + 1);
    assert((k + 1) * (i64::MIN as int) >= i128::MIN as int
        && (k + 1) * (i64::MAX as int) <= i128::MAX as int) by (nonlinear_arith)
        requires
            1 <= k + 1 <= 18_446_744_073_709_551_615,
    ;
}

/// The cross-run summary: every global field and every series slot
/// becomes the truncated mean over the runs; the summary carries no
/// event log of its own.
#[verifier::rlimit(80)]
pub fn summary_stats_output(output_ensemble: &Vec<Output>) -> (r: Output)
    requires
        output_ensemble@.len() >= 1,
        uniform_runs(output_ensemble@,
            counts_seq(output_ensemble@[0], Strategy::Cooperator).len() as int),
        count_sums_fit(output_ensemble@,
            counts_seq(output_ensemble@[0], Strategy::Cooperator).len() as int),
    ensures
        is_summary_of(r, output_ensemble@),
{
    let ghost outs = output_ensemble@;
    let nsims = output_ensemble.len();
    let mut gfc: i128 = 0;
    let mut gfd: i128 = 0;
    let mut gff: i128 = 0;
    let mut gpc: i128 = 0;
    let mut gpd: i128 = 0;
    let mut gpf: i128 = 0;
    let mut i: usize = 0;
    while i < nsims
        invariant
            i <= nsims,
            nsims == outs.len(),
            outs == output_ensemble@,
            gfc as int == sum_gfrac_upto(outs, Strategy::Cooperator, i as int),
            gfd as int == sum_gfrac_upto(outs, Strategy::Defector, i as int),
            gff as int == sum_gfrac_upto(outs, Strategy::Fighter, i as int),
            gpc as int == sum_gpay_upto(outs, Strategy::Cooperator, i as int),
            gpd as int == sum_gpay_upto(outs, Strategy::Defector, i as int),
            gpf as int == sum_gpay_upto(outs, Strategy::Fighter, i as int),
        decreases nsims - i,
    {
        proof {
            lemma_gsum_step_fits(outs, Strategy::Cooperator, i as int);
            lemma_gsum_step_fits(outs, Strategy::Defector, i as int);
            lemma_gsum_step_fits(outs, Strategy::Fighter, i as int);
        }
        let g = output_ensemble[i].global;
        gfc = gfc + g.fraction_cooperators as i128;
        gfd = gfd + g.fraction_defectors as i128;
        gff = gff + g.fraction_fighters as i128;
        gpc = gpc + g.payoff_cooperators as i128;
        gpd = gpd + g.payoff_defectors as i128;
        gpf = gpf + g.payoff_fighters as i128;
        i += 1;
    }
    proof {
        lemma_gsum_bounds(outs, Strategy::Cooperator, nsims as int);
        lemma_gsum_bounds(outs, Strategy::Defector, nsims as int);
        lemma_gsum_bounds(outs, Strategy::Fighter, nsims as int);
        lemma_avg_in_range(gfc as int, nsims as int);
        lemma_avg_in_range(gfd as int, nsims as int);
        lemma_avg_in_range(gff as int, nsims as int);
        lemma_avg_in_range(gpc as int, nsims as int);
        lemma_avg_in_range(gpd as int, nsims as int);
        lemma_avg_in_range(gpf as int, nsims as int);
    }
    let output_global = OutputGlobal {
        fraction_cooperators: div_trunc_wide(gfc, nsims as u128) as i64,
        fraction_defectors: div_trunc_wide(gfd, nsims as u128) as i64,
        fraction_fighters: div_trunc_wide(gff, nsims as u128) as i64,
        payoff_cooperators: div_trunc_wide(gpc, nsims as u128) as i64,
        payoff_defectors: div_trunc_wide(gpd, nsims as u128) as i64,
        payoff_fighters: div_trunc_wide(gpf, nsims as u128) as i64,
    };
    let l: usize = match &output_ensemble[0].time {
        Some(ts0) => ts0.number_cooperators.len(),
        None => {
            proof {
                assert(false);
            }
            0
        }
    };
    let mut avg_nc: Vec<usize> = Vec::new();
    let mut avg_nd: Vec<usize> = Vec::new();
    let mut avg_nf: Vec<usize> = Vec::new();
    let mut avg_pc: Vec<i64> = Vec::new();
    let mut avg_pd: Vec<i64> = Vec::new();
    let mut avg_pf: Vec<i64> = Vec::new();
    let mut j: usize = 0;
    while j < l
        invariant
            j <= l,
            nsims == outs.len(),
            nsims >= 1,
            outs == output_ensemble@,
            l == counts_seq(outs[0], Strategy::Cooperator).len(),
            uniform_runs(outs, l as int),
            count_sums_fit(outs, l as int),
            avg_nc@.len() == j,
            avg_nd@.len() == j,
            avg_nf@.len() == j,
            avg_pc@.len() == j,
            avg_pd@.len() == j,
            avg_pf@.len() == j,
            forall|jj: int| 0 <= jj < j ==> {
                &&& (#[trigger] avg_nc@[jj]) as int
                    == div_trunc(sum_count_upto(outs, Strategy::Cooperator, jj, nsims as int),
                        nsims as int)
                &&& avg_nd@[jj] as int
                    == div_trunc(sum_count_upto(outs, Strategy::Defector, jj, nsims as int),
                        nsims as int)
                &&& avg_nf@[jj] as int
                    == div_trunc(sum_count_upto(outs, Strategy::Fighter, jj, nsims as int),
                        nsims as int)
                &&& avg_pc@[jj] as int
                    == div_trunc(sum_pay_upto(outs, Strategy::Cooperator, jj, nsims as int),
                        nsims as int)
                &&& avg_pd@[jj] as int
                    == div_trunc(sum_pay_upto(outs, Strategy::Defector, jj, nsims as int),
                        nsims as int)
                &&& avg_pf@[jj] as int
                    == div_trunc(sum_pay_upto(outs, Strategy::Fighter, jj, nsims as int),
                        nsims as int)
            },
        decreases l - j,
    {
        let mut snc: usize = 0;
        let mut snd: usize = 0;
        let mut snf: usize = 0;
        let mut spc: i128 = 0;
        let mut spd: i128 = 0;
        let mut spf: i128 = 0;
        let mut i2: usize = 0;
        while i2 < nsims
            invariant
                i2 <= nsims,
                nsims == outs.len(),
                nsims >= 1,
                outs == output_ensemble@,
                j < l,
                l == counts_seq(outs[0], Strategy::Cooperator).len(),
                uniform_runs(outs, l as int),
                count_sums_fit(outs, l as int),
                snc as int == sum_count_upto(outs, Strategy::Cooperator, j as int, i2 as int),
                snd as int == sum_count_upto(outs, Strategy::Defector, j as int, i2 as int),
                snf as int == sum_count_upto(outs, Strategy::Fighter, j as int, i2 as int),
                spc as int == sum_pay_upto(outs, Strategy::Cooperator, j as int, i2 as int),
                spd as int == sum_pay_upto(outs, Strategy::Defector, j as int, i2 as int),
                spf as int == sum_pay_upto(outs, Strategy::Fighter, j as int, i2 as int),
            decreases nsims - i2,
        {
            proof {
                lemma_count_sum_monotone(outs, Strategy::Cooperator, j as int, i2 as int + 1,
                    nsims as int);
                lemma_count_sum_monotone(outs, Strategy::Defector, j as int, i2 as int + 1,
                    nsims as int);
                lemma_count_sum_monotone(outs, Strategy::Fighter, j as int, i2 as int + 1,
                    nsims as int);
                lemma_psum_step_fits(outs, Strategy::Cooperator, j as int, i2 as int);
                lemma_psum_step_fits(outs, Strategy::Defector, j as int, i2 as int);
                lemma_psum_step_fits(outs, Strategy::Fighter, j as int, i2 as int);
            }
            match &output_ensemble[i2].time {
                Some(tsi) => {
                    snc = snc + tsi.number_cooperators[j];
                    snd = snd + tsi.number_defectors[j];
                    snf = snf + tsi.number_fighters[j];
                    spc = spc + tsi.payoff_cooperators[j] as i128;
                    spd = spd + tsi.payoff_defectors[j] as i128;
                    spf = spf + tsi.payoff_fighters[j] as i128;
                }
                None => {
                    proof {
                        assert(false);
                    }
                }
            }
            i2 += 1;
        }
        proof {
            lemma_psum_bounds(outs, Strategy::Cooperator, j as int, nsims as int);
            lemma_psum_bounds(outs, Strategy::Defector, j as int, nsims as int);
            lemma_psum_bounds(outs, Strategy::Fighter, j as int, nsims as int);
            lemma_avg_in_range(spc as int, nsims as int);
            lemma_avg_in_range(spd as int, nsims as int);
            lemma_avg_in_range(spf as int, nsims as int);
        }
        proof {
            assert(div_trunc(snc as int, nsims as int) == snc as int / nsims as int);
            assert(div_trunc(snd as int, nsims as int) == snd as int / nsims as int);
            assert(div_trunc(snf as int, nsims as int) == snf as int / nsims as int);
        }
        let ghost nc_pre = avg_nc@;
        avg_nc.push(snc / nsims);
        avg_nd.push(snd / nsims);
        avg_nf.push(snf / nsims);
        avg_pc.push(div_trunc_wide(spc, nsims as u128) as i64);
        avg_pd.push(div_trunc_wide(spd, nsims as u128) as i64);
        avg_pf.push(div_trunc_wide(spf, nsims as u128) as i64);
        proof {
            assert(avg_nc@[j as int] as int
                == div_trunc(sum_count_upto(outs, Strategy::Cooperator, j as int, nsims as int),
                    nsims as int));
            assert(avg_pc@[j as int] as int
                == div_trunc(sum_pay_upto(outs, Strategy::Cooperator, j as int, nsims as int),
                    nsims as int));
            assert(forall|jj: int| 0 <= jj < j ==> (#[trigger] avg_nc@[jj]) == nc_pre[jj]);
        }
        j += 1;
    }
    let output_time = TimeSeries {
        number_cooperators: avg_nc,
        number_defectors: avg_nd,
        number_fighters: avg_nf,
        payoff_cooperators: avg_pc,
        payoff_defectors: avg_pd,
        payoff_fighters: avg_pf,
    };
    let r = Output { global: output_global, events: None, time: Some(output_time) };
    proof {
        let n = outs.len() as int;
        let l2 = counts_seq(outs[0], Strategy::Cooperator).len() as int;
        assert(ts_of(r).number_cooperators@.len() == l2);
        assert forall|jj: int| 0 <= jj < l2 implies
            (#[trigger] ts_of(r).number_cooperators@[jj]) as int
                == div_trunc(sum_count_upto(outs, Strategy::Cooperator, jj, n), n) by {
            assert(avg_nc@[jj] as int
                == div_trunc(sum_count_upto(outs, Strategy::Cooperator, jj, n), n));
        }
        assert forall|jj: int| 0 <= jj < l2 implies
            (#[trigger] ts_of(r).number_defectors@[jj]) as int
                == div_trunc(sum_count_upto(outs, Strategy::Defector, jj, n), n) by {
            assert(avg_nc@[jj] as int
                == div_trunc(sum_count_upto(outs, Strategy::Cooperator, jj, n), n));
        }
        assert forall|jj: int| 0 <= jj < l2 implies
            (#[trigger] ts_of(r).number_fighters@[jj]) as int
                == div_trunc(sum_count_upto(outs, Strategy::Fighter, jj, n), n) by {
            assert(avg_nc@[jj] as int
                == div_trunc(sum_count_upto(outs, Strategy::Cooperator, jj, n), n));
        }
        assert forall|jj: int| 0 <= jj < l2 implies
            (#[trigger] ts_of(r).payoff_cooperators@[jj]) as int
                == div_trunc(sum_pay_upto(outs, Strategy::Cooperator, jj, n), n) by {
            assert(avg_nc@[jj] as int
                == div_trunc(sum_count_upto(outs, Strategy::Cooperator, jj, n), n));
        }
        assert forall|jj: int| 0 <= jj < l2 implies
            (#[trigger] ts_of(r).payoff_defectors@[jj]) as int
                == div_trunc(sum_pay_upto(outs, Strategy::Defector, jj, n), n) by {
            assert(avg_nc@[jj] as int
                == div_trunc(sum_count_upto(outs, Strategy::Cooperator, jj, n), n));
        }
        assert forall|jj: int| 0 <= jj < l2 implies
            (#[trigger] ts_of(r).payoff_fighters@[jj]) as int
                == div_trunc(sum_pay_upto(outs, Strategy::Fighter, jj, n), n) by {
            assert(avg_nc@[jj] as int
                == div_trunc(sum_count_upto(outs, Strategy::Cooperator, jj, n), n));
        }
        assert(summary_slots_ok(r, outs));
        assert(r.global.fraction_cooperators as int
            == div_trunc(sum_gfrac_upto(outs, Strategy::Cooperator, n), n));
        assert(r.global.fraction_defectors as int
            == div_trunc(sum_gfrac_upto(outs, Strategy::Defector, n), n));
        assert(r.global.fraction_fighters as int
            == div_trunc(sum_gfrac_upto(outs, Strategy::Fighter, n), n));
        assert(r.global.payoff_cooperators as int
            == div_trunc(sum_gpay_upto(outs, Strategy::Cooperator, n), n));
        assert(r.global.payoff_defectors as int
            == div_trunc(sum_gpay_upto(outs, Strategy::Defector, n), n));
        assert(r.global.payoff_fighters as int
            == div_trunc(sum_gpay_upto(outs, Strategy::Fighter, n), n));
        assert(r.events is None && r.time is Some);
        assert(ts_of(r).number_defectors@.len() == l2
            && ts_of(r).number_fighters@.len() == l2
            && ts_of(r).payoff_cooperators@.len() == l2
            && ts_of(r).payoff_defectors@.len() == l2
            && ts_of(r).payoff_fighters@.len() == l2);
        assert(is_summary_of(r, outs));
    }
    r
}


/// The spelled-out (or abbreviated) name of a resource distribution.
pub fn convert_enum_location_resource_distribution_to_string(
    resource_distribution_model: ResourceDistributionModel,
    abbreviature_flag: bool,
) -> (r: String)
    ensures
        abbreviature_flag ==> r@ == "UNI"@,
        !abbreviature_flag ==> r@ == "Uniform"@,
{
    match resource_distribution_model {
        ResourceDistributionModel::Uniform => {
            if abbreviature_flag {
                "UNI".to_owned()
            } else {
                "Uniform".to_owned()
            }
        }
    }
}

/// Every accepted spelling names the uniform endowment, the only model
/// implemented; anything else falls back to it as well.
pub fn convert_string_to_location_seed_enum(
    _resource_distribution_model: &str,
) -> (r: ResourceDistributionModel)
    ensures
        r == ResourceDistributionModel::Uniform,
{
    ResourceDistributionModel::Uniform
}

/// What follows the last path separator of `s`.
pub open spec fn after_last_slash(s: Seq<char>) -> Seq<char>
    decreases s.len(),
{
    if s.len() == 0 {
        s
    } else if s.last() == '/' {
        Seq::empty()
    } else {
        after_last_slash(s.drop_last()).push(s.last())
    }
}

pub open spec fn json_suffix() -> Seq<char> {
    seq!['.', 'j', 's', 'o', 'n']
}

/// The network name a path carries: its file name with the `.json`
/// suffix stripped, if it has one.
pub open spec fn spec_network_stem(s: Seq<char>) -> Option<Seq<char>> {
    let f = after_last_slash(s);
    if f.len() >= 5 && f.subrange(f.len() - 5, f.len() as int) == json_suffix() {
        Some(f.subrange(0, f.len() - 5))
    } else {
        None
    }
}

proof fn lemma_after_last_slash(s: Seq<char>, start: int)
    requires
        0 <= start <= s.len(),
        start == 0 || s[start - 1] == '/',
        forall|j: int| start <= j < s.len() ==> s[j] != '/',
    ensures
        after_last_slash(s) == s.subrange(start, s.len() as int),
    decreases s.len(),
{
    if s.len() == 0 {
        assert(after_last_slash(s) =~= s.subrange(0, 0));
    } else if s.last() == '/' {
        assert(start == s.len());
        assert(after_last_slash(s) =~= s.subrange(start, s.len() as int));
    } else {
        assert(start < s.len());
        let d = s.drop_last();
        assert(forall|j: int| start <= j < d.len() ==> d[j] != '/');
        if start > 0 {
            assert(d[start - 1] == '/');
        }
        lemma_after_last_slash(d, start);
        assert(after_last_slash(s) == d.subrange(start, d.len() as int).push(s.last()));
        assert(d.subrange(start, d.len() as int).push(s.last())
            =~= s.subrange(start, s.len() as int));
    }
}

/// The file-name stem of a stored network: what stands after the last
/// `/` with the `.json` suffix stripped; `None` where the suffix is
/// missing.
pub fn get_string_network(path_network: &str) -> (r: Option<String>)
    ensures
        r is Some <==> spec_network_stem(path_network@) is Some,
        r matches Some(stem) ==> Some(stem@) == spec_network_stem(path_network@),
{
    let n = path_network.unicode_len();
    let mut start: usize = 0;
    let mut i: usize = 0;
    while i < n
        invariant
            start <= i <= n,
            n == path_network@.len(),
            start == 0 || path_network@[start - 1] == '/',
            forall|j: int| start <= j < i ==> path_network@[j] != '/',
        decreases n - i,
    {
        if path_network.get_char(i) == '/' {
            start = i + 1;
        }
        i += 1;
    }
    proof {
        lemma_after_last_slash(path_network@, start as int);
        reveal_strlit(".json");
    }
    let ghost f = after_last_slash(path_network@);
    if n - start >= 5 {
        let c0 = path_network.get_char(n - 5);
        let c1 = path_network.get_char(n - 4);
        let c2 = path_network.get_char(n - 3);
        let c3 = path_network.get_char(n - 2);
        let c4 = path_network.get_char(n - 1);
        if c0 == '.' && c1 == 'j' && c2 == 's' && c3 == 'o' && c4 == 'n' {
            let stem = path_network.substring_char(start, n - 5);
            proof {
                assert(f.subrange(f.len() - 5, f.len() as int) =~= json_suffix());
                assert(stem@ =~= f.subrange(0, f.len() - 5));
            }
            Some(stem.to_owned())
        } else {
            proof {
                assert(f.subrange(f.len() - 5, f.len() as int) != json_suffix()) by {
                    if f.subrange(f.len() - 5, f.len() as int) == json_suffix() {
                        assert(f.subrange(f.len() - 5, f.len() as int)[0] == '.');
                        assert(f.subrange(f.len() - 5, f.len() as int)[1] == 'j');
                        assert(f.subrange(f.len() - 5, f.len() as int)[2] == 's');
                        assert(f.subrange(f.len() - 5, f.len() as int)[3] == 'o');
                        assert(f.subrange(f.len() - 5, f.len() as int)[4] == 'n');
                    }
                }
            }
            None
        }
    } else {
        None
    }
}


/// The decimal digit for one value below ten.
pub open spec fn spec_digit_char(d: int) -> char {
    if d == 0 {
        '0'
    } else if d == 1 {
        '1'
    } else if d == 2 {
        '2'
    } else if d == 3 {
        '3'
    } else if d == 4 {
        '4'
    } else if d == 5 {
        '5'
    } else if d == 6 {
        '6'
    } else if d == 7 {
        '7'
    } else if d == 8 {
        '8'
    } else {
        '9'
    }
}

/// The decimal digits of a nonnegative value, most significant first.
pub open spec fn spec_dec(n: int) -> Seq<char>
    recommends
        0 <= n,
    decreases n,
{
    if n < 10 {
        seq![spec_digit_char(n)]
    } else {
        spec_dec(n / 10).push(spec_digit_char(n % 10))
    }
}

/// Exactly `w` decimal digits of `n`, leading zeros kept.
pub open spec fn spec_dec_pad(n: int, w: nat) -> Seq<char>
    decreases w,
{
    if w == 0 {
        Seq::empty()
    } else {
        spec_dec_pad(n / 10, (w - 1) as nat).push(spec_digit_char(n % 10))
    }
}

/// `w`-digit rendering of a fractional part with trailing zero digits
/// dropped.
pub open spec fn spec_frac_digits(f: int, w: nat) -> Seq<char>
    decreases w,
{
    if w == 0 {
        Seq::empty()
    } else if f % 10 == 0 {
        spec_frac_digits(f / 10, (w - 1) as nat)
    } else {
        spec_dec_pad(f, w)
    }
}

/// A fixed-point value rendered as a plain decimal: optional sign, whole
/// part, and the nonzero fractional digits after a point.
pub open spec fn spec_fp_chars(v: int) -> Seq<char> {
    let sign: Seq<char> = if v < 0 {
        seq!['-']
    } else {
        Seq::empty()
    };
    let a = if v < 0 {
        -v
    } else {
        v
    };
    let whole = spec_dec(a / 1_000_000);
    let fr = a % 1_000_000;
    if fr == 0 {
        sign + whole
    } else {
        sign + whole + seq!['.'] + spec_frac_digits(fr, 6)
    }
}

fn digit_str(d: u64) -> (r: &'static str)
    requires
        d < 10,
    ensures
        r@ == seq![spec_digit_char(d as int)],
{
    proof {
        reveal_strlit("0");
        reveal_strlit("1");
        reveal_strlit("2");
        reveal_strlit("3");
        reveal_strlit("4");
        reveal_strlit("5");
        reveal_strlit("6");
        reveal_strlit("7");
        reveal_strlit("8");
        reveal_strlit("9");
    }
    let r: &'static str = match d {
        0 => "0",
        1 => "1",
        2 => "2",
        3 => "3",
        4 => "4",
        5 => "5",
        6 => "6",
        7 => "7",
        8 => "8",
        _ => "9",
    };
    proof {
        assert(r@ =~= seq![spec_digit_char(d as int)]);
    }
    r
}

/// The decimal digits of `n`.
fn u64_dec(n: u64) -> (r: String)
    ensures
        r@ == spec_dec(n as int),
    decreases n,
{
    if n < 10 {
        digit_str(n).to_owned()
    } else {
        let mut s = u64_dec(n / 10);
        s.append(digit_str(n % 10));
        proof {
            assert(s@ =~= spec_dec(n as int));
        }
        s
    }
}

/// Exactly `w` digits of `n`, leading zeros kept.
fn u64_dec_pad(n: u64, w: u64) -> (r: String)
    ensures
        r@ == spec_dec_pad(n as int, w as nat),
    decreases w,
{
    if w == 0 {
        proof {
            reveal_strlit("");
        }
        let r = "".to_owned();
        proof {
            assert(r@ =~= spec_dec_pad(n as int, 0));
        }
        r
    } else {
        let mut s = u64_dec_pad(n / 10, w - 1);
        s.append(digit_str(n % 10));
        proof {
            assert(s@ =~= spec_dec_pad(n as int, w as nat));
        }
        s
    }
}

fn frac_digits(f: u64, w: u64) -> (r: String)
    ensures
        r@ == spec_frac_digits(f as int, w as nat),
    decreases w,
{
    if w == 0 {
        proof {
            reveal_strlit("");
        }
        let r = "".to_owned();
        proof {
            assert(r@ =~= spec_frac_digits(f as int, 0));
        }
        r
    } else if f % 10 == 0 {
        frac_digits(f / 10, w - 1)
    } else {
        u64_dec_pad(f, w)
    }
}

/// A fixed-point value as a decimal string.
fn fp_string(v: i64) -> (r: String)
    ensures
        r@ == spec_fp_chars(v as int),
{
    proof {
        reveal_strlit("");
        reveal_strlit("-");
        reveal_strlit(".");
    }
    let a: u64 = if v >= 0 {
        v as u64
    } else {
        (-(v as i128)) as u64
    };
    let mut s = if v < 0 {
        "-".to_owned()
    } else {
        "".to_owned()
    };
    let whole = u64_dec(a / 1_000_000);
    s.append(whole.as_str());
    let fr = a % 1_000_000;
    if fr != 0 {
        s.append(".");
        let fd = frac_digits(fr, 6);
        s.append(fd.as_str());
    }
    proof {
        assert(s@ =~= spec_fp_chars(v as int));
    }
    s
}

/// The game described by a parameter record, as the character sequence
/// naming its stored results.
pub open spec fn spec_game_string(pars: Input) -> Seq<char> {
    seq!['f', 'c'] + spec_fp_chars(pars.fraction_cooperators as int)
        + seq!['_', 'f', 'd'] + spec_fp_chars(pars.fraction_defectors as int)
        + seq!['_', 'f', 'i'] + spec_fp_chars(pars.fraction_investment as int)
        + seq!['_', 'm', 'd', 'r'] + seq!['U', 'n', 'i', 'f', 'o', 'r', 'm']
        + seq!['_', 'n', 's'] + spec_dec(pars.nsims as int)
        + seq!['_', 'n', 'o', 'i'] + spec_fp_chars(pars.parameter_noise as int)
        + seq!['_', 't', 'e', 'c'] + spec_fp_chars(pars.parameter_technology as int)
        + seq!['_', 'p', 'd'] + spec_fp_chars(pars.payoff_defection as int)
        + seq!['_', 'r', 'c'] + spec_fp_chars(pars.rate_consumption as int)
        + seq!['_', 't', 'a'] + spec_dec(pars.t_average as int)
        + seq!['_', 't', 'e'] + spec_dec(pars.t_equilibrium as int)
}

/// Names a parameter combination: each labelled value rendered as a
/// plain decimal, for the file names the results are stored under.
pub fn construct_string_game(pars_input: &Input) -> (r: String)
    ensures
        r@ == spec_game_string(*pars_input),
{
    proof {
        reveal_strlit("fc");
        reveal_strlit("_fd");
        reveal_strlit("_fi");
        reveal_strlit("_mdr");
        reveal_strlit("_ns");
        reveal_strlit("_noi");
        reveal_strlit("_tec");
        reveal_strlit("_pd");
        reveal_strlit("_rc");
        reveal_strlit("_ta");
        reveal_strlit("_te");
        reveal_strlit("Uniform");
    }
    let mut s = "fc".to_owned();
    let v1 = fp_string(pars_input.fraction_cooperators);
    s.append(v1.as_str());
    s.append("_fd");
    let v2 = fp_string(pars_input.fraction_defectors);
    s.append(v2.as_str());
    s.append("_fi");
    let v3 = fp_string(pars_input.fraction_investment);
    s.append(v3.as_str());
    s.append("_mdr");
    let v4 = convert_enum_location_resource_distribution_to_string(
        pars_input.model_distribution_resources, false);
    s.append(v4.as_str());
    s.append("_ns");
    let v5 = u64_dec(pars_input.nsims as u64);
    s.append(v5.as_str());
    s.append("_noi");
    let v6 = fp_string(pars_input.parameter_noise);
    s.append(v6.as_str());
    s.append("_tec");
    let v7 = fp_string(pars_input.parameter_technology);
    s.append(v7.as_str());
    s.append("_pd");
    let v8 = fp_string(pars_input.payoff_defection);
    s.append(v8.as_str());
    s.append("_rc");
    let v9 = fp_string(pars_input.rate_consumption);
    s.append(v9.as_str());
    s.append("_ta");
    let v10 = u64_dec(pars_input.t_average as u64);
    s.append(v10.as_str());
    s.append("_te");
    let v11 = u64_dec(pars_input.t_equilibrium as u64);
    s.append(v11.as_str());
    proof {
        assert(s@ =~= spec_game_string(*pars_input));
    }
    s
}

} // verus!
