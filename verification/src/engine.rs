//! The simulation engine: the per-timestep interaction, update and
//! settlement phases, and the dynamical loop that drives them.

use vstd::prelude::*;
use crate::agent::{Agent, AgentEnsemble, Strategy, valid_network, neighbors_in_range};
use crate::fixed::{
    FP_ONE, clamp_i64, lemma_avg_in_range, clamp_i128, div_trunc, sat_add64, sat_sub64, sat_add128,
    mul_div_clamped, mul_div_wide, div_trunc_wide, clamp_to_i64, decay, spec_decay,
    spec_fermi, tullock_csf, fermi_probability,
};
use crate::rng::sample_index;
use crate::utils::{
    FightingEvent, Input, Output, OutputGlobal, TimeSeries, valid_input, ts_of, counts_seq,
    uniform_runs, count_sums_fit, sum_count_upto, is_summary_of, summary_stats_output,
};
use crate::agent::{adjacency_valid, valid_fractions, freshly_seeded, lemma_new_network_valid};

verus! {

/// How many of the first `k` entries of `agents` hold strategy `s`.
pub open spec fn count_strat_upto(agents: Seq<Agent>, s: Strategy, k: int) -> int
    decreases k,
{
    if k <= 0 {
        0
    } else {
        count_strat_upto(agents, s, k - 1) + if agents[k - 1].strategy == s {
            1int
        } else {
            0int
        }
    }
}

/// The agents of strategy `s` among the first `k`, counted whole.
pub open spec fn count_strat(agents: Seq<Agent>, s: Strategy) -> int {
    count_strat_upto(agents, s, agents.len() as int)
}

/// Every agent plays exactly one strategy: the three counts partition
/// the population.
pub proof fn lemma_strategy_partition(agents: Seq<Agent>, k: int)
    requires
        0 <= k <= agents.len(),
    ensures
        count_strat_upto(agents, Strategy::Cooperator, k)
            + count_strat_upto(agents, Strategy::Defector, k)
            + count_strat_upto(agents, Strategy::Fighter, k) == k,
    decreases k,
{
    if k > 0 {
        lemma_strategy_partition(agents, k - 1);
    }
}

/// Cumulative wealth summed over the first `k` agents of strategy `s`.
pub open spec fn sum_cumulative_upto(agents: Seq<Agent>, s: Strategy, k: int) -> int
    decreases k,
{
    if k <= 0 {
        0
    } else {
        sum_cumulative_upto(agents, s, k - 1) + if agents[k - 1].strategy == s {
            agents[k - 1].resources_cumulative as int
        } else {
            0int
        }
    }
}

/// The per-agent terms of the running payoff average, each already
/// divided by the averaging window, added with saturation onto `base`
/// over the first `k` agents of strategy `s`.  The terms carry an extra
/// factor `FP_ONE`, pulled out again when the average is read off.
pub open spec fn sum_payoff_terms_from(agents: Seq<Agent>, s: Strategy, t_average: int, k: int,
    base: int) -> int
    decreases k,
{
    if k <= 0 {
        base
    } else {
        let prev = sum_payoff_terms_from(agents, s, t_average, k - 1, base);
        if agents[k - 1].strategy == s {
            clamp_i128(prev + div_trunc(agents[k - 1].resources_cumulative as int * FP_ONE,
                t_average))
        } else {
            prev
        }
    }
}

/// How many of the first `k` listed neighbours are fighters.
pub open spec fn nfighters_upto(agents: Seq<Agent>, nbs: Seq<usize>, k: int) -> int
    decreases k,
{
    if k <= 0 {
        0
    } else {
        nfighters_upto(agents, nbs, k - 1) + if agents[nbs[k - 1] as int].strategy
            == Strategy::Fighter {
            1int
        } else {
            0int
        }
    }
}

/// An agent's fighting neighbours, counted whole.
pub open spec fn spec_nfighters(agents: Seq<Agent>, i: int) -> int {
    nfighters_upto(agents, agents[i].neighbors@, agents[i].neighbors@.len() as int)
}

/// What agent `i` stakes in any one contest this timestep: the invested
/// share of its wealth, split over all neighbours if it is a fighter,
/// and over its fighting neighbours alone if it is drawn into a fight.
pub open spec fn spec_investment(agents: Seq<Agent>, i: int, fraction_investment: int) -> int {
    let a = agents[i];
    if a.strategy == Strategy::Fighter {
        clamp_i64(div_trunc(fraction_investment * a.resources_cumulative,
            (FP_ONE as int) * a.neighbors@.len() as int))
    } else {
        clamp_i64(div_trunc(fraction_investment * a.resources_cumulative,
            (FP_ONE as int) * spec_nfighters(agents, i)))
    }
}

/// What one side of a game interaction gains: mutual cooperation pays
/// each side, a defector gains off a cooperator, anything else is
/// worthless.
pub open spec fn game_gain(mine: Strategy, theirs: Strategy, payoff_cooperation: int,
    payoff_defection: int) -> int {
    if mine == Strategy::Cooperator && theirs == Strategy::Cooperator {
        payoff_cooperation
    } else if mine == Strategy::Defector && theirs == Strategy::Cooperator {
        payoff_defection
    } else {
        0
    }
}

/// Two agent sequences that differ at most in their per-timestep
/// transient gains.
pub open spec fn same_but_instant(a: Seq<Agent>, b: Seq<Agent>) -> bool {
    &&& a.len() == b.len()
    &&& forall|i: int| 0 <= i < a.len()
        ==> (#[trigger] b[i]) == Agent { resources_instant: b[i].resources_instant, ..a[i] }
}

proof fn lemma_nfighters_same(a: Seq<Agent>, b: Seq<Agent>, nbs: Seq<usize>, k: int)
    requires
        same_but_instant(a, b),
        forall|j: int| 0 <= j < k ==> (#[trigger] nbs[j]) < a.len(),
    ensures
        nfighters_upto(a, nbs, k) == nfighters_upto(b, nbs, k),
    decreases k,
{
    if k > 0 {
        lemma_nfighters_same(a, b, nbs, k - 1);
    }
}

/// The investments of a timestep are fixed by strategies, wealth and
/// the network; the transient gains already booked do not move them.
pub proof fn lemma_investment_same(a: Seq<Agent>, b: Seq<Agent>, i: int, frac: int)
    requires
        same_but_instant(a, b),
        0 <= i < a.len(),
        forall|j: int| 0 <= j < a[i].neighbors@.len() ==> (#[trigger] a[i].neighbors@[j]) < a.len(),
    ensures
        spec_investment(a, i, frac) == spec_investment(b, i, frac),
        spec_nfighters(a, i) == spec_nfighters(b, i),
{
    assert(b[i] == Agent { resources_instant: b[i].resources_instant, ..a[i] });
    lemma_nfighters_same(a, b, a[i].neighbors@, a[i].neighbors@.len() as int);
}

/// If some listed neighbour is a fighter, the fighter count is positive.
proof fn lemma_nfighters_positive(agents: Seq<Agent>, nbs: Seq<usize>, k: int, j: int)
    requires
        0 <= j < k,
        agents[nbs[j] as int].strategy == Strategy::Fighter,
    ensures
        nfighters_upto(agents, nbs, k) >= 1,
    decreases k,
{
    lemma_nfighters_nonneg(agents, nbs, k - 1);
    if j < k - 1 {
        lemma_nfighters_positive(agents, nbs, k - 1, j);
    }
}

proof fn lemma_nfighters_nonneg(agents: Seq<Agent>, nbs: Seq<usize>, k: int)
    ensures
        nfighters_upto(agents, nbs, k) >= 0,
    decreases k,
{
    if k > 0 {
        lemma_nfighters_nonneg(agents, nbs, k - 1);
    }
}

/// Counts the fighters among `i`'s neighbours.
fn count_fighter_neighbors(ens: &AgentEnsemble, i: usize) -> (c: usize)
    requires
        i < ens@.len(),
        forall|j: int| 0 <= j < ens@[i as int].neighbors@.len()
            ==> (#[trigger] ens@[i as int].neighbors@[j]) < ens@.len(),
    ensures
        c == spec_nfighters(ens@, i as int),
        c <= ens@[i as int].neighbors@.len(),
{
    let agents = ens.inner();
    let deg = agents[i].neighbors.len();
    let mut c: usize = 0;
    let mut k: usize = 0;
    while k < deg
        invariant
            k <= deg,
            c <= k,
            i < ens@.len(),
            deg == ens@[i as int].neighbors@.len(),
            agents@ == ens@,
            forall|j: int| 0 <= j < deg ==> (#[trigger] ens@[i as int].neighbors@[j]) < ens@.len(),
            c == nfighters_upto(ens@, ens@[i as int].neighbors@, k as int),
        decreases deg - k,
    {
        let nb = agents[i].neighbors[k];
        if agents[nb].strategy == Strategy::Fighter {
            c += 1;
        }
        k += 1;
    }
    c
}

/// Computes `spec_investment` for one contest participant.
fn investment_of(ens: &AgentEnsemble, i: usize, fraction_investment: i64) -> (v: i64)
    requires
        i < ens@.len(),
        forall|j: int| 0 <= j < ens@[i as int].neighbors@.len()
            ==> (#[trigger] ens@[i as int].neighbors@[j]) < ens@.len(),
        ens@[i as int].strategy == Strategy::Fighter ==> ens@[i as int].neighbors@.len() >= 1,
        ens@[i as int].strategy != Strategy::Fighter ==> spec_nfighters(ens@, i as int) >= 1,
    ensures
        v == spec_investment(ens@, i as int, fraction_investment as int),
{
    let agents = ens.inner();
    if agents[i].strategy == Strategy::Fighter {
        let deg = agents[i].neighbors.len();
        mul_div_clamped(fraction_investment, agents[i].resources_cumulative,
            (FP_ONE as u128) * (deg as u128))
    } else {
        let nf = count_fighter_neighbors(ens, i);
        mul_div_clamped(fraction_investment, agents[i].resources_cumulative,
            (FP_ONE as u128) * (nf as u128))
    }
}

/// A uniform draw over `[0, FP_ONE)`: the trial the engine holds against
/// a probability in millionths.
fn sample_unit() -> (t: i64)
    ensures
        0 <= t < FP_ONE,
{
    sample_index(1_000_000) as i64
}

/// The neighbour index, starting from the focal agent itself, holding
/// the best cumulative wealth seen among the first `k` neighbours;
/// strictly better wealth displaces the standing best.
pub open spec fn best_neighbor_upto(agents: Seq<Agent>, i: int, k: int) -> int
    decreases k,
{
    if k <= 0 {
        i
    } else {
        let prev = best_neighbor_upto(agents, i, k - 1);
        let nb = agents[i].neighbors@[k - 1] as int;
        if agents[nb].resources_cumulative > agents[prev].resources_cumulative {
            nb
        } else {
            prev
        }
    }
}

proof fn lemma_best_neighbor_in_range(agents: Seq<Agent>, i: int, k: int)
    requires
        0 <= i < agents.len(),
        forall|j: int| 0 <= j < agents[i].neighbors@.len()
            ==> (#[trigger] agents[i].neighbors@[j]) < agents.len(),
        k <= agents[i].neighbors@.len(),
    ensures
        0 <= best_neighbor_upto(agents, i, k) < agents.len(),
    decreases k,
{
    if k > 0 {
        lemma_best_neighbor_in_range(agents, i, k - 1);
    }
}

/// Stages, for the focal agent, the strategy of whoever among itself and
/// its neighbours holds the most cumulative wealth (earlier neighbours
/// win ties).
pub fn update_rule_best(agent_ensemble: &mut AgentEnsemble, focal_agent: usize)
    requires
        focal_agent < old(agent_ensemble)@.len(),
        forall|j: int| 0 <= j < old(agent_ensemble)@[focal_agent as int].neighbors@.len()
            ==> (#[trigger] old(agent_ensemble)@[focal_agent as int].neighbors@[j])
                < old(agent_ensemble)@.len(),
    ensures
        final(agent_ensemble)@ == old(agent_ensemble)@.update(focal_agent as int, Agent {
            strategy_temp: old(agent_ensemble)@[best_neighbor_upto(old(agent_ensemble)@,
                focal_agent as int,
                old(agent_ensemble)@[focal_agent as int].neighbors@.len() as int)].strategy,
            ..old(agent_ensemble)@[focal_agent as int]
        }),
{
    let ghost agents0 = agent_ensemble@;
    let deg = agent_ensemble.inner()[focal_agent].neighbors.len();
    let mut best: usize = focal_agent;
    let mut k: usize = 0;
    while k < deg
        invariant
            k <= deg,
            focal_agent < agents0.len(),
            agent_ensemble@ == agents0,
            deg == agents0[focal_agent as int].neighbors@.len(),
            forall|j: int| 0 <= j < deg
                ==> (#[trigger] agents0[focal_agent as int].neighbors@[j]) < agents0.len(),
            best as int == best_neighbor_upto(agents0, focal_agent as int, k as int),
            best < agents0.len(),
        decreases deg - k,
    {
        let nb = agent_ensemble.inner()[focal_agent].neighbors[k];
        if agent_ensemble.inner()[nb].resources_cumulative
            > agent_ensemble.inner()[best].resources_cumulative {
            best = nb;
        }
        k += 1;
    }
    let s = agent_ensemble.inner()[best].strategy;
    agent_ensemble.set_strategy_temp(focal_agent, s);
}

/// What one Fermi imitation step may stage for the focal agent when
/// neighbour `k` was the one sampled: the neighbour's strategy or the
/// agent's own, and an extremal probability forces which.
pub open spec fn fermi_choice(pre: Seq<Agent>, staged: Strategy, focal: int, noise: int,
    k: int) -> bool {
    let nbs = pre[focal].neighbors@;
    let nb = nbs[k] as int;
    let p = spec_fermi(clamp_i64(pre[focal].resources_cumulative - pre[nb].resources_cumulative),
        noise);
    &&& 0 <= k < nbs.len()
    &&& (staged == pre[focal].strategy || staged == pre[nb].strategy)
    &&& (p <= 0 ==> staged == pre[focal].strategy)
    &&& (p >= FP_ONE ==> staged == pre[nb].strategy)
}

/// Some sampled neighbour accounts for the staged strategy.
pub open spec fn fermi_staged_some(pre: Seq<Agent>, staged: Strategy, focal: int,
    noise: int) -> bool {
    exists|k: int| #![trigger pre[focal].neighbors@[k]] fermi_choice(pre, staged, focal, noise, k)
}

/// One Fermi imitation step for the focal agent: a uniformly sampled
/// neighbour's strategy is staged with the Fermi probability of the
/// wealth disparity, the agent's own strategy otherwise.  The contract
/// fixes the outcome whenever the probability is extremal, and in any
/// case only the focal staging field moves, to something an agent of the
/// neighbourhood already plays.
pub fn update_rule_fermi(agent_ensemble: &mut AgentEnsemble, focal_agent: usize,
    parameter_noise: i64)
    requires
        focal_agent < old(agent_ensemble)@.len(),
        old(agent_ensemble)@[focal_agent as int].neighbors@.len() >= 1,
        forall|j: int| 0 <= j < old(agent_ensemble)@[focal_agent as int].neighbors@.len()
            ==> (#[trigger] old(agent_ensemble)@[focal_agent as int].neighbors@[j])
                < old(agent_ensemble)@.len(),
        parameter_noise >= 0,
    ensures
        final(agent_ensemble)@ == old(agent_ensemble)@.update(focal_agent as int, Agent {
            strategy_temp: final(agent_ensemble)@[focal_agent as int].strategy_temp,
            ..old(agent_ensemble)@[focal_agent as int]
        }),
        fermi_staged_some(old(agent_ensemble)@,
            final(agent_ensemble)@[focal_agent as int].strategy_temp, focal_agent as int,
            parameter_noise as int),
{
    let nneighbors = agent_ensemble.inner()[focal_agent].neighbors.len();
    let trial_index = sample_index(nneighbors);
    let focal_neighbor = agent_ensemble.inner()[focal_agent].neighbors[trial_index];
    let resource_delta = sat_sub64(agent_ensemble.inner()[focal_agent].resources_cumulative,
        agent_ensemble.inner()[focal_neighbor].resources_cumulative);
    let fermi_prob = fermi_probability(resource_delta, parameter_noise);
    let trial = sample_unit();
    let imitate = trial < fermi_prob;
    let s = if imitate {
        agent_ensemble.inner()[focal_neighbor].strategy
    } else {
        agent_ensemble.inner()[focal_agent].strategy
    };
    agent_ensemble.set_strategy_temp(focal_agent, s);
    proof {
        let k = trial_index as int;
        let pre = old(agent_ensemble)@;
        assert(0 <= k < pre[focal_agent as int].neighbors@.len());
        assert(pre[focal_agent as int].neighbors@[k] == focal_neighbor);
        assert(fermi_choice(pre, final(agent_ensemble)@[focal_agent as int].strategy_temp,
            focal_agent as int, parameter_noise as int, k));
        assert(fermi_staged_some(pre, final(agent_ensemble)@[focal_agent as int].strategy_temp,
            focal_agent as int, parameter_noise as int));
    }
}


/// The undirected key of the edge between `a` and `b`.
pub open spec fn norm_pair(a: usize, b: usize) -> (usize, usize) {
    if a < b {
        (a, b)
    } else {
        (b, a)
    }
}

/// Agent `i`'s transient balance after collecting its game gains from
/// its first `k` listed neighbours: one `game_gain` per distinct
/// non-fighting neighbour (a neighbour listed twice pays once, so each
/// undirected edge pays each of its endpoints exactly once), added with
/// saturation in list order.  A fighter collects nothing here, and an
/// edge with a fighter endpoint pays nothing: it is a contest instead.
pub open spec fn game_gains_upto(pre: Seq<Agent>, i: int, k: int, payoff_cooperation: int,
    payoff_defection: int) -> int
    decreases k,
{
    if k <= 0 {
        pre[i].resources_instant as int
    } else {
        let prev = game_gains_upto(pre, i, k - 1, payoff_cooperation, payoff_defection);
        let nbs = pre[i].neighbors@;
        let j = nbs[k - 1] as int;
        if !nbs.take(k - 1).contains(nbs[k - 1]) && pre[i].strategy != Strategy::Fighter
            && pre[j].strategy != Strategy::Fighter {
            clamp_i64(prev + game_gain(pre[i].strategy, pre[j].strategy, payoff_cooperation,
                payoff_defection))
        } else {
            prev
        }
    }
}

/// Agent `i`'s transient balance once all its game interactions of the
/// timestep are booked.
pub open spec fn game_settled(pre: Seq<Agent>, i: int, payoff_cooperation: int,
    payoff_defection: int) -> int {
    game_gains_upto(pre, i, pre[i].neighbors@.len() as int, payoff_cooperation, payoff_defection)
}

/// The settled balance never leaves the machine range: it starts from a
/// stored balance and every step clamps.
pub proof fn lemma_game_gains_in_range(pre: Seq<Agent>, i: int, k: int, payoff_cooperation: int,
    payoff_defection: int)
    ensures
        i64::MIN as int <= game_gains_upto(pre, i, k, payoff_cooperation, payoff_defection)
            <= i64::MAX as int,
    decreases k,
{
    if k > 0 {
        lemma_game_gains_in_range(pre, i, k - 1, payoff_cooperation, payoff_defection);
    }
}

/// Does `x` stand among the first `upto` entries of `v`?
fn contains_prefix(v: &Vec<usize>, x: usize, upto: usize) -> (b: bool)
    requires
        upto <= v@.len(),
    ensures
        b == v@.take(upto as int).contains(x),
{
    let mut k: usize = 0;
    while k < upto
        invariant
            k <= upto <= v@.len(),
            forall|jj: int| 0 <= jj < k ==> v@[jj] != x,
        decreases upto - k,
    {
        if v[k] == x {
            proof {
                assert(v@.take(upto as int)[k as int] == x);
            }
            return true;
        }
        k += 1;
    }
    proof {
        if v@.take(upto as int).contains(x) {
            let jj = choose|jj: int| 0 <= jj < upto && v@.take(upto as int)[jj] == x;
            assert(v@[jj] == x);
        }
    }
    false
}

/// The game half of one timestep: every agent collects its `game_gain`
/// from each distinct non-fighting neighbour, exactly once per
/// undirected edge and endpoint; nothing else moves.
pub fn game_pass(agent_ensemble: &mut AgentEnsemble, payoff_cooperation: i64,
    payoff_defection: i64)
    requires
        neighbors_in_range(old(agent_ensemble)@),
    ensures
        final(agent_ensemble)@.len() == old(agent_ensemble)@.len(),
        forall|i: int| 0 <= i < old(agent_ensemble)@.len()
            ==> (#[trigger] final(agent_ensemble)@[i]) == (Agent {
                resources_instant: game_settled(old(agent_ensemble)@, i,
                    payoff_cooperation as int, payoff_defection as int) as i64,
                ..old(agent_ensemble)@[i]
            }),
{
    let ghost pre = old(agent_ensemble)@;
    let nagents = agent_ensemble.number_of_agents();
    let mut i: usize = 0;
    while i < nagents
        invariant
            i <= nagents,
            nagents == pre.len(),
            pre == old(agent_ensemble)@,
            neighbors_in_range(pre),
            agent_ensemble@.len() == nagents,
            forall|j: int| 0 <= j < i ==> (#[trigger] agent_ensemble@[j]) == (Agent {
                resources_instant: game_settled(pre, j, payoff_cooperation as int,
                    payoff_defection as int) as i64,
                ..pre[j]
            }),
            forall|j: int| i <= j < nagents ==> (#[trigger] agent_ensemble@[j]) == pre[j],
        decreases nagents - i,
    {
        let deg = agent_ensemble.inner()[i].neighbors.len();
        let si = agent_ensemble.inner()[i].strategy;
        let mut acc = agent_ensemble.inner()[i].resources_instant;
        let mut k: usize = 0;
        while k < deg
            invariant
                k <= deg,
                i < nagents,
                nagents == pre.len(),
                pre == old(agent_ensemble)@,
                neighbors_in_range(pre),
                agent_ensemble@.len() == nagents,
                agent_ensemble@[i as int] == pre[i as int],
                si == pre[i as int].strategy,
                deg == pre[i as int].neighbors@.len(),
                forall|j: int| 0 <= j < i ==> (#[trigger] agent_ensemble@[j]) == (Agent {
                    resources_instant: game_settled(pre, j, payoff_cooperation as int,
                        payoff_defection as int) as i64,
                    ..pre[j]
                }),
                forall|j: int| i <= j < nagents ==> (#[trigger] agent_ensemble@[j]) == pre[j],
                acc as int == game_gains_upto(pre, i as int, k as int, payoff_cooperation as int,
                    payoff_defection as int),
            decreases deg - k,
        {
            let j = agent_ensemble.inner()[i].neighbors[k];
            let fresh = !contains_prefix(&agent_ensemble.inner()[i].neighbors, j, k);
            proof {
                assert(j < pre.len());
            }
            let sj = agent_ensemble.inner()[j].strategy;
            proof {
                assert(agent_ensemble@[j as int].strategy == pre[j as int].strategy);
            }
            if fresh && si != Strategy::Fighter && sj != Strategy::Fighter {
                let g: i64 = if si == Strategy::Cooperator && sj == Strategy::Cooperator {
                    payoff_cooperation
                } else if si == Strategy::Defector && sj == Strategy::Cooperator {
                    payoff_defection
                } else {
                    0
                };
                acc = sat_add64(acc, g);
            }
            k += 1;
        }
        agent_ensemble.set_instant(i, acc);
        i += 1;
    }
}

/// What `apply_contest` promises of the event it appends and of the
/// transfers it books: the loser's stake moves to the winner, exactly
/// mirrored on the two sides, and a degenerate non-positive investment
/// loses outright.
pub open spec fn contest_event_sound(pre: Seq<Agent>, post: Seq<Agent>, e: FightingEvent,
    a: int, b: int, inv_a: int, inv_b: int, t: int, prior: int) -> bool {
    &&& e.id_focal == a
    &&& e.id_enemy == b
    &&& e.investment_focal == inv_a
    &&& e.investment_enemy == inv_b
    &&& e.resources_focal == pre[a].resources_cumulative
    &&& e.resources_enemy == pre[b].resources_cumulative
    &&& e.strategy_focal == pre[a].strategy
    &&& e.strategy_enemy == pre[b].strategy
    &&& e.time == t
    &&& e.id_event == if prior + 1 <= usize::MAX as int {
        prior + 1
    } else {
        usize::MAX as int
    }
    &&& (e.winner == 0 || e.winner == 1)
    &&& (inv_a <= 0 ==> e.winner == 1)
    &&& (inv_a >= 1 && inv_b <= 0 ==> e.winner == 0)
    &&& (e.winner == 0 ==> post == pre.update(a, Agent {
        resources_instant: clamp_i64(pre[a].resources_instant + inv_b) as i64,
        ..pre[a]
    }).update(b, Agent {
        resources_instant: clamp_i64(pre[b].resources_instant - inv_b) as i64,
        ..pre[b]
    }))
    &&& (e.winner == 1 ==> post == pre.update(a, Agent {
        resources_instant: clamp_i64(pre[a].resources_instant - inv_a) as i64,
        ..pre[a]
    }).update(b, Agent {
        resources_instant: clamp_i64(pre[b].resources_instant + inv_a) as i64,
        ..pre[b]
    }))
}

/// Resolves one contest: the focal side wins with the Tullock
/// probability of the two investments, the loser's stake is transferred
/// exactly mirrored between the two sides (`contest_event_sound`), and
/// the event is recorded.  A side that cannot stake anything positive
/// loses outright to a side that can; when neither side can, the focal
/// side loses.
pub fn apply_contest(agent_ensemble: &mut AgentEnsemble, a: usize, b: usize, inv_a: i64, inv_b: i64,
    parameter_technology: i64, t: usize, event_ensemble: &mut Vec<FightingEvent>)
    requires
        a < old(agent_ensemble)@.len(),
        b < old(agent_ensemble)@.len(),
        a != b,
        parameter_technology >= 0,
    ensures
        final(event_ensemble)@.len() == old(event_ensemble)@.len() + 1,
        forall|j: int| 0 <= j < old(event_ensemble)@.len()
            ==> final(event_ensemble)@[j] == old(event_ensemble)@[j],
        contest_event_sound(old(agent_ensemble)@, final(agent_ensemble)@,
            final(event_ensemble)@.last(), a as int, b as int, inv_a as int, inv_b as int,
            t as int, old(event_ensemble)@.len() as int),
{
    let resources_focal = agent_ensemble.inner()[a].resources_cumulative;
    let resources_enemy = agent_ensemble.inner()[b].resources_cumulative;
    let strategy_focal = agent_ensemble.inner()[a].strategy;
    let strategy_enemy = agent_ensemble.inner()[b].strategy;
    let winner: usize = if inv_a >= 1 && inv_b >= 1 {
        let csf_probability = tullock_csf(inv_a, inv_b, parameter_technology);
        let trial = sample_unit();
        if trial < csf_probability {
            0
        } else {
            1
        }
    } else if inv_a >= 1 {
        0
    } else {
        1
    };
    if winner == 0 {
        let va = sat_add64(agent_ensemble.inner()[a].resources_instant, inv_b);
        agent_ensemble.set_instant(a, va);
        let vb = sat_sub64(agent_ensemble.inner()[b].resources_instant, inv_b);
        agent_ensemble.set_instant(b, vb);
    } else {
        let va = sat_sub64(agent_ensemble.inner()[a].resources_instant, inv_a);
        agent_ensemble.set_instant(a, va);
        let vb = sat_add64(agent_ensemble.inner()[b].resources_instant, inv_a);
        agent_ensemble.set_instant(b, vb);
    }
    let id_event = if event_ensemble.len() < usize::MAX {
        event_ensemble.len() + 1
    } else {
        usize::MAX
    };
    let event = FightingEvent {
        id_enemy: b,
        id_event,
        id_focal: a,
        investment_enemy: inv_b,
        investment_focal: inv_a,
        resources_enemy: resources_enemy,
        resources_focal: resources_focal,
        strategy_enemy: strategy_enemy,
        strategy_focal: strategy_focal,
        time: t,
        winner,
    };
    event_ensemble.push(event);
}

/// Conservation: a single contest's transfer cancels exactly between the
/// two sides, as long as neither transient balance saturates.
pub proof fn lemma_contest_conserves(ia: int, ib: int, v: int)
    requires
        i64::MIN <= ia + v <= i64::MAX,
        i64::MIN <= ib - v <= i64::MAX,
    ensures
        (clamp_i64(ia + v) - ia) + (clamp_i64(ib - v) - ib) == 0,
{
}

/// Non-conservation of the game: within the `i64` range, mutual
/// cooperation creates `2 * payoff_cooperation` fresh wealth, defection
/// off a cooperator creates `payoff_defection`, and every other pairing
/// of non-fighters moves nothing.
pub proof fn lemma_game_creates(sa: Strategy, sb: Strategy, ia: int, ib: int,
    payoff_cooperation: int, payoff_defection: int)
    requires
        i64::MIN <= ia + game_gain(sa, sb, payoff_cooperation, payoff_defection) <= i64::MAX,
        i64::MIN <= ib + game_gain(sb, sa, payoff_cooperation, payoff_defection) <= i64::MAX,
    ensures
        (clamp_i64(ia + game_gain(sa, sb, payoff_cooperation, payoff_defection)) - ia)
            + (clamp_i64(ib + game_gain(sb, sa, payoff_cooperation, payoff_defection)) - ib)
            == if sa == Strategy::Cooperator && sb == Strategy::Cooperator {
                2 * payoff_cooperation
            } else if (sa == Strategy::Cooperator && sb == Strategy::Defector)
                || (sa == Strategy::Defector && sb == Strategy::Cooperator) {
                payoff_defection
            } else {
                0
            },
{
}

fn contains_pair(v: &Vec<(usize, usize)>, a: usize, b: usize) -> (r: bool)
    ensures
        r == v@.contains((a, b)),
{
    let mut k: usize = 0;
    while k < v.len()
        invariant
            k <= v@.len(),
            forall|j: int| 0 <= j < k ==> v@[j] != (a, b),
        decreases v@.len() - k,
    {
        let p = v[k];
        if p.0 == a && p.1 == b {
            return true;
        }
        k += 1;
    }
    false
}

/// A pair of adjacent agents whose meeting this timestep is a contest
/// that clears the cutoff.
pub open spec fn contest_qualifying(pre: Seq<Agent>, a: int, b: int, fraction_investment: int,
    cutoff_resources: int) -> bool {
    &&& (pre[a].strategy == Strategy::Fighter || pre[b].strategy == Strategy::Fighter)
    &&& spec_investment(pre, a, fraction_investment) + spec_investment(pre, b, fraction_investment)
        > cutoff_resources
}

/// Somewhere at or after index `lo` stands the event of the edge between
/// `a` and `b`, keyed by the undirected pair.
pub open spec fn edge_has_event(events: Seq<FightingEvent>, lo: int, a: usize, b: usize) -> bool {
    exists|j: int| lo <= j < events.len()
        && (#[trigger] events[j]).id_focal == norm_pair(a, b).0
        && events[j].id_enemy == norm_pair(a, b).1
}

/// No event at or after index `lo` names agent `i`.
pub open spec fn untouched_by_events(events: Seq<FightingEvent>, lo: int, i: int) -> bool {
    forall|j: int| lo <= j < events.len()
        ==> (#[trigger] events[j]).id_focal != i && events[j].id_enemy != i
}

/// Some event records the edge between `a` and `b` at timestep `t`.
pub open spec fn edge_event_at(events: Seq<FightingEvent>, a: usize, b: usize, t: int) -> bool {
    exists|j: int| 0 <= j < events.len()
        && events[j].id_focal == norm_pair(a, b).0
        && events[j].id_enemy == norm_pair(a, b).1
        && (#[trigger] events[j]).time == t
}

/// What every event appended by one interaction phase satisfies, stated
/// over the population as the phase found it: the participants are
/// adjacent, at least one is a fighter, the recorded investments are the
/// participants' staked shares, and their sum cleared the cutoff.
pub open spec fn phase_event_ok(pre: Seq<Agent>, e: FightingEvent, t: int,
    fraction_investment: int, cutoff_resources: int) -> bool {
    &&& e.id_focal < pre.len()
    &&& e.id_enemy < pre.len()
    &&& e.id_focal != e.id_enemy
    &&& pre[e.id_focal as int].neighbors@.contains(e.id_enemy)
    &&& e.time == t
    &&& (e.winner == 0 || e.winner == 1)
    &&& (pre[e.id_focal as int].strategy == Strategy::Fighter
        || pre[e.id_enemy as int].strategy == Strategy::Fighter)
    &&& e.strategy_focal == pre[e.id_focal as int].strategy
    &&& e.strategy_enemy == pre[e.id_enemy as int].strategy
    &&& e.resources_focal == pre[e.id_focal as int].resources_cumulative
    &&& e.resources_enemy == pre[e.id_enemy as int].resources_cumulative
    &&& e.investment_focal == spec_investment(pre, e.id_focal as int, fraction_investment)
    &&& e.investment_enemy == spec_investment(pre, e.id_enemy as int, fraction_investment)
    &&& e.investment_focal + e.investment_enemy > cutoff_resources
}

/// One timestep of interactions.  Games are settled first, agent by
/// agent, by the payoff table (`game_settled`: exactly once per
/// undirected edge and endpoint); then every edge with a fighter
/// endpoint is visited at most once (tracked in a per-timestep set of
/// edge keys) and, above the cutoff, resolved as a recorded contest.
/// Strategies, wealth and the network itself are untouched; each
/// appended event answers for a distinct edge, every qualifying edge for
/// exactly one; an agent with no part in any fight ends with exactly its
/// game gains.
pub fn interaction_phase(agent_ensemble: &mut AgentEnsemble, pars_model: &Input, t: usize,
    event_ensemble: &mut Vec<FightingEvent>)
    requires
        valid_network(old(agent_ensemble)@),
        pars_model.parameter_technology >= 0,
    ensures
        same_but_instant(old(agent_ensemble)@, final(agent_ensemble)@),
        forall|i: int|
            0 <= i < old(agent_ensemble)@.len()
                && old(agent_ensemble)@[i].strategy != Strategy::Fighter
                && spec_nfighters(old(agent_ensemble)@, i) == 0
                ==> (#[trigger] final(agent_ensemble)@[i]).resources_instant as int
                    == game_settled(old(agent_ensemble)@, i,
                        pars_model.payoff_cooperation as int,
                        pars_model.payoff_defection as int),
        forall|i: int|
            0 <= i < old(agent_ensemble)@.len()
                && untouched_by_events(final(event_ensemble)@,
                    old(event_ensemble)@.len() as int, i)
                ==> (#[trigger] final(agent_ensemble)@[i]).resources_instant as int
                    == game_settled(old(agent_ensemble)@, i,
                        pars_model.payoff_cooperation as int,
                        pars_model.payoff_defection as int),
        final(event_ensemble)@.len() >= old(event_ensemble)@.len(),
        forall|j: int| 0 <= j < old(event_ensemble)@.len()
            ==> final(event_ensemble)@[j] == old(event_ensemble)@[j],
        forall|j: int| old(event_ensemble)@.len() <= j < final(event_ensemble)@.len()
            ==> phase_event_ok(old(agent_ensemble)@, #[trigger] final(event_ensemble)@[j],
                t as int, pars_model.fraction_investment as int,
                pars_model.cutoff_resources as int),
        forall|j1: int, j2: int|
            old(event_ensemble)@.len() <= j1 < j2 < final(event_ensemble)@.len()
                ==> norm_pair((#[trigger] final(event_ensemble)@[j1]).id_focal,
                    final(event_ensemble)@[j1].id_enemy)
                    != norm_pair((#[trigger] final(event_ensemble)@[j2]).id_focal,
                        final(event_ensemble)@[j2].id_enemy),
        forall|a: usize, k: int|
            #![trigger old(agent_ensemble)@[a as int].neighbors@[k]]
            a < old(agent_ensemble)@.len()
                && 0 <= k < old(agent_ensemble)@[a as int].neighbors@.len()
                && contest_qualifying(old(agent_ensemble)@, a as int,
                    old(agent_ensemble)@[a as int].neighbors@[k] as int,
                    pars_model.fraction_investment as int, pars_model.cutoff_resources as int)
                ==> edge_has_event(final(event_ensemble)@, old(event_ensemble)@.len() as int, a,
                    old(agent_ensemble)@[a as int].neighbors@[k]),
{
    let ghost pre = old(agent_ensemble)@;
    let ghost n0 = old(event_ensemble)@.len() as int;
    game_pass(agent_ensemble, pars_model.payoff_cooperation, pars_model.payoff_defection);
    proof {
        assert(same_but_instant(pre, agent_ensemble@));
        assert forall|i: int| 0 <= i < pre.len()
            implies (#[trigger] agent_ensemble@[i]).resources_instant as int
                == game_settled(pre, i, pars_model.payoff_cooperation as int,
                    pars_model.payoff_defection as int) by {
            lemma_game_gains_in_range(pre, i, pre[i].neighbors@.len() as int,
                pars_model.payoff_cooperation as int, pars_model.payoff_defection as int);
        }
    }
    let nagents = agent_ensemble.number_of_agents();
    let mut interactions: Vec<(usize, usize)> = Vec::new();
    let mut focal_agent: usize = 0;
    while focal_agent < nagents
        invariant
            focal_agent <= nagents,
            nagents == pre.len(),
            pre == old(agent_ensemble)@,
            n0 == old(event_ensemble)@.len() as int,
            valid_network(pre),
            pars_model.parameter_technology >= 0,
            same_but_instant(pre, agent_ensemble@),
            event_ensemble@.len() >= n0,
            forall|j: int| 0 <= j < n0 ==> event_ensemble@[j] == old(event_ensemble)@[j],
            forall|j: int| n0 <= j < event_ensemble@.len()
                ==> phase_event_ok(pre, #[trigger] event_ensemble@[j], t as int,
                    pars_model.fraction_investment as int, pars_model.cutoff_resources as int),
            forall|j: int| n0 <= j < event_ensemble@.len()
                ==> interactions@.contains(norm_pair((#[trigger] event_ensemble@[j]).id_focal,
                    event_ensemble@[j].id_enemy)),
            forall|j1: int, j2: int| n0 <= j1 < j2 < event_ensemble@.len()
                ==> norm_pair((#[trigger] event_ensemble@[j1]).id_focal,
                    event_ensemble@[j1].id_enemy)
                    != norm_pair((#[trigger] event_ensemble@[j2]).id_focal,
                        event_ensemble@[j2].id_enemy),
            forall|p: (usize, usize)| #[trigger] interactions@.contains(p) ==> p.0 < p.1
                && p.1 < nagents
                && (contest_qualifying(pre, p.0 as int, p.1 as int,
                    pars_model.fraction_investment as int, pars_model.cutoff_resources as int)
                    ==> edge_has_event(event_ensemble@, n0, p.0, p.1)),
            forall|a: usize, k: int|
                #![trigger pre[a as int].neighbors@[k]]
                a < focal_agent && 0 <= k < pre[a as int].neighbors@.len()
                    ==> interactions@.contains(norm_pair(a, pre[a as int].neighbors@[k])),
            forall|i: int| 0 <= i < nagents && pre[i].strategy != Strategy::Fighter
                && spec_nfighters(pre, i) == 0
                ==> (#[trigger] agent_ensemble@[i]).resources_instant as int
                    == game_settled(pre, i, pars_model.payoff_cooperation as int,
                        pars_model.payoff_defection as int),
            forall|i: int| 0 <= i < nagents && untouched_by_events(event_ensemble@, n0, i)
                ==> (#[trigger] agent_ensemble@[i]).resources_instant as int
                    == game_settled(pre, i, pars_model.payoff_cooperation as int,
                        pars_model.payoff_defection as int),
        decreases nagents - focal_agent,
    {
        let deg = agent_ensemble.inner()[focal_agent].neighbors.len();
        proof {
            assert(agent_ensemble@[focal_agent as int] == (Agent {
                resources_instant: agent_ensemble@[focal_agent as int].resources_instant,
                ..pre[focal_agent as int]
            }));
        }
        let mut kk: usize = 0;
        while kk < deg
            invariant
                kk <= deg,
                focal_agent < nagents,
                nagents == pre.len(),
                pre == old(agent_ensemble)@,
                n0 == old(event_ensemble)@.len() as int,
                deg == pre[focal_agent as int].neighbors@.len(),
                valid_network(pre),
                pars_model.parameter_technology >= 0,
                same_but_instant(pre, agent_ensemble@),
                event_ensemble@.len() >= n0,
                forall|j: int| 0 <= j < n0 ==> event_ensemble@[j] == old(event_ensemble)@[j],
                forall|j: int| n0 <= j < event_ensemble@.len()
                    ==> phase_event_ok(pre, #[trigger] event_ensemble@[j], t as int,
                        pars_model.fraction_investment as int,
                        pars_model.cutoff_resources as int),
                forall|j: int| n0 <= j < event_ensemble@.len()
                    ==> interactions@.contains(norm_pair(
                        (#[trigger] event_ensemble@[j]).id_focal, event_ensemble@[j].id_enemy)),
                forall|j1: int, j2: int| n0 <= j1 < j2 < event_ensemble@.len()
                    ==> norm_pair((#[trigger] event_ensemble@[j1]).id_focal,
                        event_ensemble@[j1].id_enemy)
                        != norm_pair((#[trigger] event_ensemble@[j2]).id_focal,
                            event_ensemble@[j2].id_enemy),
                forall|p: (usize, usize)| #[trigger] interactions@.contains(p) ==> p.0 < p.1
                    && p.1 < nagents
                    && (contest_qualifying(pre, p.0 as int, p.1 as int,
                        pars_model.fraction_investment as int,
                        pars_model.cutoff_resources as int)
                        ==> edge_has_event(event_ensemble@, n0, p.0, p.1)),
                forall|a: usize, k: int|
                    #![trigger pre[a as int].neighbors@[k]]
                    a < focal_agent && 0 <= k < pre[a as int].neighbors@.len()
                        ==> interactions@.contains(norm_pair(a,
                            pre[a as int].neighbors@[k])),
                forall|k: int|
                    #![trigger pre[focal_agent as int].neighbors@[k]]
                    0 <= k < kk
                        ==> interactions@.contains(norm_pair(focal_agent,
                            pre[focal_agent as int].neighbors@[k])),
                forall|i: int| 0 <= i < nagents && pre[i].strategy != Strategy::Fighter
                    && spec_nfighters(pre, i) == 0
                    ==> (#[trigger] agent_ensemble@[i]).resources_instant as int
                        == game_settled(pre, i, pars_model.payoff_cooperation as int,
                            pars_model.payoff_defection as int),
                forall|i: int| 0 <= i < nagents && untouched_by_events(event_ensemble@, n0, i)
                    ==> (#[trigger] agent_ensemble@[i]).resources_instant as int
                        == game_settled(pre, i, pars_model.payoff_cooperation as int,
                            pars_model.payoff_defection as int),
            decreases deg - kk,
        {
            proof {
                assert(agent_ensemble@[focal_agent as int] == (Agent {
                    resources_instant: agent_ensemble@[focal_agent as int].resources_instant,
                    ..pre[focal_agent as int]
                }));
            }
            let focal_neighbor = agent_ensemble.inner()[focal_agent].neighbors[kk];
            proof {
                assert(pre[focal_agent as int].neighbors@[kk as int] == focal_neighbor);
                assert(focal_neighbor < pre.len());
                assert(focal_neighbor != focal_agent);
            }
            let interaction_pair = if focal_agent < focal_neighbor {
                (focal_agent, focal_neighbor)
            } else {
                (focal_neighbor, focal_agent)
            };
            if !contains_pair(&interactions, interaction_pair.0, interaction_pair.1) {
                let ghost seen_before = interactions@;
                interactions.push(interaction_pair);
                proof {
                    assert forall|x: (usize, usize)| seen_before.contains(x)
                        implies interactions@.contains(x) by {
                        let ix = choose|ix: int| 0 <= ix < seen_before.len()
                            && seen_before[ix] == x;
                        assert(interactions@[ix] == x);
                    }
                    // the first encounter of an edge is at its smaller endpoint:
                    // were the neighbour smaller, that endpoint's pass would
                    // already have tracked the edge
                    if focal_neighbor < focal_agent {
                        assert(pre[focal_neighbor as int].neighbors@.contains(focal_agent));
                        let kx = choose|kx: int|
                            0 <= kx < pre[focal_neighbor as int].neighbors@.len()
                                && pre[focal_neighbor as int].neighbors@[kx] == focal_agent;
                        assert(seen_before.contains(norm_pair(focal_neighbor,
                            pre[focal_neighbor as int].neighbors@[kx])));
                        assert(false);
                    }
                    assert(focal_agent < focal_neighbor);
                    assert(interaction_pair == (focal_agent, focal_neighbor));
                    assert(interactions@.last() == interaction_pair);
                    assert(interactions@.contains(interaction_pair));
                }
                let strategy_focal = agent_ensemble.inner()[focal_agent].strategy;
                let strategy_enemy = agent_ensemble.inner()[focal_neighbor].strategy;
                proof {
                    assert(agent_ensemble@[focal_neighbor as int] == (Agent {
                        resources_instant: agent_ensemble@[focal_neighbor as int].resources_instant,
                        ..pre[focal_neighbor as int]
                    }));
                }
                if strategy_focal == Strategy::Fighter || strategy_enemy == Strategy::Fighter {
                    let ghost cur = agent_ensemble@;
                    proof {
                        // the engine's view of the two endpoints' neighbour lists
                        assert forall|j: int| 0 <= j < cur[focal_agent as int].neighbors@.len()
                            implies (#[trigger] cur[focal_agent as int].neighbors@[j]) < cur.len()
                        by {
                            assert(cur[focal_agent as int].neighbors@
                                == pre[focal_agent as int].neighbors@);
                        }
                        assert forall|j: int| 0 <= j < cur[focal_neighbor as int].neighbors@.len()
                            implies (#[trigger] cur[focal_neighbor as int].neighbors@[j])
                                < cur.len()
                        by {
                            assert(cur[focal_neighbor as int].neighbors@
                                == pre[focal_neighbor as int].neighbors@);
                        }
                        // a non-fighter drawn into a fight has a fighting neighbour
                        if cur[focal_agent as int].strategy != Strategy::Fighter {
                            lemma_nfighters_positive(cur, cur[focal_agent as int].neighbors@,
                                cur[focal_agent as int].neighbors@.len() as int, kk as int);
                        }
                        if cur[focal_neighbor as int].strategy != Strategy::Fighter {
                            assert(pre[focal_neighbor as int].neighbors@.contains(focal_agent));
                            let jw = choose|jw: int| 0 <= jw
                                < pre[focal_neighbor as int].neighbors@.len()
                                && pre[focal_neighbor as int].neighbors@[jw] == focal_agent;
                            lemma_nfighters_positive(cur, cur[focal_neighbor as int].neighbors@,
                                cur[focal_neighbor as int].neighbors@.len() as int, jw);
                        }
                    }
                    let focal_war_resources = investment_of(agent_ensemble, focal_agent,
                        pars_model.fraction_investment);
                    let enemy_war_resources = investment_of(agent_ensemble, focal_neighbor,
                        pars_model.fraction_investment);
                    proof {
                        lemma_investment_same(pre, cur, focal_agent as int,
                            pars_model.fraction_investment as int);
                        lemma_investment_same(pre, cur, focal_neighbor as int,
                            pars_model.fraction_investment as int);
                    }
                    let total: i128 = focal_war_resources as i128 + enemy_war_resources as i128;
                    if total > pars_model.cutoff_resources as i128 {
                        let ghost evs_before = event_ensemble@;
                        apply_contest(agent_ensemble, focal_agent, focal_neighbor,
                            focal_war_resources, enemy_war_resources,
                            pars_model.parameter_technology, t, event_ensemble);
                        proof {
                            let e = event_ensemble@.last();
                            assert(phase_event_ok(pre, e, t as int,
                                pars_model.fraction_investment as int,
                                pars_model.cutoff_resources as int));
                            assert(norm_pair(e.id_focal, e.id_enemy) == interaction_pair);
                            assert(interactions@.last() == interaction_pair);
                            assert(interactions@.contains(interaction_pair));
                            assert forall|j: int| n0 <= j < evs_before.len()
                                implies norm_pair((#[trigger] evs_before[j]).id_focal,
                                    evs_before[j].id_enemy) != interaction_pair by {
                                assert(seen_before.contains(norm_pair(evs_before[j].id_focal,
                                    evs_before[j].id_enemy)));
                            }
                            assert(same_but_instant(pre, agent_ensemble@));
                            assert(e.id_focal == interaction_pair.0
                                && e.id_enemy == interaction_pair.1);
                            assert(edge_has_event(event_ensemble@, n0, interaction_pair.0,
                                interaction_pair.1)) by {
                                let jn = event_ensemble@.len() - 1;
                                assert(event_ensemble@[jn].id_focal
                                    == norm_pair(interaction_pair.0, interaction_pair.1).0);
                            }
                            assert forall|i: int| 0 <= i < nagents
                                && pre[i].strategy != Strategy::Fighter
                                && spec_nfighters(pre, i) == 0
                                implies (#[trigger] agent_ensemble@[i]).resources_instant as int
                                    == game_settled(pre, i, pars_model.payoff_cooperation as int,
                                        pars_model.payoff_defection as int) by {
                                // a contest only touches a fighter or a
                                // fighter's neighbour
                                assert(i != focal_agent as int && i != focal_neighbor as int);
                                assert(agent_ensemble@[i] == cur[i]);
                            }
                            assert forall|i: int| 0 <= i < nagents
                                && untouched_by_events(event_ensemble@, n0, i)
                                implies (#[trigger] agent_ensemble@[i]).resources_instant as int
                                    == game_settled(pre, i, pars_model.payoff_cooperation as int,
                                        pars_model.payoff_defection as int) by {
                                // the new event names the two touched agents
                                let jn = event_ensemble@.len() - 1;
                                assert(event_ensemble@[jn].id_focal == focal_agent
                                    && event_ensemble@[jn].id_enemy == focal_neighbor);
                                assert(i != focal_agent as int && i != focal_neighbor as int);
                                assert(agent_ensemble@[i] == cur[i]);
                                assert(untouched_by_events(evs_before, n0, i)) by {
                                    assert forall|j: int| n0 <= j < evs_before.len()
                                        implies (#[trigger] evs_before[j]).id_focal != i
                                            && evs_before[j].id_enemy != i by {
                                        assert(event_ensemble@[j] == evs_before[j]);
                                    }
                                }
                            }
                            assert forall|p: (usize, usize)| #[trigger] interactions@.contains(p)
                                implies p.0 < p.1 && p.1 < nagents
                                && (contest_qualifying(pre, p.0 as int, p.1 as int,
                                    pars_model.fraction_investment as int,
                                    pars_model.cutoff_resources as int)
                                    ==> edge_has_event(event_ensemble@, n0, p.0, p.1)) by {
                                let ix = choose|ix: int| 0 <= ix < interactions@.len()
                                    && interactions@[ix] == p;
                                if ix < seen_before.len() {
                                    assert(seen_before[ix] == p);
                                    assert(seen_before.contains(p));
                                    if contest_qualifying(pre, p.0 as int, p.1 as int,
                                        pars_model.fraction_investment as int,
                                        pars_model.cutoff_resources as int) {
                                        let j = choose|j: int| n0 <= j < evs_before.len()
                                            && (#[trigger] evs_before[j]).id_focal
                                                == norm_pair(p.0, p.1).0
                                            && evs_before[j].id_enemy == norm_pair(p.0, p.1).1;
                                        assert(event_ensemble@[j] == evs_before[j]);
                                        assert(edge_has_event(event_ensemble@, n0, p.0, p.1));
                                    }
                                } else {
                                    assert(p == interaction_pair);
                                }
                            }
                        }
                    } else {
                        proof {
                            assert(focal_war_resources as int
                                == spec_investment(pre, focal_agent as int,
                                    pars_model.fraction_investment as int));
                            assert(!contest_qualifying(pre, interaction_pair.0 as int,
                                interaction_pair.1 as int, pars_model.fraction_investment as int,
                                pars_model.cutoff_resources as int));
                        assert forall|p: (usize, usize)| #[trigger] interactions@.contains(p)
                            implies p.0 < p.1 && p.1 < nagents
                            && (contest_qualifying(pre, p.0 as int, p.1 as int,
                                pars_model.fraction_investment as int,
                                pars_model.cutoff_resources as int)
                                ==> edge_has_event(event_ensemble@, n0, p.0, p.1)) by {
                            let ix = choose|ix: int| 0 <= ix < interactions@.len()
                                && interactions@[ix] == p;
                            if ix < seen_before.len() {
                                assert(seen_before[ix] == p);
                                assert(seen_before.contains(p));
                            } else {
                                assert(p == interaction_pair);
                            }
                        }
                        }
                    }
                } else {
                    // both endpoints are non-fighters: the game pass has
                    // already paid this edge, and no contest arises
                    proof {
                        assert(pre[focal_agent as int].strategy != Strategy::Fighter
                            && pre[focal_neighbor as int].strategy != Strategy::Fighter);
                        assert(!contest_qualifying(pre, interaction_pair.0 as int,
                            interaction_pair.1 as int, pars_model.fraction_investment as int,
                            pars_model.cutoff_resources as int));
                    assert forall|p: (usize, usize)| #[trigger] interactions@.contains(p)
                        implies p.0 < p.1 && p.1 < nagents
                        && (contest_qualifying(pre, p.0 as int, p.1 as int,
                            pars_model.fraction_investment as int,
                            pars_model.cutoff_resources as int)
                            ==> edge_has_event(event_ensemble@, n0, p.0, p.1)) by {
                        let ix = choose|ix: int| 0 <= ix < interactions@.len()
                            && interactions@[ix] == p;
                        if ix < seen_before.len() {
                            assert(seen_before[ix] == p);
                            assert(seen_before.contains(p));
                        } else {
                            assert(p == interaction_pair);
                        }
                    }
                    }
                }
            }
            kk += 1;
        }
        focal_agent += 1;
    }
}


/// Books the timestep's transient gains into cumulative wealth.
pub fn settle_resources(agent_ensemble: &mut AgentEnsemble)
    ensures
        final(agent_ensemble)@.len() == old(agent_ensemble)@.len(),
        forall|i: int| 0 <= i < old(agent_ensemble)@.len()
            ==> (#[trigger] final(agent_ensemble)@[i]) == (Agent {
                resources_cumulative: clamp_i64(old(agent_ensemble)@[i].resources_cumulative
                    + old(agent_ensemble)@[i].resources_instant) as i64,
                ..old(agent_ensemble)@[i]
            }),
{
    let nagents = agent_ensemble.number_of_agents();
    let mut i: usize = 0;
    while i < nagents
        invariant
            i <= nagents,
            nagents == old(agent_ensemble)@.len(),
            agent_ensemble@.len() == nagents,
            forall|j: int| 0 <= j < i ==> (#[trigger] agent_ensemble@[j]) == (Agent {
                resources_cumulative: clamp_i64(old(agent_ensemble)@[j].resources_cumulative
                    + old(agent_ensemble)@[j].resources_instant) as i64,
                ..old(agent_ensemble)@[j]
            }),
            forall|j: int| i <= j < nagents
                ==> (#[trigger] agent_ensemble@[j]) == old(agent_ensemble)@[j],
        decreases nagents - i,
    {
        let v = sat_add64(agent_ensemble.inner()[i].resources_cumulative,
            agent_ensemble.inner()[i].resources_instant);
        agent_ensemble.set_cumulative(i, v);
        i += 1;
    }
}

/// The synchronous imitation pass: every agent samples one neighbour and
/// stages its next strategy by the Fermi rule, all against the same
/// pre-update snapshot.  Only staging fields move, and each agent stages
/// a strategy its own neighbourhood already plays.
pub fn strategy_update_phase(agent_ensemble: &mut AgentEnsemble, parameter_noise: i64)
    requires
        valid_network(old(agent_ensemble)@),
        parameter_noise >= 0,
    ensures
        final(agent_ensemble)@.len() == old(agent_ensemble)@.len(),
        forall|i: int| 0 <= i < old(agent_ensemble)@.len()
            ==> (#[trigger] final(agent_ensemble)@[i]) == (Agent {
                strategy_temp: final(agent_ensemble)@[i].strategy_temp,
                ..old(agent_ensemble)@[i]
            }),
        forall|i: int| 0 <= i < old(agent_ensemble)@.len()
            ==> fermi_staged_some(old(agent_ensemble)@,
                (#[trigger] final(agent_ensemble)@[i]).strategy_temp, i,
                parameter_noise as int),
{
    let ghost pre = old(agent_ensemble)@;
    let nagents = agent_ensemble.number_of_agents();
    let mut i: usize = 0;
    while i < nagents
        invariant
            i <= nagents,
            nagents == pre.len(),
            pre == old(agent_ensemble)@,
            valid_network(pre),
            parameter_noise >= 0,
            agent_ensemble@.len() == nagents,
            forall|j: int| 0 <= j < nagents ==> (#[trigger] agent_ensemble@[j]) == (Agent {
                strategy_temp: agent_ensemble@[j].strategy_temp,
                ..pre[j]
            }),
            forall|j: int| 0 <= j < i
                ==> fermi_staged_some(pre, (#[trigger] agent_ensemble@[j]).strategy_temp, j,
                    parameter_noise as int),
        decreases nagents - i,
    {
        let ghost before = agent_ensemble@;
        update_rule_fermi(agent_ensemble, i, parameter_noise);
        proof {
            let k = choose|k: int|
                #![trigger before[i as int].neighbors@[k]]
                fermi_choice(before, agent_ensemble@[i as int].strategy_temp, i as int,
                    parameter_noise as int, k);
            assert(before[i as int] == (Agent {
                strategy_temp: before[i as int].strategy_temp,
                ..pre[i as int]
            }));
            let nb = pre[i as int].neighbors@[k] as int;
            assert(before[nb] == (Agent {
                strategy_temp: before[nb].strategy_temp,
                ..pre[nb]
            }));
            assert(fermi_choice(pre, agent_ensemble@[i as int].strategy_temp, i as int,
                parameter_noise as int, k));
            assert(fermi_staged_some(pre, agent_ensemble@[i as int].strategy_temp, i as int,
                parameter_noise as int));
        }
        i += 1;
    }
}

/// The commit pass of one timestep: staged strategies go live, wealth
/// decays by the consumption rate, transient gains reset to zero.
pub fn commit_phase(agent_ensemble: &mut AgentEnsemble, rate_consumption: i64)
    ensures
        final(agent_ensemble)@.len() == old(agent_ensemble)@.len(),
        forall|i: int| 0 <= i < old(agent_ensemble)@.len()
            ==> (#[trigger] final(agent_ensemble)@[i]) == (Agent {
                strategy: old(agent_ensemble)@[i].strategy_temp,
                resources_cumulative: spec_decay(
                    old(agent_ensemble)@[i].resources_cumulative as int,
                    rate_consumption as int) as i64,
                resources_instant: 0,
                ..old(agent_ensemble)@[i]
            }),
{
    let nagents = agent_ensemble.number_of_agents();
    let mut i: usize = 0;
    while i < nagents
        invariant
            i <= nagents,
            nagents == old(agent_ensemble)@.len(),
            agent_ensemble@.len() == nagents,
            forall|j: int| 0 <= j < i ==> (#[trigger] agent_ensemble@[j]) == (Agent {
                strategy: old(agent_ensemble)@[j].strategy_temp,
                resources_cumulative: spec_decay(
                    old(agent_ensemble)@[j].resources_cumulative as int,
                    rate_consumption as int) as i64,
                resources_instant: 0,
                ..old(agent_ensemble)@[j]
            }),
            forall|j: int| i <= j < nagents
                ==> (#[trigger] agent_ensemble@[j]) == old(agent_ensemble)@[j],
        decreases nagents - i,
    {
        let staged = agent_ensemble.inner()[i].strategy_temp;
        agent_ensemble.set_strategy(i, staged);
        let v = decay(agent_ensemble.inner()[i].resources_cumulative, rate_consumption);
        agent_ensemble.set_cumulative(i, v);
        agent_ensemble.set_instant(i, 0);
        i += 1;
    }
}


/// A strategy count is itself bounded by the prefix it counts, and the
/// summed wealth of those agents stays within count-many `i64` ranges.
pub proof fn lemma_tally_bounds(agents: Seq<Agent>, s: Strategy, k: int)
    requires
        0 <= k <= agents.len(),
    ensures
        0 <= count_strat_upto(agents, s, k) <= k,
        count_strat_upto(agents, s, k) * (i64::MIN as int)
            <= sum_cumulative_upto(agents, s, k)
            <= count_strat_upto(agents, s, k) * (i64::MAX as int),
    decreases k,
{
    if k > 0 {
        lemma_tally_bounds(agents, s, k - 1);
        let c = count_strat_upto(agents, s, k - 1);
        assert((c + 1) * (i64::MIN as int) == c * (i64::MIN as int) + i64::MIN as int)
            by (nonlinear_arith);
        assert((c + 1) * (i64::MAX as int) == c * (i64::MAX as int) + i64::MAX as int)
            by (nonlinear_arith);
    }
}

/// The running accumulators of the time averages, at `FP_ONE^2` scale.
pub struct Accumulators {
    pub frac_c: i128,
    pub frac_d: i128,
    pub frac_f: i128,
    pub pay_c: i128,
    pub pay_d: i128,
    pub pay_f: i128,
}

/// A strategy count turned into a population fraction, in millionths.
pub open spec fn spec_fraction_of(count: int, n: int) -> int {
    clamp_i64(div_trunc(count * (FP_ONE as int), n))
}

/// The average the time series stores for one strategy and timestep:
/// summed wealth over count, zero where nobody plays the strategy.
pub open spec fn spec_avg_or_zero(sum: int, c: int) -> int {
    if c == 0 {
        0
    } else {
        div_trunc(sum, c)
    }
}

/// The fraction accumulator after `upto` timesteps: from the
/// equilibration time on, each timestep adds its strategy count times
/// the per-agent quantum `q`, saturating wide.
pub open spec fn frac_acc_upto(counts: Seq<usize>, t_equilibrium: int, q: int, upto: int) -> int
    decreases upto,
{
    if upto <= 0 {
        0
    } else {
        let prev = frac_acc_upto(counts, t_equilibrium, q, upto - 1);
        if upto - 1 >= t_equilibrium {
            clamp_i128(prev + counts[upto - 1] * q)
        } else {
            prev
        }
    }
}

/// The fraction accumulator reads only the slots below `upto`.
pub proof fn lemma_frac_acc_congruence(c1: Seq<usize>, c2: Seq<usize>, t_equilibrium: int, q: int,
    upto: int)
    requires
        forall|j: int| 0 <= j < upto ==> c1[j] == c2[j],
    ensures
        frac_acc_upto(c1, t_equilibrium, q, upto) == frac_acc_upto(c2, t_equilibrium, q, upto),
    decreases upto,
{
    if upto > 0 {
        lemma_frac_acc_congruence(c1, c2, t_equilibrium, q, upto - 1);
    }
}

/// The tally of one timestep: writes the strategy counts and the
/// per-strategy average wealth into slot `t` of the series and, from the
/// equilibration time on, folds the same counts and wealths into the
/// running time-average accumulators.
fn tally_step(agent_ensemble: &AgentEnsemble, t: usize, t_equilibrium: usize, t_average: usize,
    q: i64, ts: &mut TimeSeries, acc: &mut Accumulators)
    requires
        t_average >= 1,
        0 <= q <= 1_000_000_000_000,
        t < old(ts).number_cooperators@.len(),
        t < old(ts).number_defectors@.len(),
        t < old(ts).number_fighters@.len(),
        t < old(ts).payoff_cooperators@.len(),
        t < old(ts).payoff_defectors@.len(),
        t < old(ts).payoff_fighters@.len(),
    ensures
        final(ts).number_cooperators@ == old(ts).number_cooperators@.update(t as int,
            count_strat(agent_ensemble@, Strategy::Cooperator) as usize),
        final(ts).number_defectors@ == old(ts).number_defectors@.update(t as int,
            count_strat(agent_ensemble@, Strategy::Defector) as usize),
        final(ts).number_fighters@ == old(ts).number_fighters@.update(t as int,
            count_strat(agent_ensemble@, Strategy::Fighter) as usize),
        final(ts).payoff_cooperators@ == old(ts).payoff_cooperators@.update(t as int,
            spec_avg_or_zero(sum_cumulative_upto(agent_ensemble@, Strategy::Cooperator,
                agent_ensemble@.len() as int),
                count_strat(agent_ensemble@, Strategy::Cooperator)) as i64),
        final(ts).payoff_defectors@ == old(ts).payoff_defectors@.update(t as int,
            spec_avg_or_zero(sum_cumulative_upto(agent_ensemble@, Strategy::Defector,
                agent_ensemble@.len() as int),
                count_strat(agent_ensemble@, Strategy::Defector)) as i64),
        final(ts).payoff_fighters@ == old(ts).payoff_fighters@.update(t as int,
            spec_avg_or_zero(sum_cumulative_upto(agent_ensemble@, Strategy::Fighter,
                agent_ensemble@.len() as int),
                count_strat(agent_ensemble@, Strategy::Fighter)) as i64),
        t >= t_equilibrium ==> {
            &&& final(acc).frac_c == clamp_i128(old(acc).frac_c as int
                + count_strat(agent_ensemble@, Strategy::Cooperator) * q as int)
            &&& final(acc).frac_d == clamp_i128(old(acc).frac_d as int
                + count_strat(agent_ensemble@, Strategy::Defector) * q as int)
            &&& final(acc).frac_f == clamp_i128(old(acc).frac_f as int
                + count_strat(agent_ensemble@, Strategy::Fighter) * q as int)
            &&& final(acc).pay_c == sum_payoff_terms_from(agent_ensemble@, Strategy::Cooperator,
                t_average as int, agent_ensemble@.len() as int, old(acc).pay_c as int)
            &&& final(acc).pay_d == sum_payoff_terms_from(agent_ensemble@, Strategy::Defector,
                t_average as int, agent_ensemble@.len() as int, old(acc).pay_d as int)
            &&& final(acc).pay_f == sum_payoff_terms_from(agent_ensemble@, Strategy::Fighter,
                t_average as int, agent_ensemble@.len() as int, old(acc).pay_f as int)
        },
        t < t_equilibrium ==> *final(acc) == *old(acc),
{
    let ghost agents = agent_ensemble@;
    let nagents = agent_ensemble.number_of_agents();
    let mut cc: usize = 0;
    let mut cd: usize = 0;
    let mut cf: usize = 0;
    let mut sc: i128 = 0;
    let mut sd: i128 = 0;
    let mut sf: i128 = 0;
    let mut i: usize = 0;
    while i < nagents
        invariant
            i <= nagents,
            nagents == agents.len(),
            agents == agent_ensemble@,
            t_average >= 1,
            cc == count_strat_upto(agents, Strategy::Cooperator, i as int),
            cd == count_strat_upto(agents, Strategy::Defector, i as int),
            cf == count_strat_upto(agents, Strategy::Fighter, i as int),
            sc == sum_cumulative_upto(agents, Strategy::Cooperator, i as int),
            sd == sum_cumulative_upto(agents, Strategy::Defector, i as int),
            sf == sum_cumulative_upto(agents, Strategy::Fighter, i as int),
            t >= t_equilibrium ==> acc.pay_c == sum_payoff_terms_from(agents,
                Strategy::Cooperator, t_average as int, i as int, old(acc).pay_c as int),
            t >= t_equilibrium ==> acc.pay_d == sum_payoff_terms_from(agents,
                Strategy::Defector, t_average as int, i as int, old(acc).pay_d as int),
            t >= t_equilibrium ==> acc.pay_f == sum_payoff_terms_from(agents,
                Strategy::Fighter, t_average as int, i as int, old(acc).pay_f as int),
            t < t_equilibrium ==> *acc == *old(acc),
            acc.frac_c == old(acc).frac_c,
            acc.frac_d == old(acc).frac_d,
            acc.frac_f == old(acc).frac_f,
        decreases nagents - i,
    {
        proof {
            lemma_tally_bounds(agents, Strategy::Cooperator, i as int);
            lemma_tally_bounds(agents, Strategy::Defector, i as int);
            lemma_tally_bounds(agents, Strategy::Fighter, i as int);
        }
        let r = agent_ensemble.inner()[i].resources_cumulative;
        match agent_ensemble.inner()[i].strategy {
            Strategy::Cooperator => {
                cc += 1;
                sc = sc + r as i128;
                if t >= t_equilibrium {
                    let term = mul_div_wide(r, FP_ONE, t_average as u128);
                    acc.pay_c = sat_add128(acc.pay_c, term);
                }
            }
            Strategy::Defector => {
                cd += 1;
                sd = sd + r as i128;
                if t >= t_equilibrium {
                    let term = mul_div_wide(r, FP_ONE, t_average as u128);
                    acc.pay_d = sat_add128(acc.pay_d, term);
                }
            }
            Strategy::Fighter => {
                cf += 1;
                sf = sf + r as i128;
                if t >= t_equilibrium {
                    let term = mul_div_wide(r, FP_ONE, t_average as u128);
                    acc.pay_f = sat_add128(acc.pay_f, term);
                }
            }
        }
        i += 1;
    }
    proof {
        lemma_tally_bounds(agents, Strategy::Cooperator, nagents as int);
        lemma_tally_bounds(agents, Strategy::Defector, nagents as int);
        lemma_tally_bounds(agents, Strategy::Fighter, nagents as int);
    }
    ts.number_cooperators[t] = cc;
    ts.number_defectors[t] = cd;
    ts.number_fighters[t] = cf;
    let avg_c: i64 = if cc == 0 {
        0
    } else {
        proof {
            lemma_avg_in_range(sc as int, cc as int);
        }
        div_trunc_wide(sc, cc as u128) as i64
    };
    let avg_d: i64 = if cd == 0 {
        0
    } else {
        proof {
            lemma_avg_in_range(sd as int, cd as int);
        }
        div_trunc_wide(sd, cd as u128) as i64
    };
    let avg_f: i64 = if cf == 0 {
        0
    } else {
        proof {
            lemma_avg_in_range(sf as int, cf as int);
        }
        div_trunc_wide(sf, cf as u128) as i64
    };
    ts.payoff_cooperators[t] = avg_c;
    ts.payoff_defectors[t] = avg_d;
    ts.payoff_fighters[t] = avg_f;
    if t >= t_equilibrium {
        proof {
            assert((cc as i128) * (q as i128) <= 18_446_744_073_709_551_615i128
                * 1_000_000_000_000i128 && 0 <= (cc as i128) * (q as i128)
                && (cd as i128) * (q as i128) <= 18_446_744_073_709_551_615i128
                * 1_000_000_000_000i128 && 0 <= (cd as i128) * (q as i128)
                && (cf as i128) * (q as i128) <= 18_446_744_073_709_551_615i128
                * 1_000_000_000_000i128 && 0 <= (cf as i128) * (q as i128))
                by (nonlinear_arith)
                requires
                    0 <= cc <= 18_446_744_073_709_551_615u128,
                    0 <= cd <= 18_446_744_073_709_551_615u128,
                    0 <= cf <= 18_446_744_073_709_551_615u128,
                    0 <= q <= 1_000_000_000_000i64,
            ;
        }
        acc.frac_c = sat_add128(acc.frac_c, (cc as i128) * (q as i128));
        acc.frac_d = sat_add128(acc.frac_d, (cd as i128) * (q as i128));
        acc.frac_f = sat_add128(acc.frac_f, (cf as i128) * (q as i128));
    }
}


/// Slot `j` of `a` equals slot `j` of `b`, field by field.
pub open spec fn slot_matches(a: TimeSeries, b: TimeSeries, j: int) -> bool {
    &&& a.number_cooperators@[j] == b.number_cooperators@[j]
    &&& a.number_defectors@[j] == b.number_defectors@[j]
    &&& a.number_fighters@[j] == b.number_fighters@[j]
    &&& a.payoff_cooperators@[j] == b.payoff_cooperators@[j]
    &&& a.payoff_defectors@[j] == b.payoff_defectors@[j]
    &&& a.payoff_fighters@[j] == b.payoff_fighters@[j]
}

/// Every stored strategy count is at most the population size.
pub open spec fn counts_bounded(ts: TimeSeries, n: int, t_total: int) -> bool {
    forall|tt: int| 0 <= tt < t_total ==> {
        &&& (#[trigger] ts.number_cooperators@[tt]) <= n
        &&& ts.number_defectors@[tt] <= n
        &&& ts.number_fighters@[tt] <= n
    }
}

/// The sanity every recorded event keeps at the run level.
pub open spec fn event_basic_ok(e: FightingEvent, n: int, t_total: int) -> bool {
    &&& e.time < t_total
    &&& e.winner <= 1
    &&& e.id_focal < n
    &&& e.id_enemy < n
    &&& e.id_focal != e.id_enemy
}

pub open spec fn ts_lens(ts: TimeSeries, t_total: int) -> bool {
    &&& ts.number_cooperators@.len() == t_total
    &&& ts.number_defectors@.len() == t_total
    &&& ts.number_fighters@.len() == t_total
    &&& ts.payoff_cooperators@.len() == t_total
    &&& ts.payoff_defectors@.len() == t_total
    &&& ts.payoff_fighters@.len() == t_total
}

/// Two timesteps carry identical series entries.
pub open spec fn slots_equal(ts: TimeSeries, t1: int, t2: int) -> bool {
    &&& ts.number_cooperators@[t1] == ts.number_cooperators@[t2]
    &&& ts.number_defectors@[t1] == ts.number_defectors@[t2]
    &&& ts.number_fighters@[t1] == ts.number_fighters@[t2]
    &&& ts.payoff_cooperators@[t1] == ts.payoff_cooperators@[t2]
    &&& ts.payoff_defectors@[t1] == ts.payoff_defectors@[t2]
    &&& ts.payoff_fighters@[t1] == ts.payoff_fighters@[t2]
}

/// Full-population consensus on cooperation or defection at timestep `t`.
pub open spec fn absorbed_at(ts: TimeSeries, t: int, n: int) -> bool {
    ts.number_cooperators@[t] == n || ts.number_defectors@[t] == n
}

/// The per-agent, per-timestep quantum of the fraction accumulators.
pub open spec fn spec_quantum(n: int, t_average: int) -> int {
    div_trunc((FP_ONE as int) * (FP_ONE as int), n * t_average)
}

/// The global record read off one time-series slot: the snapshot taken
/// when a run absorbs.  The snapshot payoffs are the slot's per-strategy
/// mean wealths themselves.
pub open spec fn global_from_slot(g: OutputGlobal, ts: TimeSeries, t: int, n: int) -> bool {
    &&& g.fraction_cooperators == spec_fraction_of(ts.number_cooperators@[t] as int, n)
    &&& g.fraction_defectors == spec_fraction_of(ts.number_defectors@[t] as int, n)
    &&& g.fraction_fighters == spec_fraction_of(ts.number_fighters@[t] as int, n)
    &&& g.payoff_cooperators == ts.payoff_cooperators@[t]
    &&& g.payoff_defectors == ts.payoff_defectors@[t]
    &&& g.payoff_fighters == ts.payoff_fighters@[t]
}

/// The global fractions of a full run: the accumulator folds of the
/// series counts, read back down to millionths.
pub open spec fn global_fracs_from_acc(g: OutputGlobal, ts: TimeSeries, t_equilibrium: int,
    q: int, t_total: int) -> bool {
    &&& g.fraction_cooperators == clamp_i64(div_trunc(frac_acc_upto(ts.number_cooperators@,
        t_equilibrium, q, t_total), FP_ONE as int))
    &&& g.fraction_defectors == clamp_i64(div_trunc(frac_acc_upto(ts.number_defectors@,
        t_equilibrium, q, t_total), FP_ONE as int))
    &&& g.fraction_fighters == clamp_i64(div_trunc(frac_acc_upto(ts.number_fighters@,
        t_equilibrium, q, t_total), FP_ONE as int))
}

/// Slot `k` of the series holds exactly the tally of `agents`: the three
/// strategy counts and the per-strategy mean cumulative wealths.
pub open spec fn slot_tallies(ts: TimeSeries, k: int, agents: Seq<Agent>) -> bool {
    &&& ts.number_cooperators@[k] as int == count_strat(agents, Strategy::Cooperator)
    &&& ts.number_defectors@[k] as int == count_strat(agents, Strategy::Defector)
    &&& ts.number_fighters@[k] as int == count_strat(agents, Strategy::Fighter)
    &&& ts.payoff_cooperators@[k] as int == spec_avg_or_zero(
        sum_cumulative_upto(agents, Strategy::Cooperator, agents.len() as int),
        count_strat(agents, Strategy::Cooperator))
    &&& ts.payoff_defectors@[k] as int == spec_avg_or_zero(
        sum_cumulative_upto(agents, Strategy::Defector, agents.len() as int),
        count_strat(agents, Strategy::Defector))
    &&& ts.payoff_fighters@[k] as int == spec_avg_or_zero(
        sum_cumulative_upto(agents, Strategy::Fighter, agents.len() as int),
        count_strat(agents, Strategy::Fighter))
}

/// The payoff accumulator over a run's trace: from the equilibration
/// time on, each executed step folds in its population's window terms.
pub open spec fn pay_acc_upto(history: Seq<Seq<Agent>>, s: Strategy, t_equilibrium: int,
    t_average: int, upto: int) -> int
    decreases upto,
{
    if upto <= 0 {
        0
    } else {
        let prev = pay_acc_upto(history, s, t_equilibrium, t_average, upto - 1);
        if upto - 1 >= t_equilibrium {
            sum_payoff_terms_from(history[upto - 1], s, t_average,
                history[upto - 1].len() as int, prev)
        } else {
            prev
        }
    }
}

/// The payoff accumulator reads only the trace entries below `upto`.
proof fn lemma_pay_acc_congruence(h1: Seq<Seq<Agent>>, h2: Seq<Seq<Agent>>, s: Strategy,
    t_equilibrium: int, t_average: int, upto: int)
    requires
        forall|j: int| 0 <= j < upto ==> h1[j] == h2[j],
    ensures
        pay_acc_upto(h1, s, t_equilibrium, t_average, upto)
            == pay_acc_upto(h2, s, t_equilibrium, t_average, upto),
    decreases upto,
{
    if upto > 0 {
        lemma_pay_acc_congruence(h1, h2, s, t_equilibrium, t_average, upto - 1);
    }
}

/// One run's trace: the populations the loop tallied, step by step.  The
/// trace starts at the input population, every stored slot up to its
/// length is the exact tally of its step's population, and a run that
/// never absorbs runs the full schedule with its global payoffs the
/// window-averaged accumulator folds over the trace.
pub open spec fn run_trace_ok(output: Output, history: Seq<Seq<Agent>>, start: Seq<Agent>,
    n: int, pars: Input) -> bool {
    let ts = output.time->Some_0;
    let t_equilibrium = pars.t_equilibrium as int;
    let t_average = pars.t_average as int;
    let t_total = t_equilibrium + t_average;
    &&& 1 <= history.len() <= t_total
    &&& history[0] == start
    &&& forall|k: int| 0 <= k < history.len() ==> (#[trigger] history[k]).len() == n
    &&& forall|k: int| 0 <= k < history.len() ==> slot_tallies(ts, k, #[trigger] history[k])
    &&& forall|k: int, a: usize, kk: int|
        #![trigger history[k][a as int].neighbors@[kk]]
        0 <= k < history.len() && a < n && 0 <= kk < history[k][a as int].neighbors@.len()
            && contest_qualifying(history[k], a as int,
                history[k][a as int].neighbors@[kk] as int, pars.fraction_investment as int,
                pars.cutoff_resources as int)
            ==> edge_event_at(output.events->Some_0@, a,
                history[k][a as int].neighbors@[kk], k)
    &&& (forall|tt: int| 0 <= tt < t_total ==> !absorbed_at(ts, tt, n)) ==> {
        &&& history.len() == t_total
        &&& output.global.payoff_cooperators as int == clamp_i64(div_trunc(pay_acc_upto(history,
            Strategy::Cooperator, t_equilibrium, t_average, t_total), FP_ONE as int))
        &&& output.global.payoff_defectors as int == clamp_i64(div_trunc(pay_acc_upto(history,
            Strategy::Defector, t_equilibrium, t_average, t_total), FP_ONE as int))
        &&& output.global.payoff_fighters as int == clamp_i64(div_trunc(pay_acc_upto(history,
            Strategy::Fighter, t_equilibrium, t_average, t_total), FP_ONE as int))
    }
}

/// Everything the dynamical loop promises of one run's output, bundled
/// for cross-run statements: the record shapes, event sanity, the
/// absorption constancy of the series, the per-slot strategy partition,
/// a trace from the starting population, and the exit characterization.
pub open spec fn run_output_ok(output: Output, start: Seq<Agent>, n: int, pars: Input) -> bool {
    let t_equilibrium = pars.t_equilibrium as int;
    let t_average = pars.t_average as int;
    let t_total = t_equilibrium + t_average;
    let ts = output.time->Some_0;
    &&& output.time is Some
    &&& output.events is Some
    &&& ts_lens(ts, t_total)
    &&& counts_bounded(ts, n, t_total)
    &&& (forall|j: int| 0 <= j < output.events->Some_0@.len()
        ==> event_basic_ok(#[trigger] output.events->Some_0@[j], n, t_total))
    &&& (forall|t1: int, t2: int|
        #![trigger absorbed_at(ts, t1, n), slots_equal(ts, t1, t2)]
        0 <= t1 <= t2 < t_total && absorbed_at(ts, t1, n) ==> slots_equal(ts, t1, t2))
    &&& (forall|tt: int| 0 <= tt < t_total
        ==> (#[trigger] ts.number_cooperators@[tt]) as int + ts.number_defectors@[tt] as int
            + ts.number_fighters@[tt] as int == n)
    &&& (exists|history: Seq<Seq<Agent>>| run_trace_ok(output, history, start, n, pars))
    &&& (exists|t_stop: int| loop_exit_ok(output, t_stop, n, t_equilibrium, t_average))
}

/// How one run may end: absorbed at the first consensus timestep, the
/// global record the snapshot of that slot; or by exhausting the
/// schedule, the global fractions the time averages of the window.
pub open spec fn loop_exit_ok(output: Output, t_stop: int, n: int, t_equilibrium: int,
    t_average: int) -> bool {
    let ts = output.time->Some_0;
    let t_total = t_equilibrium + t_average;
    let q = spec_quantum(n, t_average);
    ||| (0 <= t_stop < t_total && absorbed_at(ts, t_stop, n)
        && (forall|t: int| 0 <= t < t_stop ==> !absorbed_at(ts, t, n))
        && global_from_slot(output.global, ts, t_stop, n))
    ||| (t_stop == t_total && (forall|t: int| 0 <= t < t_total ==> !absorbed_at(ts, t, n))
        && global_fracs_from_acc(output.global, ts, t_equilibrium, q, t_total))
}

/// Whatever a phase does to strategies and wealth, it leaves ids and the
/// network alone, so the network stays valid.
proof fn lemma_network_preserved(pre: Seq<Agent>, post: Seq<Agent>)
    requires
        valid_network(pre),
        post.len() == pre.len(),
        forall|i: int| 0 <= i < post.len() ==> (#[trigger] post[i]).neighbors@ == pre[i].neighbors@
            && post[i].id == pre[i].id,
    ensures
        valid_network(post),
{
    assert forall|i: int, k: int|
        0 <= i < post.len() && 0 <= k < post[i].neighbors@.len()
        implies (#[trigger] post[i].neighbors@[k]) < post.len()
            && post[i].neighbors@[k] != i
            && post[(post[i].neighbors@[k]) as int].neighbors@.contains(i as usize)
    by {
        assert(post[i].neighbors@ == pre[i].neighbors@);
        assert(pre[i].neighbors@[k] < pre.len());
        assert(post[(pre[i].neighbors@[k]) as int].neighbors@
            == pre[(pre[i].neighbors@[k]) as int].neighbors@);
    }
    assert forall|i: int| 0 <= i < post.len() implies (#[trigger] post[i]).id == i by {
        assert(pre[i].id == i);
    }
    assert forall|i: int| 0 <= i < post.len()
        implies (#[trigger] post[i]).neighbors@.len() >= 1 by {
        assert(pre[i].neighbors@.len() >= 1);
    }
}

/// A strategy count turned into a population fraction.
fn fraction_of(count: usize, n: usize) -> (r: i64)
    requires
        n >= 1,
    ensures
        r as int == spec_fraction_of(count as int, n as int),
{
    let v: u128 = (count as u128) * 1_000_000u128 / (n as u128);
    proof {
        assert((count as u128) * 1_000_000u128 == (count as int) * (FP_ONE as int));
        vstd::arithmetic::div_mod::lemma_div_pos_is_pos((count as int) * (FP_ONE as int), n as int);
    }
    if v > i64::MAX as u128 {
        i64::MAX
    } else {
        v as i64
    }
}

/// The dynamical loop of one run: tally, interactions, absorption check,
/// settlement, synchronous Fermi update and commit, over
/// `t_equilibrium + t_average` timesteps.  On full-population consensus
/// of cooperators or defectors the loop stops early and the remaining
/// series slots repeat the consensus slot; the global record then
/// snapshots that slot, and otherwise carries the window's time
/// averages.  The contract ties every stored slot to the population of
/// its step through a trace that starts at the input population
/// (`run_trace_ok`), demands an event for every qualifying contest edge
/// of every executed step, partitions each slot's counts over the
/// population, and leaves ids, the network and the initial endowments
/// untouched; a run that never absorbs ends committed, with transient
/// gains zeroed and strategies equal to their staging fields.
#[verifier::rlimit(100)]
pub fn dynamical_loop(agent_ensemble: &mut AgentEnsemble, pars_model: &Input) -> (output: Output)
    requires
        valid_network(old(agent_ensemble)@),
        old(agent_ensemble)@.len() >= 1,
        valid_input(*pars_model),
    ensures
        final(agent_ensemble)@.len() == old(agent_ensemble)@.len(),
        output.time is Some,
        output.events is Some,
        ts_lens(output.time->Some_0,
            pars_model.t_equilibrium as int + pars_model.t_average as int),
        forall|j: int| 0 <= j < output.events->Some_0@.len()
            ==> event_basic_ok(#[trigger] output.events->Some_0@[j],
                old(agent_ensemble)@.len() as int,
                pars_model.t_equilibrium as int + pars_model.t_average as int),
        forall|t1: int, t2: int|
            #![trigger absorbed_at(output.time->Some_0, t1, old(agent_ensemble)@.len() as int),
                slots_equal(output.time->Some_0, t1, t2)]
            0 <= t1 <= t2 < pars_model.t_equilibrium as int + pars_model.t_average as int
                && absorbed_at(output.time->Some_0, t1, old(agent_ensemble)@.len() as int)
                ==> slots_equal(output.time->Some_0, t1, t2),
        counts_bounded(output.time->Some_0, old(agent_ensemble)@.len() as int,
            pars_model.t_equilibrium as int + pars_model.t_average as int),
        forall|i: int| 0 <= i < old(agent_ensemble)@.len() ==> {
            &&& (#[trigger] final(agent_ensemble)@[i]).id == old(agent_ensemble)@[i].id
            &&& final(agent_ensemble)@[i].neighbors@ == old(agent_ensemble)@[i].neighbors@
            &&& final(agent_ensemble)@[i].resources_initial
                == old(agent_ensemble)@[i].resources_initial
        },
        (forall|tt: int| 0 <= tt < pars_model.t_equilibrium as int + pars_model.t_average as int
            ==> !absorbed_at(output.time->Some_0, tt, old(agent_ensemble)@.len() as int))
            ==> forall|i: int| 0 <= i < old(agent_ensemble)@.len() ==> {
                &&& (#[trigger] final(agent_ensemble)@[i]).resources_instant == 0
                &&& final(agent_ensemble)@[i].strategy == final(agent_ensemble)@[i].strategy_temp
            },
        forall|tt: int| 0 <= tt < pars_model.t_equilibrium as int + pars_model.t_average as int
            ==> (#[trigger] output.time->Some_0.number_cooperators@[tt]) as int
                + output.time->Some_0.number_defectors@[tt] as int
                + output.time->Some_0.number_fighters@[tt] as int
                == old(agent_ensemble)@.len(),
        exists|history: Seq<Seq<Agent>>| run_trace_ok(output, history, old(agent_ensemble)@,
            old(agent_ensemble)@.len() as int, *pars_model),
        forall|a: usize, k: int|
            #![trigger old(agent_ensemble)@[a as int].neighbors@[k]]
            a < old(agent_ensemble)@.len()
                && 0 <= k < old(agent_ensemble)@[a as int].neighbors@.len()
                && contest_qualifying(old(agent_ensemble)@, a as int,
                    old(agent_ensemble)@[a as int].neighbors@[k] as int,
                    pars_model.fraction_investment as int, pars_model.cutoff_resources as int)
                ==> edge_has_event(output.events->Some_0@, 0, a,
                    old(agent_ensemble)@[a as int].neighbors@[k]),
        exists|t_stop: int| loop_exit_ok(output, t_stop, old(agent_ensemble)@.len() as int,
            pars_model.t_equilibrium as int, pars_model.t_average as int),
{
    let nagents = agent_ensemble.number_of_agents();
    let ghost n = nagents as int;
    let t_equilibrium = pars_model.t_equilibrium;
    let t_average = pars_model.t_average;
    let t_total = t_equilibrium + t_average;
    proof {
        assert((nagents as u128) * (t_average as u128) == n * (t_average as int)
            && 1 <= n * (t_average as int)
            && n * (t_average as int) <= 340_282_366_920_938_463_463_374_607_431_768_211_455)
            by (nonlinear_arith)
            requires
                1 <= nagents as u128 <= 18_446_744_073_709_551_615u128,
                1 <= t_average as u128 <= 18_446_744_073_709_551_615u128,
                n == nagents as int,
        ;
    }
    let qw: u128 = 1_000_000_000_000u128 / ((nagents as u128) * (t_average as u128));
    let q: i64 = qw as i64;
    proof {
        vstd::arithmetic::div_mod::lemma_div_pos_is_pos(1_000_000_000_000,
            n * (t_average as int));
        vstd::arithmetic::div_mod::lemma_div_nonincreasing(1_000_000_000_000,
            n * (t_average as int));
        assert(q == spec_quantum(n, t_average as int));
    }
    let mut event_ensemble: Vec<FightingEvent> = Vec::new();
    let mut ts = TimeSeries {
        number_cooperators: vec![0usize; t_total],
        number_defectors: vec![0usize; t_total],
        number_fighters: vec![0usize; t_total],
        payoff_cooperators: vec![0i64; t_total],
        payoff_defectors: vec![0i64; t_total],
        payoff_fighters: vec![0i64; t_total],
    };
    let mut acc = Accumulators { frac_c: 0, frac_d: 0, frac_f: 0, pay_c: 0, pay_d: 0, pay_f: 0 };
    let ghost pre0 = old(agent_ensemble)@;
    let ghost mut history: Seq<Seq<Agent>> = Seq::empty();
    let mut t: usize = 0;
    let mut absorbed: bool = false;
    while t < t_total && !absorbed
        invariant
            t <= t_total,
            t_total == t_equilibrium + t_average,
            t_equilibrium == pars_model.t_equilibrium,
            t_average == pars_model.t_average,
            valid_input(*pars_model),
            nagents >= 1,
            n == nagents as int,
            agent_ensemble@.len() == n,
            valid_network(agent_ensemble@),
            0 <= q <= 1_000_000_000_000,
            q == spec_quantum(n, t_average as int),
            ts_lens(ts, t_total as int),
            forall|s: int| 0 <= s < t ==> !absorbed_at(ts, s, n),
            absorbed ==> t < t_total && absorbed_at(ts, t as int, n),
            !absorbed ==> acc.frac_c as int == frac_acc_upto(ts.number_cooperators@,
                t_equilibrium as int, q as int, t as int),
            !absorbed ==> acc.frac_d as int == frac_acc_upto(ts.number_defectors@,
                t_equilibrium as int, q as int, t as int),
            !absorbed ==> acc.frac_f as int == frac_acc_upto(ts.number_fighters@,
                t_equilibrium as int, q as int, t as int),
            counts_bounded(ts, n, t_total as int),
            forall|j: int| 0 <= j < event_ensemble@.len()
                ==> event_basic_ok(#[trigger] event_ensemble@[j], n, t_total as int),
            pre0 == old(agent_ensemble)@,
            history.len() == t as int + if absorbed { 1int } else { 0int },
            history.len() >= 1 ==> history[0] == pre0,
            forall|k: int| 0 <= k < history.len() ==> (#[trigger] history[k]).len() == n,
            forall|k: int| 0 <= k < history.len() ==> slot_tallies(ts, k, #[trigger] history[k]),
            !absorbed ==> acc.pay_c as int == pay_acc_upto(history, Strategy::Cooperator,
                t_equilibrium as int, t_average as int, t as int),
            !absorbed ==> acc.pay_d as int == pay_acc_upto(history, Strategy::Defector,
                t_equilibrium as int, t_average as int, t as int),
            !absorbed ==> acc.pay_f as int == pay_acc_upto(history, Strategy::Fighter,
                t_equilibrium as int, t_average as int, t as int),
            forall|i: int| 0 <= i < n ==> {
                &&& (#[trigger] agent_ensemble@[i]).id == pre0[i].id
                &&& agent_ensemble@[i].neighbors@ == pre0[i].neighbors@
                &&& agent_ensemble@[i].resources_initial == pre0[i].resources_initial
            },
            t == 0 && !absorbed ==> agent_ensemble@ == pre0,
            t > 0 && !absorbed ==> forall|i: int| 0 <= i < n ==> {
                &&& (#[trigger] agent_ensemble@[i]).resources_instant == 0
                &&& agent_ensemble@[i].strategy == agent_ensemble@[i].strategy_temp
            },
            forall|k: int, a: usize, kk: int|
                #![trigger history[k][a as int].neighbors@[kk]]
                0 <= k < history.len() && a < n
                    && 0 <= kk < history[k][a as int].neighbors@.len()
                    && contest_qualifying(history[k], a as int,
                        history[k][a as int].neighbors@[kk] as int,
                        pars_model.fraction_investment as int,
                        pars_model.cutoff_resources as int)
                    ==> edge_event_at(event_ensemble@, a,
                        history[k][a as int].neighbors@[kk], k),
        decreases t_total - t, 1int - if absorbed { 1int } else { 0int },
    {
        let ghost ts_before = ts;
        let ghost acc_before = acc;
        let ghost history_before = history;
        let ghost events_at_head = event_ensemble@;
        proof {
            history = history.push(agent_ensemble@);
        }
        tally_step(agent_ensemble, t, t_equilibrium, t_average, q, &mut ts, &mut acc);
        proof {
            lemma_frac_acc_congruence(ts.number_cooperators@, ts_before.number_cooperators@,
                t_equilibrium as int, q as int, t as int);
            lemma_frac_acc_congruence(ts.number_defectors@, ts_before.number_defectors@,
                t_equilibrium as int, q as int, t as int);
            lemma_frac_acc_congruence(ts.number_fighters@, ts_before.number_fighters@,
                t_equilibrium as int, q as int, t as int);
            lemma_tally_bounds(agent_ensemble@, Strategy::Cooperator, agent_ensemble@.len() as int);
            lemma_tally_bounds(agent_ensemble@, Strategy::Defector, agent_ensemble@.len() as int);
            lemma_tally_bounds(agent_ensemble@, Strategy::Fighter, agent_ensemble@.len() as int);
            assert forall|ss: int| 0 <= ss < t implies !absorbed_at(ts, ss, n) by {
                assert(ts.number_cooperators@[ss] == ts_before.number_cooperators@[ss]);
                assert(ts.number_defectors@[ss] == ts_before.number_defectors@[ss]);
                assert(!absorbed_at(ts_before, ss, n));
            }
            assert forall|tt: int| 0 <= tt < t_total implies
                (#[trigger] ts.number_cooperators@[tt]) <= n
                && ts.number_defectors@[tt] <= n
                && ts.number_fighters@[tt] <= n by {
                if tt != t as int {
                    assert(ts.number_cooperators@[tt] == ts_before.number_cooperators@[tt]);
                    assert(ts.number_defectors@[tt] == ts_before.number_defectors@[tt]);
                    assert(ts.number_fighters@[tt] == ts_before.number_fighters@[tt]);
                }
            }
            assert forall|k: int| 0 <= k < history.len()
                implies slot_tallies(ts, k, #[trigger] history[k]) by {
                if k < t as int {
                    assert(history[k] == history_before[k]);
                    assert(slot_tallies(ts_before, k, history[k]));
                    assert(ts.number_cooperators@[k] == ts_before.number_cooperators@[k]);
                    assert(ts.number_defectors@[k] == ts_before.number_defectors@[k]);
                    assert(ts.number_fighters@[k] == ts_before.number_fighters@[k]);
                    assert(ts.payoff_cooperators@[k] == ts_before.payoff_cooperators@[k]);
                    assert(ts.payoff_defectors@[k] == ts_before.payoff_defectors@[k]);
                    assert(ts.payoff_fighters@[k] == ts_before.payoff_fighters@[k]);
                } else {
                    assert(history[k] == agent_ensemble@);
                    let m = agent_ensemble@.len() as int;
                    if count_strat(agent_ensemble@, Strategy::Cooperator) >= 1 {
                        lemma_avg_in_range(sum_cumulative_upto(agent_ensemble@,
                            Strategy::Cooperator, m),
                            count_strat(agent_ensemble@, Strategy::Cooperator));
                    }
                    if count_strat(agent_ensemble@, Strategy::Defector) >= 1 {
                        lemma_avg_in_range(sum_cumulative_upto(agent_ensemble@,
                            Strategy::Defector, m),
                            count_strat(agent_ensemble@, Strategy::Defector));
                    }
                    if count_strat(agent_ensemble@, Strategy::Fighter) >= 1 {
                        lemma_avg_in_range(sum_cumulative_upto(agent_ensemble@,
                            Strategy::Fighter, m),
                            count_strat(agent_ensemble@, Strategy::Fighter));
                    }
                }
            }
            lemma_pay_acc_congruence(history, history_before, Strategy::Cooperator,
                t_equilibrium as int, t_average as int, t as int);
            lemma_pay_acc_congruence(history, history_before, Strategy::Defector,
                t_equilibrium as int, t_average as int, t as int);
            lemma_pay_acc_congruence(history, history_before, Strategy::Fighter,
                t_equilibrium as int, t_average as int, t as int);
            assert(acc.pay_c as int == pay_acc_upto(history, Strategy::Cooperator,
                t_equilibrium as int, t_average as int, t as int + 1));
            assert(acc.pay_d as int == pay_acc_upto(history, Strategy::Defector,
                t_equilibrium as int, t_average as int, t as int + 1));
            assert(acc.pay_f as int == pay_acc_upto(history, Strategy::Fighter,
                t_equilibrium as int, t_average as int, t as int + 1));
        }
        let ghost agents_tallied = agent_ensemble@;
        interaction_phase(agent_ensemble, pars_model, t, &mut event_ensemble);
        proof {
            lemma_network_preserved(agents_tallied, agent_ensemble@);
            assert forall|k: int, a: usize, kk: int|
                #![trigger history[k][a as int].neighbors@[kk]]
                0 <= k < history.len() && a < n
                    && 0 <= kk < history[k][a as int].neighbors@.len()
                    && contest_qualifying(history[k], a as int,
                        history[k][a as int].neighbors@[kk] as int,
                        pars_model.fraction_investment as int,
                        pars_model.cutoff_resources as int)
                implies edge_event_at(event_ensemble@, a,
                    history[k][a as int].neighbors@[kk], k) by {
                let b = history[k][a as int].neighbors@[kk];
                if k == t as int {
                    assert(agents_tallied == history[k]);
                    assert(edge_has_event(event_ensemble@, events_at_head.len() as int, a, b));
                    let j = choose|j: int| events_at_head.len() <= j < event_ensemble@.len()
                        && (#[trigger] event_ensemble@[j]).id_focal == norm_pair(a, b).0
                        && event_ensemble@[j].id_enemy == norm_pair(a, b).1;
                    assert(phase_event_ok(agents_tallied, event_ensemble@[j], t as int,
                        pars_model.fraction_investment as int,
                        pars_model.cutoff_resources as int));
                    assert(event_ensemble@[j].time == t);
                    assert(edge_event_at(event_ensemble@, a, b, k));
                } else {
                    assert(history[k] == history_before[k]);
                    assert(edge_event_at(events_at_head, a, b, k));
                    let j = choose|j: int| 0 <= j < events_at_head.len()
                        && events_at_head[j].id_focal == norm_pair(a, b).0
                        && events_at_head[j].id_enemy == norm_pair(a, b).1
                        && (#[trigger] events_at_head[j]).time == k;
                    assert(event_ensemble@[j] == events_at_head[j]);
                    assert(edge_event_at(event_ensemble@, a, b, k));
                }
            }
        }
        let nc = ts.number_cooperators[t];
        let nd = ts.number_defectors[t];
        if nc == nagents || nd == nagents {
            absorbed = true;
        } else {
            let ghost pre_settle = agent_ensemble@;
            settle_resources(agent_ensemble);
            proof {
                lemma_network_preserved(pre_settle, agent_ensemble@);
            }
            let ghost pre_update = agent_ensemble@;
            strategy_update_phase(agent_ensemble, pars_model.parameter_noise);
            proof {
                lemma_network_preserved(pre_update, agent_ensemble@);
            }
            let ghost pre_commit = agent_ensemble@;
            commit_phase(agent_ensemble, pars_model.rate_consumption);
            proof {
                lemma_network_preserved(pre_commit, agent_ensemble@);
                assert forall|ss: int| 0 <= ss < t + 1 implies !absorbed_at(ts, ss, n) by {
                    if ss == t as int {
                        assert(ts.number_cooperators@[ss] != n);
                        assert(ts.number_defectors@[ss] != n);
                    }
                }
            }
            t += 1;
        }
    }
    let global: OutputGlobal;
    let ghost ts_exit = ts;
    if absorbed {
        let last_nc = ts.number_cooperators[t];
        let last_nd = ts.number_defectors[t];
        let last_nf = ts.number_fighters[t];
        let last_pc = ts.payoff_cooperators[t];
        let last_pd = ts.payoff_defectors[t];
        let last_pf = ts.payoff_fighters[t];
        global = OutputGlobal {
            fraction_cooperators: fraction_of(last_nc, nagents),
            fraction_defectors: fraction_of(last_nd, nagents),
            fraction_fighters: fraction_of(last_nf, nagents),
            payoff_cooperators: last_pc,
            payoff_defectors: last_pd,
            payoff_fighters: last_pf,
        };
        let mut s: usize = t + 1;
        while s < t_total
            invariant
                t < s <= t_total,
                t < t_total,
                ts_lens(ts, t_total as int),
                ts_lens(ts_exit, t_total as int),
                forall|j: int| 0 <= j <= t ==> slot_matches(ts, ts_exit, j),
                forall|j: int| s <= j < t_total ==> slot_matches(ts, ts_exit, j),
                forall|j: int| t < j < s ==> slots_equal(ts, t as int, j),
                counts_bounded(ts, n, t_total as int),
                history.len() == t as int + 1,
                forall|k: int| 0 <= k < history.len() ==> (#[trigger] history[k]).len() == n,
                forall|k: int| 0 <= k < history.len()
                    ==> slot_tallies(ts, k, #[trigger] history[k]),
            decreases t_total - s,
        {
            let ghost ts_iter = ts;
            let vc = ts.number_cooperators[t];
            ts.number_cooperators[s] = vc;
            let vd = ts.number_defectors[t];
            ts.number_defectors[s] = vd;
            let vf = ts.number_fighters[t];
            ts.number_fighters[s] = vf;
            let pc = ts.payoff_cooperators[t];
            ts.payoff_cooperators[s] = pc;
            let pd = ts.payoff_defectors[t];
            ts.payoff_defectors[s] = pd;
            let pf = ts.payoff_fighters[t];
            ts.payoff_fighters[s] = pf;
            proof {
                assert(ts.number_cooperators@ == ts_iter.number_cooperators@.update(s as int,
                    ts_iter.number_cooperators@[t as int]));
                assert(ts.number_defectors@ == ts_iter.number_defectors@.update(s as int,
                    ts_iter.number_defectors@[t as int]));
                assert(ts.number_fighters@ == ts_iter.number_fighters@.update(s as int,
                    ts_iter.number_fighters@[t as int]));
                assert(ts.payoff_cooperators@ == ts_iter.payoff_cooperators@.update(s as int,
                    ts_iter.payoff_cooperators@[t as int]));
                assert(ts.payoff_defectors@ == ts_iter.payoff_defectors@.update(s as int,
                    ts_iter.payoff_defectors@[t as int]));
                assert(ts.payoff_fighters@ == ts_iter.payoff_fighters@.update(s as int,
                    ts_iter.payoff_fighters@[t as int]));
                assert forall|j: int| 0 <= j <= t implies slot_matches(ts, ts_exit, j) by {
                    assert(j != s as int);
                    assert(slot_matches(ts_iter, ts_exit, j));
                }
                assert forall|j: int| s as int + 1 <= j < t_total
                    implies slot_matches(ts, ts_exit, j) by {
                    assert(j != s as int);
                    assert(slot_matches(ts_iter, ts_exit, j));
                }
                assert forall|j: int| t < j < s as int + 1 implies slots_equal(ts, t as int, j)
                by {
                    assert(slot_matches(ts_iter, ts_exit, t as int));
                    if j < s as int {
                        assert(slots_equal(ts_iter, t as int, j));
                    }
                }
                assert forall|tt: int| 0 <= tt < t_total implies
                    (#[trigger] ts.number_cooperators@[tt]) <= n
                    && ts.number_defectors@[tt] <= n
                    && ts.number_fighters@[tt] <= n by {
                    if tt != s as int {
                        assert(ts.number_cooperators@[tt] == ts_iter.number_cooperators@[tt]);
                        assert(ts.number_defectors@[tt] == ts_iter.number_defectors@[tt]);
                        assert(ts.number_fighters@[tt] == ts_iter.number_fighters@[tt]);
                    } else {
                        assert(ts.number_cooperators@[tt] == ts_iter.number_cooperators@[t as int]);
                        assert(ts.number_defectors@[tt] == ts_iter.number_defectors@[t as int]);
                        assert(ts.number_fighters@[tt] == ts_iter.number_fighters@[t as int]);
                    }
                }
                assert forall|k: int| 0 <= k < history.len()
                    implies slot_tallies(ts, k, #[trigger] history[k]) by {
                    assert(k != s as int);
                    assert(slot_tallies(ts_iter, k, history[k]));
                    assert(ts.number_cooperators@[k] == ts_iter.number_cooperators@[k]);
                    assert(ts.number_defectors@[k] == ts_iter.number_defectors@[k]);
                    assert(ts.number_fighters@[k] == ts_iter.number_fighters@[k]);
                    assert(ts.payoff_cooperators@[k] == ts_iter.payoff_cooperators@[k]);
                    assert(ts.payoff_defectors@[k] == ts_iter.payoff_defectors@[k]);
                    assert(ts.payoff_fighters@[k] == ts_iter.payoff_fighters@[k]);
                }
            }
            s += 1;
        }
    } else {
        global = OutputGlobal {
            fraction_cooperators: clamp_to_i64(div_trunc_wide(acc.frac_c, 1_000_000)),
            fraction_defectors: clamp_to_i64(div_trunc_wide(acc.frac_d, 1_000_000)),
            fraction_fighters: clamp_to_i64(div_trunc_wide(acc.frac_f, 1_000_000)),
            payoff_cooperators: clamp_to_i64(div_trunc_wide(acc.pay_c, 1_000_000)),
            payoff_defectors: clamp_to_i64(div_trunc_wide(acc.pay_d, 1_000_000)),
            payoff_fighters: clamp_to_i64(div_trunc_wide(acc.pay_f, 1_000_000)),
        };
    }
    let output = Output { global, events: Some(event_ensemble), time: Some(ts) };
    proof {
        if absorbed {
            assert forall|t1: int, t2: int|
                0 <= t1 <= t2 < t_total as int && absorbed_at(ts, t1, n)
                implies slots_equal(ts, t1, t2) by {
                assert(t1 >= t as int) by {
                    if t1 < t as int {
                        assert(slot_matches(ts, ts_exit, t1));
                        assert(!absorbed_at(ts_exit, t1, n));
                    }
                }
                if t1 > t as int {
                    assert(slots_equal(ts, t as int, t1));
                }
                if t2 > t as int {
                    assert(slots_equal(ts, t as int, t2));
                }
            }
            assert(loop_exit_ok(output, t as int, n, t_equilibrium as int, t_average as int))
            by {
                assert(slot_matches(ts, ts_exit, t as int));
                assert forall|tt: int| 0 <= tt < t as int
                    implies !absorbed_at(ts, tt, n) by {
                    assert(slot_matches(ts, ts_exit, tt));
                    assert(!absorbed_at(ts_exit, tt, n));
                }
            }
        } else {
            assert(loop_exit_ok(output, t_total as int, n, t_equilibrium as int,
                t_average as int));
        }
        assert forall|tt: int| 0 <= tt < t_total implies
            (#[trigger] ts.number_cooperators@[tt]) as int + ts.number_defectors@[tt] as int
                + ts.number_fighters@[tt] as int == n by {
            if tt < history.len() {
                assert(slot_tallies(ts, tt, history[tt]));
                lemma_strategy_partition(history[tt], history[tt].len() as int);
            } else {
                assert(absorbed && tt > t as int);
                assert(slots_equal(ts, t as int, tt));
                assert(slot_tallies(ts, t as int, history[t as int]));
                lemma_strategy_partition(history[t as int], history[t as int].len() as int);
            }
        }
        assert(run_trace_ok(output, history, pre0, n, *pars_model)) by {
            if absorbed {
                assert(absorbed_at(ts, t as int, n));
            } else {
                assert(history.len() == t_total as int);
            }
        }
        if absorbed {
            assert(absorbed_at(ts, t as int, n));
        }
        assert forall|a: usize, k: int|
            #![trigger pre0[a as int].neighbors@[k]]
            a < n && 0 <= k < pre0[a as int].neighbors@.len()
                && contest_qualifying(pre0, a as int, pre0[a as int].neighbors@[k] as int,
                    pars_model.fraction_investment as int, pars_model.cutoff_resources as int)
            implies edge_has_event(output.events->Some_0@, 0, a,
                pre0[a as int].neighbors@[k]) by {
            let b = pre0[a as int].neighbors@[k];
            assert(history[0] == pre0);
            assert(edge_event_at(event_ensemble@, a, b, 0));
            let j = choose|j: int| 0 <= j < event_ensemble@.len()
                && event_ensemble@[j].id_focal == norm_pair(a, b).0
                && event_ensemble@[j].id_enemy == norm_pair(a, b).1
                && (#[trigger] event_ensemble@[j]).time == 0;
            assert(edge_has_event(output.events->Some_0@, 0, a, b));
        }
    }
    output
}


/// Runs whose counts are bounded by the population size keep every
/// slot's cross-run count total at most `k * n`.
proof fn lemma_count_sums_bounded(outs: Seq<Output>, s: Strategy, j: int, k: int, n: int, l: int)
    requires
        0 <= k <= outs.len(),
        0 <= j < l,
        n >= 0,
        forall|i: int| 0 <= i < outs.len() ==> (#[trigger] outs[i]).time is Some
            && ts_lens(ts_of(outs[i]), l)
            && counts_bounded(ts_of(outs[i]), n, l),
    ensures
        sum_count_upto(outs, s, j, k) <= k * n,
    decreases k,
{
    if k > 0 {
        lemma_count_sums_bounded(outs, s, j, k - 1, n, l);
        assert(counts_seq(outs[k - 1], s)[j] <= n) by {
            assert(ts_of(outs[k - 1]).number_cooperators@[j] <= n);
        }
        assert((k - 1) * n + n == k * n) by (nonlinear_arith);
    }
}

/// The whole model: builds one population per run over the same network,
/// drives each run's dynamical loop, and averages the runs' outputs into
/// a summary record.
pub fn model_cooperation_and_fight(pars_model: &Input, adjacency_list: &Vec<Vec<usize>>)
    -> (r: (Vec<Output>, Output))
    requires
        adjacency_valid(adjacency_list@),
        adjacency_list@.len() >= 1,
        valid_input(*pars_model),
        valid_fractions(pars_model.fraction_cooperators as int,
            pars_model.fraction_defectors as int),
        pars_model.nsims >= 1,
        pars_model.nsims * adjacency_list@.len() <= usize::MAX,
    ensures
        r.0@.len() == pars_model.nsims,
        forall|i: int| 0 <= i < r.0@.len() ==> (#[trigger] r.0@[i]).time is Some
            && r.0@[i].events is Some
            && ts_lens(ts_of(r.0@[i]),
                pars_model.t_equilibrium as int + pars_model.t_average as int),
        forall|i: int| 0 <= i < r.0@.len() ==> exists|start: Seq<Agent>|
            freshly_seeded(start, adjacency_list@, pars_model.fraction_cooperators as int,
                pars_model.fraction_defectors as int)
            && run_output_ok(#[trigger] r.0@[i], start, adjacency_list@.len() as int,
                *pars_model),
        is_summary_of(r.1, r.0@),
{
    let ghost n = adjacency_list@.len() as int;
    let ghost t_total = pars_model.t_equilibrium as int + pars_model.t_average as int;
    let nsims = pars_model.nsims;
    let mut output_ensemble: Vec<Output> = Vec::new();
    let mut sim: usize = 0;
    while sim < nsims
        invariant
            sim <= nsims,
            nsims == pars_model.nsims,
            n == adjacency_list@.len(),
            n >= 1,
            t_total == pars_model.t_equilibrium as int + pars_model.t_average as int,
            adjacency_valid(adjacency_list@),
            valid_input(*pars_model),
            valid_fractions(pars_model.fraction_cooperators as int,
                pars_model.fraction_defectors as int),
            output_ensemble@.len() == sim,
            forall|i: int| 0 <= i < sim ==> (#[trigger] output_ensemble@[i]).time is Some
                && output_ensemble@[i].events is Some
                && ts_lens(ts_of(output_ensemble@[i]), t_total)
                && counts_bounded(ts_of(output_ensemble@[i]), n, t_total),
            forall|i: int| 0 <= i < sim ==> exists|start: Seq<Agent>|
                freshly_seeded(start, adjacency_list@, pars_model.fraction_cooperators as int,
                    pars_model.fraction_defectors as int)
                && run_output_ok(#[trigger] output_ensemble@[i], start, n, *pars_model),
        decreases nsims - sim,
    {
        let ens_result = AgentEnsemble::new(adjacency_list, pars_model.fraction_cooperators,
            pars_model.fraction_defectors, pars_model.model_distribution_resources);
        let mut agent_ensemble = match ens_result {
            Ok(e) => e,
            Err(_) => {
                proof {
                    assert(false);
                }
                vstd::pervasive::unreached()
            }
        };
        proof {
            lemma_new_network_valid(agent_ensemble@, adjacency_list@);
        }
        let ghost start_pop = agent_ensemble@;
        let ghost outs_before = output_ensemble@;
        let output = dynamical_loop(&mut agent_ensemble, pars_model);
        output_ensemble.push(output);
        proof {
            assert(run_output_ok(output, start_pop, n, *pars_model));
            assert forall|i: int| 0 <= i < sim + 1 implies exists|start: Seq<Agent>|
                freshly_seeded(start, adjacency_list@, pars_model.fraction_cooperators as int,
                    pars_model.fraction_defectors as int)
                && run_output_ok(#[trigger] output_ensemble@[i], start, n, *pars_model) by {
                if i < sim as int {
                    assert(output_ensemble@[i] == outs_before[i]);
                } else {
                    assert(output_ensemble@[i] == output);
                }
            }
        }
        sim += 1;
    }
    proof {
        let outs = output_ensemble@;
        assert(counts_seq(outs[0], Strategy::Cooperator).len() == t_total) by {
            assert(ts_lens(ts_of(outs[0]), t_total));
        }
        assert(uniform_runs(outs, t_total));
        assert forall|j: int| 0 <= j < t_total implies {
            &&& #[trigger] sum_count_upto(outs, Strategy::Cooperator, j, outs.len() as int)
                <= usize::MAX
            &&& sum_count_upto(outs, Strategy::Defector, j, outs.len() as int) <= usize::MAX
            &&& sum_count_upto(outs, Strategy::Fighter, j, outs.len() as int) <= usize::MAX
        } by {
            lemma_count_sums_bounded(outs, Strategy::Cooperator, j, outs.len() as int, n,
                t_total);
            lemma_count_sums_bounded(outs, Strategy::Defector, j, outs.len() as int, n, t_total);
            lemma_count_sums_bounded(outs, Strategy::Fighter, j, outs.len() as int, n, t_total);
        }
        assert(count_sums_fit(outs, t_total));
    }
    let output_summary = summary_stats_output(&output_ensemble);
    (output_ensemble, output_summary)
}

} // verus!
