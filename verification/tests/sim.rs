use coopfight::agent::{AgentEnsemble, ConfigurationError, ResourceDistributionModel, Strategy, network_is_valid};
use coopfight::engine::{dynamical_loop, interaction_phase, settle_resources, strategy_update_phase, commit_phase, update_rule_best, model_cooperation_and_fight};
use coopfight::fixed::{tullock_csf, fermi_probability, decay, sat_add64, FP_ONE, FP_HALF};
use coopfight::utils::{Input, Output, OutputGlobal, TimeSeries, FightingEvent, assemble_events, assemble_global, summary_stats_output, construct_string_game, convert_enum_location_resource_distribution_to_string, convert_string_to_location_seed_enum, get_string_network};

fn pars(
    fraction_cooperators: i64,
    fraction_defectors: i64,
    fraction_investment: i64,
    cutoff_resources: i64,
    parameter_technology: i64,
    parameter_noise: i64,
    payoff_cooperation: i64,
    payoff_defection: i64,
    rate_consumption: i64,
    t_equilibrium: usize,
    t_average: usize,
) -> Input {
    Input {
        cutoff_resources,
        flag_analysis_event: true,
        flag_analysis_global: true,
        flag_analysis_time: true,
        fraction_cooperators,
        fraction_defectors,
        fraction_investment,
        model_distribution_resources: ResourceDistributionModel::Uniform,
        nsims: 1,
        parameter_noise,
        parameter_technology,
        payoff_cooperation,
        payoff_defection,
        rate_consumption,
        t_average,
        t_equilibrium,
    }
}

fn cycle4() -> Vec<Vec<usize>> {
    vec![vec![1, 3], vec![0, 2], vec![1, 3], vec![0, 2]]
}

fn pair2() -> Vec<Vec<usize>> {
    vec![vec![1], vec![0]]
}

#[test]
fn tullock_equal_investments_are_a_coin_flip() {
    assert_eq!(tullock_csf(FP_ONE, FP_ONE, FP_ONE), FP_HALF);
    assert_eq!(tullock_csf(FP_ONE, FP_ONE, 500_000), FP_HALF);
    assert_eq!(tullock_csf(2_500_000, 2_500_000, 0), FP_HALF);
}

#[test]
fn tullock_linear_technology_exact_value() {
    // 4 against 1 at technology one: 4 / (4 + 1)
    assert_eq!(tullock_csf(4_000_000, 1_000_000, FP_ONE), 800_000);
}

#[test]
fn tullock_complement_sums_to_one() {
    let p = tullock_csf(2_500_000, 1_300_000, 700_000);
    let q = tullock_csf(1_300_000, 2_500_000, 700_000);
    assert_eq!(p + q, FP_ONE);
    assert!(p > q);
}

#[test]
fn fermi_zero_disparity_is_half() {
    assert_eq!(fermi_probability(0, 200_000), FP_HALF);
}

#[test]
fn fermi_zero_noise_is_best_response() {
    assert_eq!(fermi_probability(-5, 0), FP_ONE);
    assert_eq!(fermi_probability(5, 0), 0);
    assert_eq!(fermi_probability(0, 0), 0);
}

#[test]
fn fermi_is_a_probability() {
    for d in [-3_000_000i64, -1, 0, 1, 7_000_000] {
        let p = fermi_probability(d, 200_000);
        assert!(0 <= p && p <= FP_ONE);
    }
}

#[test]
fn decay_takes_the_consumption_share() {
    assert_eq!(decay(1_000_000, 100_000), 900_000);
    assert_eq!(decay(2_000_000, 0), 2_000_000);
    assert_eq!(decay(1_000_000, 1_000_000), 0);
}

#[test]
fn saturating_addition_clamps() {
    assert_eq!(sat_add64(i64::MAX, 1), i64::MAX);
    assert_eq!(sat_add64(3, 4), 7);
}

#[test]
fn ensemble_all_cooperators_when_weight_is_whole() {
    let adj = pair2();
    let ens = AgentEnsemble::new(&adj, FP_ONE, 0, ResourceDistributionModel::Uniform).unwrap();
    assert_eq!(ens.number_of_agents(), 2);
    for a in ens.inner() {
        assert_eq!(a.strategy, Strategy::Cooperator);
        assert_eq!(a.strategy_temp, Strategy::Cooperator);
        assert_eq!(a.resources_cumulative, FP_ONE);
        assert_eq!(a.resources_initial, FP_ONE);
        assert_eq!(a.resources_instant, 0);
    }
    assert_eq!(ens.inner()[0].neighbors, vec![1]);
    assert_eq!(ens.inner()[1].neighbors, vec![0]);
}

#[test]
fn ensemble_all_defectors_when_weight_is_whole() {
    let adj = cycle4();
    let ens = AgentEnsemble::new(&adj, 0, FP_ONE, ResourceDistributionModel::Uniform).unwrap();
    for a in ens.inner() {
        assert_eq!(a.strategy, Strategy::Defector);
    }
}

#[test]
fn ensemble_rejects_overweight_fractions() {
    let adj = pair2();
    let r = AgentEnsemble::new(&adj, 600_000, 500_000, ResourceDistributionModel::Uniform);
    assert!(matches!(r, Err(ConfigurationError::InvalidStrategyFractions)));
    let r2 = AgentEnsemble::new(&adj, -1, 0, ResourceDistributionModel::Uniform);
    assert!(matches!(r2, Err(ConfigurationError::InvalidStrategyFractions)));
}

#[test]
fn network_validation() {
    assert!(network_is_valid(&cycle4()));
    assert!(network_is_valid(&pair2()));
    // asymmetric
    assert!(!network_is_valid(&vec![vec![1], vec![]]));
    // self-loop
    assert!(!network_is_valid(&vec![vec![0, 1], vec![0]]));
    // zero degree
    assert!(!network_is_valid(&vec![vec![1], vec![0], vec![]]));
    // out of range
    assert!(!network_is_valid(&vec![vec![2], vec![0]]));
}

#[test]
fn cooperation_edge_pays_each_side_once() {
    let adj = pair2();
    let mut ens = AgentEnsemble::new(&adj, FP_ONE, 0, ResourceDistributionModel::Uniform).unwrap();
    let p = pars(FP_ONE, 0, 100_000, 0, FP_ONE, 0, 1_000_000, 1_200_000, 0, 1, 1);
    let mut events: Vec<FightingEvent> = Vec::new();
    interaction_phase(&mut ens, &p, 0, &mut events);
    // one undirected edge: each side gains the cooperation payoff exactly once
    assert_eq!(ens.inner()[0].resources_instant, 1_000_000);
    assert_eq!(ens.inner()[1].resources_instant, 1_000_000);
    assert!(events.is_empty());
}

#[test]
fn defection_edge_pays_only_the_defector() {
    let adj = pair2();
    let mut ens = AgentEnsemble::new(&adj, FP_ONE, 0, ResourceDistributionModel::Uniform).unwrap();
    ens.inner_mut()[1].strategy = Strategy::Defector;
    ens.inner_mut()[1].strategy_temp = Strategy::Defector;
    let p = pars(FP_ONE, 0, 100_000, 0, FP_ONE, 0, 1_000_000, 1_200_000, 0, 1, 1);
    let mut events: Vec<FightingEvent> = Vec::new();
    interaction_phase(&mut ens, &p, 0, &mut events);
    assert_eq!(ens.inner()[0].resources_instant, 0);
    assert_eq!(ens.inner()[1].resources_instant, 1_200_000);
    assert!(events.is_empty());
}

#[test]
fn mutual_defection_pays_nobody() {
    let adj = pair2();
    let mut ens = AgentEnsemble::new(&adj, 0, FP_ONE, ResourceDistributionModel::Uniform).unwrap();
    let p = pars(0, FP_ONE, 100_000, 0, FP_ONE, 0, 1_000_000, 1_200_000, 0, 1, 1);
    let mut events: Vec<FightingEvent> = Vec::new();
    interaction_phase(&mut ens, &p, 0, &mut events);
    assert_eq!(ens.inner()[0].resources_instant, 0);
    assert_eq!(ens.inner()[1].resources_instant, 0);
    assert!(events.is_empty());
}

#[test]
fn cooperative_cycle_gains_twice_the_payoff_each_step() {
    let adj = cycle4();
    let mut ens = AgentEnsemble::new(&adj, FP_ONE, 0, ResourceDistributionModel::Uniform).unwrap();
    let p = pars(FP_ONE, 0, 100_000, 0, FP_ONE, 0, 1_000_000, 1_200_000, 0, 2, 3);
    let mut events: Vec<FightingEvent> = Vec::new();
    interaction_phase(&mut ens, &p, 0, &mut events);
    for a in ens.inner() {
        // two incident edges, one cooperation payoff from each
        assert_eq!(a.resources_instant, 2_000_000);
    }
    settle_resources(&mut ens);
    for a in ens.inner() {
        assert_eq!(a.resources_cumulative, 3_000_000);
        assert_eq!(a.resources_instant, 2_000_000);
    }
    // zero noise and equal wealth: everyone stages its own strategy
    strategy_update_phase(&mut ens, 0);
    for a in ens.inner() {
        assert_eq!(a.strategy_temp, Strategy::Cooperator);
    }
    commit_phase(&mut ens, 0);
    for a in ens.inner() {
        assert_eq!(a.strategy, Strategy::Cooperator);
        assert_eq!(a.resources_cumulative, 3_000_000);
        assert_eq!(a.resources_instant, 0);
    }
}

#[test]
fn cooperative_consensus_absorbs_at_once() {
    let adj = cycle4();
    let mut ens = AgentEnsemble::new(&adj, FP_ONE, 0, ResourceDistributionModel::Uniform).unwrap();
    let p = pars(FP_ONE, 0, 100_000, 0, FP_ONE, 0, 1_000_000, 1_200_000, 0, 2, 3);
    let out = dynamical_loop(&mut ens, &p);
    let ts = out.time.unwrap();
    assert_eq!(ts.number_cooperators, vec![4, 4, 4, 4, 4]);
    assert_eq!(ts.number_defectors, vec![0, 0, 0, 0, 0]);
    assert_eq!(ts.number_fighters, vec![0, 0, 0, 0, 0]);
    // every slot repeats the consensus slot
    assert_eq!(ts.payoff_cooperators, vec![1_000_000; 5]);
    assert_eq!(ts.payoff_defectors, vec![0; 5]);
    assert_eq!(out.global.fraction_cooperators, 1_000_000);
    assert_eq!(out.global.fraction_defectors, 0);
    assert_eq!(out.global.fraction_fighters, 0);
    // the snapshot payoff is the slot's mean wealth itself
    assert_eq!(out.global.payoff_cooperators, 1_000_000);
    assert!(out.events.unwrap().is_empty());
    // the loop stopped before any settlement
    for a in ens.inner() {
        assert_eq!(a.resources_cumulative, 1_000_000);
    }
}

#[test]
fn fighter_population_runs_the_full_schedule() {
    let adj = cycle4();
    let mut ens = AgentEnsemble::new(&adj, FP_ONE, 0, ResourceDistributionModel::Uniform).unwrap();
    for a in ens.inner_mut() {
        a.strategy = Strategy::Fighter;
        a.strategy_temp = Strategy::Fighter;
    }
    // zero investment: no contest ever clears the cutoff
    let p = pars(FP_ONE, 0, 0, 0, FP_ONE, 0, 1_000_000, 1_200_000, 0, 2, 3);
    let out = dynamical_loop(&mut ens, &p);
    let ts = out.time.unwrap();
    assert_eq!(ts.number_fighters, vec![4, 4, 4, 4, 4]);
    assert_eq!(ts.number_cooperators, vec![0, 0, 0, 0, 0]);
    assert_eq!(ts.payoff_fighters, vec![1_000_000; 5]);
    assert!(out.events.unwrap().is_empty());
    // full-run averages: quantum 10^12 / 12, twelve agent-steps in the window
    assert_eq!(out.global.fraction_fighters, 999_999);
    assert_eq!(out.global.fraction_cooperators, 0);
    assert_eq!(out.global.fraction_defectors, 0);
    assert_eq!(out.global.payoff_fighters, 3_999_999);
}

#[test]
fn fighter_against_cooperator_always_records_a_fair_contest() {
    let adj = pair2();
    let mut ens = AgentEnsemble::new(&adj, FP_ONE, 0, ResourceDistributionModel::Uniform).unwrap();
    ens.inner_mut()[0].strategy = Strategy::Fighter;
    ens.inner_mut()[0].strategy_temp = Strategy::Fighter;
    let p = pars(FP_ONE, 0, 1_000_000, 0, 1_000_000, 0, 1_000_000, 1_200_000, 0, 0, 1);
    let out = dynamical_loop(&mut ens, &p);
    let events = out.events.unwrap();
    assert_eq!(events.len(), 1);
    let e = &events[0];
    assert_eq!(e.id_event, 1);
    assert_eq!(e.id_focal, 0);
    assert_eq!(e.id_enemy, 1);
    assert_eq!(e.investment_focal, 1_000_000);
    assert_eq!(e.investment_enemy, 1_000_000);
    assert_eq!(e.resources_focal, 1_000_000);
    assert_eq!(e.resources_enemy, 1_000_000);
    assert_eq!(e.strategy_focal, Strategy::Fighter);
    assert_eq!(e.strategy_enemy, Strategy::Cooperator);
    assert_eq!(e.time, 0);
    assert!(e.winner == 0 || e.winner == 1);
    // the transfer conserves wealth: one side holds everything
    let r0 = ens.inner()[0].resources_cumulative;
    let r1 = ens.inner()[1].resources_cumulative;
    assert_eq!(r0 + r1, 2_000_000);
    if e.winner == 0 {
        assert_eq!(r0, 2_000_000);
    } else {
        assert_eq!(r1, 2_000_000);
    }
}

#[test]
fn best_rule_copies_the_wealthiest_neighbour() {
    let adj = vec![vec![1], vec![0, 2], vec![1]];
    let mut ens = AgentEnsemble::new(&adj, FP_ONE, 0, ResourceDistributionModel::Uniform).unwrap();
    ens.inner_mut()[0].resources_cumulative = 1_000_000;
    ens.inner_mut()[1].resources_cumulative = 2_000_000;
    ens.inner_mut()[2].resources_cumulative = 3_000_000;
    ens.inner_mut()[2].strategy = Strategy::Fighter;
    update_rule_best(&mut ens, 1);
    assert_eq!(ens.inner()[1].strategy_temp, Strategy::Fighter);
    // nobody beats the richest agent itself
    update_rule_best(&mut ens, 2);
    assert_eq!(ens.inner()[2].strategy_temp, Strategy::Fighter);
}

#[test]
fn model_runs_and_summarises() {
    let adj = cycle4();
    let mut p = pars(FP_ONE, 0, 100_000, 0, FP_ONE, 0, 1_000_000, 1_200_000, 0, 2, 3);
    p.nsims = 3;
    let (outputs, summary) = model_cooperation_and_fight(&p, &adj);
    assert_eq!(outputs.len(), 3);
    for o in &outputs {
        assert_eq!(o.global.fraction_cooperators, 1_000_000);
    }
    assert_eq!(summary.global.fraction_cooperators, 1_000_000);
    assert_eq!(summary.global.payoff_cooperators, 1_000_000);
    assert!(summary.events.is_none());
    let ts = summary.time.unwrap();
    assert_eq!(ts.number_cooperators, vec![4, 4, 4, 4, 4]);
    assert_eq!(ts.payoff_cooperators, vec![1_000_000; 5]);
}

fn sample_output(frac: i64, pay: i64, counts: Vec<usize>, pays: Vec<i64>, with_events: bool) -> Output {
    Output {
        global: OutputGlobal {
            fraction_cooperators: frac,
            fraction_defectors: frac / 2,
            fraction_fighters: frac / 4,
            payoff_cooperators: pay,
            payoff_defectors: pay / 2,
            payoff_fighters: pay / 4,
        },
        events: if with_events { Some(Vec::new()) } else { None },
        time: Some(TimeSeries {
            number_cooperators: counts.clone(),
            number_defectors: counts.clone(),
            number_fighters: counts,
            payoff_cooperators: pays.clone(),
            payoff_defectors: pays.clone(),
            payoff_fighters: pays,
        }),
    }
}

#[test]
fn summary_averages_globals_and_series() {
    let a = sample_output(400_000, 10, vec![1, 2], vec![10, 20], true);
    let b = sample_output(600_000, 30, vec![3, 4], vec![30, 40], false);
    let outs = vec![a, b];
    let s = summary_stats_output(&outs);
    assert_eq!(s.global.fraction_cooperators, 500_000);
    assert_eq!(s.global.payoff_cooperators, 20);
    assert!(s.events.is_none());
    let ts = s.time.unwrap();
    assert_eq!(ts.number_cooperators, vec![2, 3]);
    assert_eq!(ts.payoff_cooperators, vec![20, 30]);
}

#[test]
fn assembling_stacks_runs() {
    let a = sample_output(400_000, 10, vec![1], vec![10], true);
    let b = sample_output(600_000, 30, vec![3], vec![30], false);
    let outs = vec![a, b];
    let g = assemble_global(&outs);
    assert_eq!(g.fraction_cooperators, vec![400_000, 600_000]);
    assert_eq!(g.payoff_cooperators, vec![10, 30]);
    let evs = assemble_events(&outs);
    assert_eq!(evs.len(), 1);
    assert!(evs[0].is_empty());
}

#[test]
fn enum_conversions() {
    assert_eq!(
        convert_enum_location_resource_distribution_to_string(
            ResourceDistributionModel::Uniform, true),
        "UNI");
    assert_eq!(
        convert_enum_location_resource_distribution_to_string(
            ResourceDistributionModel::Uniform, false),
        "Uniform");
    assert_eq!(convert_string_to_location_seed_enum("uniform"),
        ResourceDistributionModel::Uniform);
    assert_eq!(convert_string_to_location_seed_enum("anything"),
        ResourceDistributionModel::Uniform);
}

#[test]
fn network_name_strips_the_suffix() {
    assert_eq!(get_string_network("nets/foo.json"), Some("foo".to_string()));
    assert_eq!(get_string_network("foo.json"), Some("foo".to_string()));
    assert_eq!(get_string_network("a/b/net_x.json"), Some("net_x".to_string()));
    assert_eq!(get_string_network("a/b.txt"), None);
    assert_eq!(get_string_network("x/.json"), Some("".to_string()));
}

#[test]
fn game_string_renders_all_parameters() {
    let mut p = pars(333_000, 333_000, 100_000, 0, 500_000, 200_000, 1_000_000, 1_200_000,
        100_000, 10000, 1000);
    p.nsims = 30;
    assert_eq!(
        construct_string_game(&p),
        "fc0.333_fd0.333_fi0.1_mdrUniform_ns30_noi0.2_tec0.5_pd1.2_rc0.1_ta1000_te10000");
}

#[test]
fn defectors_take_over_a_mixed_cycle() {
    // alternating cooperators and defectors on a cycle, zero noise:
    // defectors profit, everyone imitates a strictly richer neighbour,
    // and the population absorbs into defection one step later
    let adj = cycle4();
    let mut ens = AgentEnsemble::new(&adj, FP_ONE, 0, ResourceDistributionModel::Uniform).unwrap();
    ens.inner_mut()[1].strategy = Strategy::Defector;
    ens.inner_mut()[1].strategy_temp = Strategy::Defector;
    ens.inner_mut()[3].strategy = Strategy::Defector;
    ens.inner_mut()[3].strategy_temp = Strategy::Defector;
    let p = pars(FP_ONE, 0, 100_000, 0, FP_ONE, 0, 1_000_000, 1_200_000, 100_000, 1, 2);
    let out = dynamical_loop(&mut ens, &p);
    let ts = out.time.unwrap();
    assert_eq!(ts.number_cooperators, vec![2, 0, 0]);
    assert_eq!(ts.number_defectors, vec![2, 4, 4]);
    // first step: everyone still owns the endowment; second step: the
    // settled and decayed wealth, averaged over all four defectors
    assert_eq!(ts.payoff_cooperators, vec![1_000_000, 0, 0]);
    assert_eq!(ts.payoff_defectors, vec![1_000_000, 1_980_000, 1_980_000]);
    assert_eq!(out.global.fraction_defectors, 1_000_000);
    assert_eq!(out.global.fraction_cooperators, 0);
    assert_eq!(out.global.payoff_defectors, 1_980_000);
    assert_eq!(out.global.payoff_cooperators, 0);
    assert!(out.events.unwrap().is_empty());
    // the committed wealth behind the absorption: each defector kept its
    // double defection gain, each cooperator only decayed
    let mut cums: Vec<i64> = ens.inner().iter().map(|a| a.resources_cumulative).collect();
    cums.sort();
    assert_eq!(cums, vec![900_000, 900_000, 3_060_000, 3_060_000]);
    for a in ens.inner() {
        assert_eq!(a.strategy, Strategy::Defector);
    }
}

#[test]
fn a_side_without_a_stake_loses_outright() {
    // a destitute fighter forces a contest it cannot stake: the side
    // that can stake wins, and nothing moves but the record
    let adj = pair2();
    let mut ens = AgentEnsemble::new(&adj, FP_ONE, 0, ResourceDistributionModel::Uniform).unwrap();
    ens.inner_mut()[0].strategy = Strategy::Fighter;
    ens.inner_mut()[0].strategy_temp = Strategy::Fighter;
    ens.inner_mut()[0].resources_cumulative = 0;
    let p = pars(FP_ONE, 0, 1_000_000, 0, 1_000_000, 0, 1_000_000, 1_200_000, 0, 0, 1);
    let mut events: Vec<FightingEvent> = Vec::new();
    interaction_phase(&mut ens, &p, 0, &mut events);
    assert_eq!(events.len(), 1);
    assert_eq!(events[0].investment_focal, 0);
    assert_eq!(events[0].investment_enemy, 1_000_000);
    assert_eq!(events[0].winner, 1);
    // the loser's stake was nothing, so nothing was transferred
    assert_eq!(ens.inner()[0].resources_instant, 0);
    assert_eq!(ens.inner()[1].resources_instant, 0);
}

#[test]
fn a_neighbour_listed_twice_pays_once() {
    let adj = vec![vec![1, 1], vec![0, 0]];
    assert!(network_is_valid(&adj));
    let mut ens = AgentEnsemble::new(&adj, FP_ONE, 0, ResourceDistributionModel::Uniform).unwrap();
    let p = pars(FP_ONE, 0, 100_000, 0, FP_ONE, 0, 1_000_000, 1_200_000, 0, 1, 1);
    let mut events: Vec<FightingEvent> = Vec::new();
    interaction_phase(&mut ens, &p, 0, &mut events);
    assert_eq!(ens.inner()[0].resources_instant, 1_000_000);
    assert_eq!(ens.inner()[1].resources_instant, 1_000_000);
}
