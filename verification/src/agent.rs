//! The population: agents on a fixed, undirected network.

use vstd::prelude::*;
use crate::fixed::FP_ONE;
use crate::rng::sample_weighted3;

verus! {

/// How initial wealth is distributed over the population.  Only the
/// uniform endowment is implemented.
#[derive(Clone, Copy, PartialEq, Eq, Structural, Debug)]
pub enum ResourceDistributionModel {
    Uniform,
}

/// An agent's behavioural type.
#[derive(Clone, Copy, PartialEq, Eq, Structural, Debug)]
pub enum Strategy {
    Cooperator,
    Defector,
    Fighter,
}

/// Raised when a simulation is configured with strategy fractions that
/// are negative or sum to more than one.
#[derive(Clone, Copy, PartialEq, Eq, Structural, Debug)]
pub enum ConfigurationError {
    InvalidStrategyFractions,
}

/// One agent: its place in the network, its wealth and its strategy.
/// `strategy_temp` stages the next strategy during the synchronous
/// update; `resources_instant` collects one timestep's gains and losses
/// before they are settled into `resources_cumulative`.
pub struct Agent {
    pub id: usize,
    pub neighbors: Vec<usize>,
    pub resources_cumulative: i64,
    pub resources_initial: i64,
    pub resources_instant: i64,
    pub strategy: Strategy,
    pub strategy_temp: Strategy,
}

impl Agent {
    pub fn new(id: usize, neighbors: Vec<usize>, resources_initial: i64, strategy: Strategy) -> (a: Agent)
        ensures
            a.id == id,
            a.neighbors == neighbors,
            a.resources_cumulative == resources_initial,
            a.resources_initial == resources_initial,
            a.resources_instant == 0,
            a.strategy == strategy,
            a.strategy_temp == strategy,
    {
        Agent {
            id,
            neighbors,
            resources_cumulative: resources_initial,
            resources_initial,
            resources_instant: 0,
            strategy,
            strategy_temp: strategy,
        }
    }
}

/// Seed fractions are valid when both are nonnegative and they leave a
/// nonnegative share for the fighters.
pub open spec fn valid_fractions(fc: int, fd: int) -> bool {
    0 <= fc && 0 <= fd && fc + fd <= FP_ONE as int
}

/// Every agent sits at the index its id names.
pub open spec fn ids_dense(agents: Seq<Agent>) -> bool {
    forall|i: int| 0 <= i < agents.len() ==> (#[trigger] agents[i]).id == i
}

/// Every neighbour id names an agent.
pub open spec fn neighbors_in_range(agents: Seq<Agent>) -> bool {
    forall|i: int, k: int|
        0 <= i < agents.len() && 0 <= k < agents[i].neighbors@.len()
            ==> (#[trigger] agents[i].neighbors@[k]) < agents.len()
}

/// The network is undirected: a neighbour of mine has me among its
/// neighbours.
pub open spec fn symmetric(agents: Seq<Agent>) -> bool {
    forall|i: int, k: int|
        0 <= i < agents.len() && 0 <= k < agents[i].neighbors@.len()
            ==> agents[(#[trigger] agents[i].neighbors@[k]) as int].neighbors@.contains(i as usize)
}

/// No agent is its own neighbour.
pub open spec fn no_self_loops(agents: Seq<Agent>) -> bool {
    forall|i: int, k: int|
        0 <= i < agents.len() && 0 <= k < agents[i].neighbors@.len()
            ==> (#[trigger] agents[i].neighbors@[k]) != i
}

/// Every agent has someone to interact with.
pub open spec fn min_degree_one(agents: Seq<Agent>) -> bool {
    forall|i: int| 0 <= i < agents.len() ==> (#[trigger] agents[i]).neighbors@.len() >= 1
}

/// The shape the engine relies on: dense ids over an undirected network
/// of minimum degree one, without self-loops.
pub open spec fn valid_network(agents: Seq<Agent>) -> bool {
    &&& ids_dense(agents)
    &&& neighbors_in_range(agents)
    &&& symmetric(agents)
    &&& no_self_loops(agents)
    &&& min_degree_one(agents)
}

/// A population as `AgentEnsemble::new` seeds it over an adjacency
/// list: dense ids, the given neighbours, a unit endowment, no transient
/// gains, staging equal to the live strategy, and no strategy of zero
/// weight assigned.
pub open spec fn freshly_seeded(agents: Seq<Agent>, adjacency: Seq<Vec<usize>>,
    fraction_cooperators: int, fraction_defectors: int) -> bool {
    &&& agents.len() == adjacency.len()
    &&& forall|i: int| 0 <= i < agents.len() ==> {
        &&& (#[trigger] agents[i]).id == i
        &&& agents[i].neighbors@ == adjacency[i]@
        &&& agents[i].resources_cumulative == FP_ONE
        &&& agents[i].resources_initial == FP_ONE
        &&& agents[i].resources_instant == 0
        &&& agents[i].strategy_temp == agents[i].strategy
        &&& (fraction_cooperators == 0 ==> agents[i].strategy != Strategy::Cooperator)
        &&& (fraction_defectors == 0 ==> agents[i].strategy != Strategy::Defector)
        &&& (fraction_cooperators + fraction_defectors == FP_ONE
            ==> agents[i].strategy != Strategy::Fighter)
    }
}

/// The population of one run, indexed by agent id.
pub struct AgentEnsemble {
    inner: Vec<Agent>,
}

impl View for AgentEnsemble {
    type V = Seq<Agent>;

    closed spec fn view(&self) -> Seq<Agent> {
        self.inner@
    }
}

impl AgentEnsemble {
    /// Builds one agent per adjacency row, every agent endowed with one
    /// unit of wealth, strategies drawn by a weighted categorical sample
    /// over (cooperate, defect, fight); the fight weight is the remainder
    /// to one.  Rejects fractions that are negative or sum to more than
    /// one.
    pub fn new(
        adjacency_list: &Vec<Vec<usize>>,
        fraction_cooperators: i64,
        fraction_defectors: i64,
        _model_distribution_resources: ResourceDistributionModel,
    ) -> (r: Result<AgentEnsemble, ConfigurationError>)
        ensures
            r is Ok <==> valid_fractions(fraction_cooperators as int, fraction_defectors as int),
            r is Err ==> r == Result::<AgentEnsemble, ConfigurationError>::Err(
                ConfigurationError::InvalidStrategyFractions),
            r matches Ok(ens) ==> freshly_seeded(ens@, adjacency_list@,
                fraction_cooperators as int, fraction_defectors as int),
    {
        if fraction_cooperators < 0 || fraction_defectors < 0
            || fraction_cooperators > FP_ONE || fraction_defectors > FP_ONE
            || fraction_cooperators + fraction_defectors > FP_ONE {
            return Err(ConfigurationError::InvalidStrategyFractions);
        }
        let w0: u32 = fraction_cooperators as u32;
        let w1: u32 = fraction_defectors as u32;
        let w2: u32 = (FP_ONE - fraction_cooperators - fraction_defectors) as u32;
        let nagents = adjacency_list.len();
        let mut list_agents: Vec<Agent> = Vec::new();
        for id in 0..nagents
            invariant
                list_agents@.len() == id,
                w0 == fraction_cooperators,
                w1 == fraction_defectors,
                w2 == FP_ONE - fraction_cooperators - fraction_defectors,
                nagents == adjacency_list@.len(),
                forall|i: int| 0 <= i < id ==> {
                    &&& (#[trigger] list_agents@[i]).id == i
                    &&& list_agents@[i].neighbors@ == adjacency_list@[i]@
                    &&& list_agents@[i].resources_cumulative == FP_ONE
                    &&& list_agents@[i].resources_initial == FP_ONE
                    &&& list_agents@[i].resources_instant == 0
                    &&& list_agents@[i].strategy_temp == list_agents@[i].strategy
                    &&& (fraction_cooperators == 0 ==> list_agents@[i].strategy != Strategy::Cooperator)
                    &&& (fraction_defectors == 0 ==> list_agents@[i].strategy != Strategy::Defector)
                    &&& (fraction_cooperators + fraction_defectors == FP_ONE
                        ==> list_agents@[i].strategy != Strategy::Fighter)
                },
        {
            let neighbors = adjacency_list[id].clone();
            let strategy = match sample_weighted3(w0, w1, w2) {
                0 => Strategy::Cooperator,
                1 => Strategy::Defector,
                _ => Strategy::Fighter,
            };
            let agent = Agent::new(id, neighbors, FP_ONE, strategy);
            list_agents.push(agent);
        }
        Ok(AgentEnsemble { inner: list_agents })
    }

    pub fn inner(&self) -> (v: &Vec<Agent>)
        ensures
            v@ == self@,
    {
        &self.inner
    }

    pub fn inner_mut(&mut self) -> (v: &mut Vec<Agent>)
        ensures
            v@ == old(self)@,
            final(self)@ == final(v)@,
    {
        &mut self.inner
    }

    pub fn number_of_agents(&self) -> (n: usize)
        ensures
            n == self@.len(),
    {
        self.inner.len()
    }

    /// Stages a next strategy without touching anything else.
    pub fn set_strategy_temp(&mut self, i: usize, s: Strategy)
        requires
            i < old(self)@.len(),
        ensures
            final(self)@ == old(self)@.update(i as int, Agent { strategy_temp: s, ..old(self)@[i as int] }),
    {
        self.inner[i].strategy_temp = s;
    }

    pub fn set_strategy(&mut self, i: usize, s: Strategy)
        requires
            i < old(self)@.len(),
        ensures
            final(self)@ == old(self)@.update(i as int, Agent { strategy: s, ..old(self)@[i as int] }),
    {
        self.inner[i].strategy = s;
    }

    pub fn set_instant(&mut self, i: usize, v: i64)
        requires
            i < old(self)@.len(),
        ensures
            final(self)@ == old(self)@.update(i as int, Agent { resources_instant: v, ..old(self)@[i as int] }),
    {
        self.inner[i].resources_instant = v;
    }

    pub fn set_cumulative(&mut self, i: usize, v: i64)
        requires
            i < old(self)@.len(),
        ensures
            final(self)@ == old(self)@.update(i as int, Agent { resources_cumulative: v, ..old(self)@[i as int] }),
    {
        self.inner[i].resources_cumulative = v;
    }
}

fn contains_usize(v: &Vec<usize>, x: usize) -> (b: bool)
    ensures
        b == v@.contains(x),
{
    let mut k: usize = 0;
    while k < v.len()
        invariant
            k <= v@.len(),
            forall|j: int| 0 <= j < k ==> v@[j] != x,
        decreases v@.len() - k,
    {
        if v[k] == x {
            return true;
        }
        k += 1;
    }
    false
}

/// The validity of an adjacency list, stated over the rows themselves:
/// what `AgentEnsemble::new` turns into a `valid_network` population.
pub open spec fn adjacency_valid(adj: Seq<Vec<usize>>) -> bool {
    forall|i: int| 0 <= i < adj.len() ==> {
        &&& (#[trigger] adj[i])@.len() >= 1
        &&& forall|k: int| 0 <= k < adj[i]@.len() ==> {
            &&& (#[trigger] adj[i]@[k]) < adj.len()
            &&& adj[i]@[k] != i
            &&& adj[adj[i]@[k] as int]@.contains(i as usize)
        }
    }
}

/// Checks that an adjacency list describes an undirected network of
/// minimum degree one without self-loops, exactly when `adjacency_valid`
/// holds of it.
pub fn network_is_valid(adjacency_list: &Vec<Vec<usize>>) -> (b: bool)
    ensures
        b == adjacency_valid(adjacency_list@),
{
    let n = adjacency_list.len();
    let mut i: usize = 0;
    while i < n
        invariant
            i <= n,
            n == adjacency_list@.len(),
            forall|i2: int| 0 <= i2 < i ==> {
                &&& (#[trigger] adjacency_list@[i2])@.len() >= 1
                &&& forall|k: int| 0 <= k < adjacency_list@[i2]@.len() ==> {
                    &&& (#[trigger] adjacency_list@[i2]@[k]) < adjacency_list@.len()
                    &&& adjacency_list@[i2]@[k] != i2
                    &&& adjacency_list@[adjacency_list@[i2]@[k] as int]@.contains(i2 as usize)
                }
            },
        decreases n - i,
    {
        let row = &adjacency_list[i];
        if row.len() == 0 {
            return false;
        }
        let mut k: usize = 0;
        while k < row.len()
            invariant
                k <= row@.len(),
                i < n,
                n == adjacency_list@.len(),
                row@ == adjacency_list@[i as int]@,
                forall|k2: int| 0 <= k2 < k ==> {
                    &&& (#[trigger] adjacency_list@[i as int]@[k2]) < adjacency_list@.len()
                    &&& adjacency_list@[i as int]@[k2] != i as int
                    &&& adjacency_list@[adjacency_list@[i as int]@[k2] as int]@.contains(i)
                },
            decreases row@.len() - k,
        {
            let nb = row[k];
            if nb >= n || nb == i {
                return false;
            }
            if !contains_usize(&adjacency_list[nb], i) {
                return false;
            }
            k += 1;
        }
        i += 1;
    }
    true
}

/// A population built over a valid adjacency list is a valid network.
pub proof fn lemma_new_network_valid(agents: Seq<Agent>, adj: Seq<Vec<usize>>)
    requires
        adjacency_valid(adj),
        agents.len() == adj.len(),
        forall|i: int| 0 <= i < agents.len() ==> (#[trigger] agents[i]).id == i,
        forall|i: int| 0 <= i < agents.len() ==> (#[trigger] agents[i]).neighbors@ == adj[i]@,
    ensures
        valid_network(agents),
{
    assert forall|i: int, k: int|
        0 <= i < agents.len() && 0 <= k < agents[i].neighbors@.len()
        implies (#[trigger] agents[i].neighbors@[k]) < agents.len()
            && agents[i].neighbors@[k] != i
            && agents[(agents[i].neighbors@[k]) as int].neighbors@.contains(i as usize)
    by {
        assert(agents[i].neighbors@ == adj[i]@);
        assert(adj[i]@[k] < adj.len() && adj[i]@[k] != i && adj[adj[i]@[k] as int]@.contains(i as usize));
        assert(agents[(agents[i].neighbors@[k]) as int].neighbors@ == adj[adj[i]@[k] as int]@);
    }
}

} // verus!
