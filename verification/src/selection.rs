//! Roulette-wheel selection of parents, weighted by inverse cost.

use vstd::prelude::*;
use crate::random::random_below;

verus! {

/// The weight of a chromosome of cost `cost`: the largest 64-bit number
/// divided by the cost, rounded down.  A cost of 0 weighs like a cost of 1.
pub open spec fn weight_spec(cost: u64) -> nat {
    if cost == 0 {
        u64::MAX as nat
    } else {
        (u64::MAX / cost) as nat
    }
}

/// The summed weights of the first `upto` candidates.
pub open spec fn total_weight(population: Seq<(usize, u64)>, upto: nat) -> nat
    decreases upto,
{
    if upto == 0 {
        0
    } else {
        total_weight(population, (upto - 1) as nat) + weight_spec(population[upto - 1].1)
    }
}

/// The first position at or after `from` up to which the summed weights
/// meet or exceed `ticket`; the length of the population if there is none.
pub open spec fn first_reaching(population: Seq<(usize, u64)>, ticket: nat, from: nat) -> nat
    decreases population.len() - from,
{
    if from >= population.len() {
        population.len()
    } else if total_weight(population, from + 1) >= ticket {
        from
    } else {
        first_reaching(population, ticket, from + 1)
    }
}

/// The candidate that the ticket `ticket` falls on: the first whose summed
/// weight, counted from the start of the population, meets or exceeds the
/// ticket.
pub open spec fn pick_spec(population: Seq<(usize, u64)>, ticket: nat) -> nat {
    first_reaching(population, ticket, 0)
}

/// `id` is what some ticket below the total weight picks.
pub open spec fn is_drawn_from(population: Seq<(usize, u64)>, id: usize) -> bool {
    exists|ticket: nat|
        ticket < total_weight(population, population.len()) && pick_spec(population, ticket)
            < population.len() && id == population[#[trigger] pick_spec(population, ticket) as int].0
}

/// Every candidate weighs at least 1 and at most the largest 64-bit number.
pub proof fn lemma_weight_bounds(cost: u64)
    ensures
        1 <= weight_spec(cost) <= u64::MAX,
{
    if cost != 0 {
        vstd::arithmetic::div_mod::lemma_div_is_ordered_by_denominator(
            u64::MAX as int,
            1,
            cost as int,
        );
        vstd::arithmetic::div_mod::lemma_div_is_ordered_by_denominator(
            u64::MAX as int,
            cost as int,
            u64::MAX as int,
        );
    }
}

/// The summed weights grow with the number of candidates counted.
pub proof fn lemma_total_weight_bounds(population: Seq<(usize, u64)>, upto: nat)
    ensures
        upto <= total_weight(population, upto) <= upto * u64::MAX,
    decreases upto,
{
    if upto > 0 {
        lemma_total_weight_bounds(population, (upto - 1) as nat);
        lemma_weight_bounds(population[upto - 1].1);
        assert((upto - 1) * u64::MAX + u64::MAX == upto * u64::MAX) by (nonlinear_arith);
    }
}

/// The weight of a chromosome of cost `cost`.
pub fn weight_of(cost: u64) -> (weight: u64)
    ensures
        weight == weight_spec(cost),
        weight >= 1,
{
    proof {
        lemma_weight_bounds(cost);
    }
    if cost == 0 {
        u64::MAX
    } else {
        u64::MAX / cost
    }
}

/// The summed weights of all candidates.
pub fn total_weight_of(population: &Vec<(usize, u64)>) -> (total: u128)
    ensures
        total == total_weight(population@, population@.len()),
        total >= population@.len(),
{
    let mut total: u128 = 0;
    let mut i: usize = 0;
    while i < population.len()
        invariant
            i <= population@.len(),
            total == total_weight(population@, i as nat),
            i <= total <= i * u64::MAX,
        decreases population@.len() - i,
    {
        let weight = weight_of(population[i].1);
        assert(i * u64::MAX + u64::MAX <= usize::MAX * u64::MAX + u64::MAX) by (nonlinear_arith)
            requires
                i <= usize::MAX,
        ;
        assert((i + 1) * u64::MAX == i * u64::MAX + u64::MAX) by (nonlinear_arith);
        total = total + weight as u128;
        i += 1;
    }
    total
}

/// The id of the candidate that `ticket` falls on.
///
/// The weights are summed from the start of the population; the ticket
/// picks the first candidate at which the sum meets or exceeds it.
pub fn pick_by_ticket(population: &Vec<(usize, u64)>, ticket: u128) -> (id: usize)
    requires
        ticket < total_weight(population@, population@.len()),
    ensures
        pick_spec(population@, ticket as nat) < population@.len(),
        id == population@[pick_spec(population@, ticket as nat) as int].0,
        is_drawn_from(population@, id),
{
    let n = population.len();
    let mut cumulative: u128 = 0;
    let mut i: usize = 0;
    loop
        invariant
            n == population@.len(),
            i < n,
            ticket < total_weight(population@, population@.len()),
            cumulative == total_weight(population@, i as nat),
            cumulative <= ticket,
            pick_spec(population@, ticket as nat) == first_reaching(
                population@,
                ticket as nat,
                i as nat,
            ),
        decreases population@.len() - i,
    {
        let weight = weight_of(population[i].1);
        proof {
            lemma_total_weight_bounds(population@, (i + 1) as nat);
            assert((i + 1) * u64::MAX <= usize::MAX * u64::MAX + u64::MAX) by (nonlinear_arith)
                requires
                    i <= usize::MAX,
            ;
        }
        cumulative = cumulative + weight as u128;
        if cumulative >= ticket {
            return population[i].0;
        }
        assert(i + 1 < n) by {
            if i + 1 == n {
                assert(total_weight(population@, (i + 1) as nat) == total_weight(
                    population@,
                    population@.len(),
                ));
            }
        }
        i += 1;
    }
}

/// Draws a ticket below the total weight and returns the candidate that
/// it picks.  Returns `None` exactly when there is no candidate.
fn choose_one(population: &Vec<(usize, u64)>) -> (chosen: Option<usize>)
    ensures
        chosen is None <==> population@.len() == 0,
        chosen matches Some(id) ==> is_drawn_from(population@, id),
{
    let total_inverted_fitness = total_weight_of(population);
    if total_inverted_fitness == 0 {
        return None;
    }
    let random_number = random_below(total_inverted_fitness);
    Some(pick_by_ticket(population, random_number))
}

/// Draws two parents, each by a ticket of its own below the total weight.
/// Both may be the same candidate.
pub fn select_parents(population: &Vec<(usize, u64)>) -> (parents: (usize, usize))
    requires
        population@.len() > 0,
    ensures
        is_drawn_from(population@, parents.0),
        is_drawn_from(population@, parents.1),
{
    let parent1 = choose_one(population).unwrap();
    let parent2 = choose_one(population).unwrap();
    (parent1, parent2)
}

} // verus!
