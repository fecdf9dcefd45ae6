//! Expands the outcomes of a group of players into a disjunction of
//! conjunctions: one disjunct per way the players' goal tallies can reach
//! a minimum target, with per-player tallies capped.

use vstd::prelude::*;
use crate::dis_cons::{expand_dis_cons, views, DisCons};
use crate::logic::con::Conjunction;
use crate::logic::dis::Disjunction;

verus! {

/// A goal tally: either an exact count or a capped "at least" bucket.
#[derive(Debug, Clone, Copy, PartialEq, Eq)]
pub enum Goals {
    Exactly(usize),
    AtLeast(usize),
}

/// A player, by index.
#[derive(Debug, Clone, Copy, PartialEq, Eq)]
pub struct Player(pub usize);

/// One player's goal tally.
#[derive(Debug, Clone, Copy, PartialEq, Eq)]
pub struct Outcome(pub Player, pub Goals);

/// `a - b`, floored at zero.
pub open spec fn sat_sub(a: usize, b: int) -> usize {
    if a - b <= 0 {
        0usize
    } else {
        (a - b) as usize
    }
}

/// The disjuncts for a single player: one singleton conjunction per tally
/// from `min` up to the cap's "at least" bucket.
pub open spec fn player_outcomes(player: usize, min: usize, cap: usize) -> Seq<Seq<Outcome>> {
    Seq::new((cap - min + 1) as nat, |g: int| if min + g < cap {
        seq![Outcome(Player(player), Goals::Exactly((min + g) as usize))]
    } else {
        seq![Outcome(Player(player), Goals::AtLeast(cap))]
    })
}

/// Every disjunct of `tails`, with `head` conjoined in front.
pub open spec fn prefixed(head: Outcome, tails: Seq<Seq<Outcome>>) -> Seq<Seq<Outcome>> {
    Seq::new(tails.len(), |i: int| seq![head] + tails[i])
}

/// The group-score expansion: the last player takes each tally in turn and
/// the remaining players cover what is left of the target.
pub open spec fn group_outcomes(players: usize, min: usize, cap: usize) -> Seq<Seq<Outcome>>
    decreases players, cap + 1int,
{
    if players <= 1 {
        player_outcomes(0usize, min, cap)
    } else {
        group_outcomes_upto(players, min, cap, cap as int) + seq![
            seq![Outcome(Player((players - 1) as usize), Goals::AtLeast(cap))],
        ]
    }
}

/// The disjuncts contributed by the last player's exact tallies below `g`.
pub open spec fn group_outcomes_upto(players: usize, min: usize, cap: usize, g: int) -> Seq<
    Seq<Outcome>,
>
    decreases players, g,
{
    if g <= 0 || players <= 1 {
        Seq::empty()
    } else {
        group_outcomes_upto(players, min, cap, g - 1) + prefixed(
            Outcome(Player((players - 1) as usize), Goals::Exactly((g - 1) as usize)),
            group_outcomes((players - 1) as usize, sat_sub(min, g - 1), cap),
        )
    }
}

/// The disjuncts for a single player reaching at least `min_target_goals`,
/// with tallies at or above `goal_cap` folded into one bucket.
pub fn for_player(player: &Player, min_target_goals: usize, goal_cap: usize) -> (result: DisCons<
    Outcome,
>)
    requires
        min_target_goals <= goal_cap,
    ensures
        views(result@) == player_outcomes(player.0, min_target_goals, goal_cap),
{
    let mut dis_cons: DisCons<Outcome> = Disjunction::with_capacity(goal_cap - min_target_goals);
    let mut goals: usize = min_target_goals;
    while goals < goal_cap
        invariant
            min_target_goals <= goals <= goal_cap,
            dis_cons@.len() == goals - min_target_goals,
            forall|j: int| 0 <= j < dis_cons@.len() ==> #[trigger] dis_cons@[j]@ == seq![
                Outcome(Player(player.0), Goals::Exactly((min_target_goals + j) as usize)),
            ],
        decreases goal_cap - goals,
    {
        let mut terms: Vec<Outcome> = Vec::with_capacity(1);
        terms.push(Outcome(Player(player.0), Goals::Exactly(goals)));
        proof {
            assert(terms@ =~= seq![Outcome(Player(player.0), Goals::Exactly(goals))]);
        }
        dis_cons.push(Conjunction::new(terms));
        goals = goals + 1;
    }
    let mut terms: Vec<Outcome> = Vec::with_capacity(1);
    terms.push(Outcome(Player(player.0), Goals::AtLeast(goal_cap)));
    proof {
        assert(terms@ =~= seq![Outcome(Player(player.0), Goals::AtLeast(goal_cap))]);
    }
    dis_cons.push(Conjunction::new(terms));
    proof {
        assert(views(dis_cons@) =~= player_outcomes(player.0, min_target_goals, goal_cap));
    }
    dis_cons
}

/// Expands the ways `players` players can score at least
/// `min_target_goals` goals in total, per-player tallies capped at
/// `goal_cap`, into a disjunction of per-player tally conjunctions.
pub fn transform(players: usize, min_target_goals: usize, goal_cap: usize) -> (result: DisCons<
    Outcome,
>)
    requires
        players >= 1,
        min_target_goals <= goal_cap,
    ensures
        views(result@) == group_outcomes(players, min_target_goals, goal_cap),
    decreases players,
{
    if players >= 2 {
        let mut dis_cons: DisCons<Outcome> = Disjunction::with_capacity(0);
        proof {
            assert(views(dis_cons@) =~= group_outcomes_upto(
                players,
                min_target_goals,
                goal_cap,
                0,
            ));
        }
        let mut goals: usize = 0;
        while goals < goal_cap
            invariant
                0 <= goals <= goal_cap,
                2 <= players,
                min_target_goals <= goal_cap,
                views(dis_cons@) == group_outcomes_upto(
                    players,
                    min_target_goals,
                    goal_cap,
                    goals as int,
                ),
            decreases goal_cap - goals,
        {
            let outcome = Outcome(Player(players - 1), Goals::Exactly(goals));
            let residual_goals = if min_target_goals > goals {
                min_target_goals - goals
            } else {
                0
            };
            let child = transform(players - 1, residual_goals, goal_cap);
            let expanded = expand_dis_cons(&outcome, &child);
            let ghost before = dis_cons@;
            let ghost expanded_view = expanded@;
            dis_cons.push_all(expanded.into_inner());
            proof {
                assert(residual_goals == sat_sub(min_target_goals, goals as int));
                assert(views(expanded_view) =~= prefixed(outcome, views(child@)));
                assert(views(dis_cons@) =~= views(before) + views(expanded_view));
                assert(views(dis_cons@) =~= group_outcomes_upto(
                    players,
                    min_target_goals,
                    goal_cap,
                    goals + 1,
                ));
            }
            goals = goals + 1;
        }
        let mut terms: Vec<Outcome> = Vec::with_capacity(1);
        terms.push(Outcome(Player(players - 1), Goals::AtLeast(goal_cap)));
        proof {
            assert(terms@ =~= seq![Outcome(Player((players - 1) as usize), Goals::AtLeast(goal_cap))]);
        }
        dis_cons.push(Conjunction::new(terms));
        proof {
            assert(views(dis_cons@) =~= group_outcomes(players, min_target_goals, goal_cap));
        }
        dis_cons
    } else {
        for_player(&Player(0), min_target_goals, goal_cap)
    }
}

} // verus!
