use podium::dis_cons::group_score::Goals::{AtLeast, Exactly};
use podium::dis_cons::group_score::{for_player, transform, Goals, Outcome, Player};
use podium::dis_cons::DisCons;
use podium::logic::con::Conjunction;
use podium::logic::dis::Disjunction;

fn con(outcomes: Vec<(usize, Goals)>) -> Conjunction<Outcome> {
    let outcomes = outcomes
        .into_iter()
        .map(|(player, goals)| Outcome(Player(player), goals))
        .collect();
    Conjunction::new(outcomes)
}

fn dis(conjunctions: Vec<Conjunction<Outcome>>) -> DisCons<Outcome> {
    Disjunction::new(conjunctions)
}

#[test]
fn transform_3_players_2_3() {
    let dis_cons = transform(3, 2, 3);
    assert_eq!(
        dis(vec![
            con(vec![(2, Exactly(0)), (1, Exactly(0)), (0, Exactly(2))]),
            con(vec![(2, Exactly(0)), (1, Exactly(0)), (0, AtLeast(3))]),
            con(vec![(2, Exactly(0)), (1, Exactly(1)), (0, Exactly(1))]),
            con(vec![(2, Exactly(0)), (1, Exactly(1)), (0, Exactly(2))]),
            con(vec![(2, Exactly(0)), (1, Exactly(1)), (0, AtLeast(3))]),
            con(vec![(2, Exactly(0)), (1, Exactly(2)), (0, Exactly(0))]),
            con(vec![(2, Exactly(0)), (1, Exactly(2)), (0, Exactly(1))]),
            con(vec![(2, Exactly(0)), (1, Exactly(2)), (0, Exactly(2))]),
            con(vec![(2, Exactly(0)), (1, Exactly(2)), (0, AtLeast(3))]),
            con(vec![(2, Exactly(0)), (1, AtLeast(3))]),
            con(vec![(2, Exactly(1)), (1, Exactly(0)), (0, Exactly(1))]),
            con(vec![(2, Exactly(1)), (1, Exactly(0)), (0, Exactly(2))]),
            con(vec![(2, Exactly(1)), (1, Exactly(0)), (0, AtLeast(3))]),
            con(vec![(2, Exactly(1)), (1, Exactly(1)), (0, Exactly(0))]),
            con(vec![(2, Exactly(1)), (1, Exactly(1)), (0, Exactly(1))]),
            con(vec![(2, Exactly(1)), (1, Exactly(1)), (0, Exactly(2))]),
            con(vec![(2, Exactly(1)), (1, Exactly(1)), (0, AtLeast(3))]),
            con(vec![(2, Exactly(1)), (1, Exactly(2)), (0, Exactly(0))]),
            con(vec![(2, Exactly(1)), (1, Exactly(2)), (0, Exactly(1))]),
            con(vec![(2, Exactly(1)), (1, Exactly(2)), (0, Exactly(2))]),
            con(vec![(2, Exactly(1)), (1, Exactly(2)), (0, AtLeast(3))]),
            con(vec![(2, Exactly(1)), (1, AtLeast(3))]),
            con(vec![(2, Exactly(2)), (1, Exactly(0)), (0, Exactly(0))]),
            con(vec![(2, Exactly(2)), (1, Exactly(0)), (0, Exactly(1))]),
            con(vec![(2, Exactly(2)), (1, Exactly(0)), (0, Exactly(2))]),
            con(vec![(2, Exactly(2)), (1, Exactly(0)), (0, AtLeast(3))]),
            con(vec![(2, Exactly(2)), (1, Exactly(1)), (0, Exactly(0))]),
            con(vec![(2, Exactly(2)), (1, Exactly(1)), (0, Exactly(1))]),
            con(vec![(2, Exactly(2)), (1, Exactly(1)), (0, Exactly(2))]),
            con(vec![(2, Exactly(2)), (1, Exactly(1)), (0, AtLeast(3))]),
            con(vec![(2, Exactly(2)), (1, Exactly(2)), (0, Exactly(0))]),
            con(vec![(2, Exactly(2)), (1, Exactly(2)), (0, Exactly(1))]),
            con(vec![(2, Exactly(2)), (1, Exactly(2)), (0, Exactly(2))]),
            con(vec![(2, Exactly(2)), (1, Exactly(2)), (0, AtLeast(3))]),
            con(vec![(2, Exactly(2)), (1, AtLeast(3))]),
            con(vec![(2, AtLeast(3))]),
        ]),
        dis_cons
    );
}

#[test]
fn transform_3_players_3_3() {
    let dis_cons = transform(3, 3, 3);
    assert_eq!(
        dis(vec![
            con(vec![(2, Exactly(0)), (1, Exactly(0)), (0, AtLeast(3))]),
            con(vec![(2, Exactly(0)), (1, Exactly(1)), (0, Exactly(2))]),
            con(vec![(2, Exactly(0)), (1, Exactly(1)), (0, AtLeast(3))]),
            con(vec![(2, Exactly(0)), (1, Exactly(2)), (0, Exactly(1))]),
            con(vec![(2, Exactly(0)), (1, Exactly(2)), (0, Exactly(2))]),
            con(vec![(2, Exactly(0)), (1, Exactly(2)), (0, AtLeast(3))]),
            con(vec![(2, Exactly(0)), (1, AtLeast(3))]),
            con(vec![(2, Exactly(1)), (1, Exactly(0)), (0, Exactly(2))]),
            con(vec![(2, Exactly(1)), (1, Exactly(0)), (0, AtLeast(3))]),
            con(vec![(2, Exactly(1)), (1, Exactly(1)), (0, Exactly(1))]),
            con(vec![(2, Exactly(1)), (1, Exactly(1)), (0, Exactly(2))]),
            con(vec![(2, Exactly(1)), (1, Exactly(1)), (0, AtLeast(3))]),
            con(vec![(2, Exactly(1)), (1, Exactly(2)), (0, Exactly(0))]),
            con(vec![(2, Exactly(1)), (1, Exactly(2)), (0, Exactly(1))]),
            con(vec![(2, Exactly(1)), (1, Exactly(2)), (0, Exactly(2))]),
            con(vec![(2, Exactly(1)), (1, Exactly(2)), (0, AtLeast(3))]),
            con(vec![(2, Exactly(1)), (1, AtLeast(3))]),
            con(vec![(2, Exactly(2)), (1, Exactly(0)), (0, Exactly(1))]),
            con(vec![(2, Exactly(2)), (1, Exactly(0)), (0, Exactly(2))]),
            con(vec![(2, Exactly(2)), (1, Exactly(0)), (0, AtLeast(3))]),
            con(vec![(2, Exactly(2)), (1, Exactly(1)), (0, Exactly(0))]),
            con(vec![(2, Exactly(2)), (1, Exactly(1)), (0, Exactly(1))]),
            con(vec![(2, Exactly(2)), (1, Exactly(1)), (0, Exactly(2))]),
            con(vec![(2, Exactly(2)), (1, Exactly(1)), (0, AtLeast(3))]),
            con(vec![(2, Exactly(2)), (1, Exactly(2)), (0, Exactly(0))]),
            con(vec![(2, Exactly(2)), (1, Exactly(2)), (0, Exactly(1))]),
            con(vec![(2, Exactly(2)), (1, Exactly(2)), (0, Exactly(2))]),
            con(vec![(2, Exactly(2)), (1, Exactly(2)), (0, AtLeast(3))]),
            con(vec![(2, Exactly(2)), (1, AtLeast(3))]),
            con(vec![(2, AtLeast(3))]),
        ]),
        dis_cons
    );
}

#[test]
fn transform_2_players_1_3() {
    let dis_cons = transform(2, 1, 3);
    assert_eq!(
        dis(vec![
            con(vec![(1, Exactly(0)), (0, Exactly(1))]),
            con(vec![(1, Exactly(0)), (0, Exactly(2))]),
            con(vec![(1, Exactly(0)), (0, AtLeast(3))]),
            con(vec![(1, Exactly(1)), (0, Exactly(0))]),
            con(vec![(1, Exactly(1)), (0, Exactly(1))]),
            con(vec![(1, Exactly(1)), (0, Exactly(2))]),
            con(vec![(1, Exactly(1)), (0, AtLeast(3))]),
            con(vec![(1, Exactly(2)), (0, Exactly(0))]),
            con(vec![(1, Exactly(2)), (0, Exactly(1))]),
            con(vec![(1, Exactly(2)), (0, Exactly(2))]),
            con(vec![(1, Exactly(2)), (0, AtLeast(3))]),
            con(vec![(1, AtLeast(3))]),
        ]),
        dis_cons
    );
}

#[test]
fn transform_2_players_3_3() {
    let dis_cons = transform(2, 3, 3);
    assert_eq!(
        dis(vec![
            con(vec![(1, Exactly(0)), (0, AtLeast(3))]),
            con(vec![(1, Exactly(1)), (0, Exactly(2))]),
            con(vec![(1, Exactly(1)), (0, AtLeast(3))]),
            con(vec![(1, Exactly(2)), (0, Exactly(1))]),
            con(vec![(1, Exactly(2)), (0, Exactly(2))]),
            con(vec![(1, Exactly(2)), (0, AtLeast(3))]),
            con(vec![(1, AtLeast(3))]),
        ]),
        dis_cons
    );
}

#[test]
fn transform_2_players_3_4() {
    let dis_cons = transform(2, 3, 4);
    assert_eq!(
        dis(vec![
            con(vec![(1, Exactly(0)), (0, Exactly(3))]),
            con(vec![(1, Exactly(0)), (0, AtLeast(4))]),
            con(vec![(1, Exactly(1)), (0, Exactly(2))]),
            con(vec![(1, Exactly(1)), (0, Exactly(3))]),
            con(vec![(1, Exactly(1)), (0, AtLeast(4))]),
            con(vec![(1, Exactly(2)), (0, Exactly(1))]),
            con(vec![(1, Exactly(2)), (0, Exactly(2))]),
            con(vec![(1, Exactly(2)), (0, Exactly(3))]),
            con(vec![(1, Exactly(2)), (0, AtLeast(4))]),
            con(vec![(1, Exactly(3)), (0, Exactly(0))]),
            con(vec![(1, Exactly(3)), (0, Exactly(1))]),
            con(vec![(1, Exactly(3)), (0, Exactly(2))]),
            con(vec![(1, Exactly(3)), (0, Exactly(3))]),
            con(vec![(1, Exactly(3)), (0, AtLeast(4))]),
            con(vec![(1, AtLeast(4))]),
        ]),
        dis_cons
    );
}

#[test]
fn transform_player_0_2() {
    let dis_cons = for_player(&Player(0), 0, 2);
    assert_eq!(
        dis(vec![
            con(vec![(0, Exactly(0))]),
            con(vec![(0, Exactly(1))]),
            con(vec![(0, AtLeast(2))]),
        ]),
        dis_cons
    );
}

#[test]
fn transform_player_1_2() {
    let dis_cons = for_player(&Player(0), 1, 2);
    assert_eq!(
        dis(vec![con(vec![(0, Exactly(1))]), con(vec![(0, AtLeast(2))])]),
        dis_cons
    );
}

#[test]
fn transform_player_2_2() {
    let dis_cons = for_player(&Player(0), 2, 2);
    assert_eq!(dis(vec![con(vec![(0, AtLeast(2))])]), dis_cons);
}
