use match_three::animate::{
    count_in_motion, on_arrival, Animate, Arrival, Arrived, Move, Phase, Point,
};
use match_three::board::Board;
use match_three::cauldron::{reset, Cauldron, Ingredients, Processed, Recipe, Score};
use match_three::matcher::{Collectable, Slot, SlotContent};

fn recipe(ingredients: &[(usize, Collectable)]) -> Recipe {
    Recipe {
        ingredients: ingredients
            .iter()
            .map(|(amount, collectable)| Ingredients { amount: *amount, collectable: *collectable })
            .collect(),
    }
}

#[test]
fn five_tokens_complete_a_recipe_of_five() {
    let mut cauldron = Cauldron::with_recipe(recipe(&[(5, Collectable::Frog)]));
    for fed in 1..5 {
        let outcome =
            cauldron.process_with(&Collectable::Frog, recipe(&[(2, Collectable::Heart)]));
        assert_eq!(outcome, Processed { accepted: true, finished: false });
        assert_eq!(cauldron.count(&Collectable::Frog), fed);
        assert_eq!(cauldron.finished_recipes(), 0);
    }
    let outcome = cauldron.process_with(&Collectable::Frog, recipe(&[(2, Collectable::Heart)]));
    assert_eq!(outcome, Processed { accepted: true, finished: true });
    assert_eq!(cauldron.finished_recipes(), 1);
    for kind in 0..9 {
        assert_eq!(cauldron.count(&Collectable::from_index(kind)), 0);
    }
    assert_eq!(cauldron.get_recipe().ingredients, recipe(&[(2, Collectable::Heart)]).ingredients);
    // a sixth token meets the new recipe, which has no use for it
    let outcome = cauldron.process_with(&Collectable::Frog, recipe(&[(1, Collectable::Eye)]));
    assert_eq!(outcome, Processed { accepted: false, finished: false });
    assert_eq!(cauldron.count(&Collectable::Frog), 0);
    assert_eq!(cauldron.finished_recipes(), 1);
}

#[test]
fn a_sixth_token_counts_for_the_new_recipe_only() {
    let mut cauldron = Cauldron::with_recipe(recipe(&[(5, Collectable::Frog)]));
    for _ in 0..5 {
        cauldron.process_with(&Collectable::Frog, recipe(&[(3, Collectable::Frog)]));
    }
    assert_eq!(cauldron.finished_recipes(), 1);
    assert_eq!(cauldron.count(&Collectable::Frog), 0);
    let outcome = cauldron.process_with(&Collectable::Frog, recipe(&[(9, Collectable::Eye)]));
    assert_eq!(outcome, Processed { accepted: true, finished: false });
    assert_eq!(cauldron.count(&Collectable::Frog), 1);
    assert_eq!(cauldron.required_amount(&Collectable::Frog), 3);
}

#[test]
fn a_recipe_of_two_kinds_completes_when_both_are_there() {
    let mut cauldron =
        Cauldron::with_recipe(recipe(&[(1, Collectable::Eye), (2, Collectable::Jar)]));
    assert!(cauldron.accepts(&Collectable::Eye));
    assert!(cauldron.accepts(&Collectable::Jar));
    assert!(!cauldron.accepts(&Collectable::Red));
    assert!(!cauldron.is_complete());
    assert!(cauldron.deposit(&Collectable::Eye));
    // one eye is enough
    assert!(!cauldron.accepts(&Collectable::Eye));
    assert!(!cauldron.deposit(&Collectable::Eye));
    assert_eq!(cauldron.count(&Collectable::Eye), 1);
    assert!(cauldron.deposit(&Collectable::Jar));
    assert!(!cauldron.is_complete());
    assert!(cauldron.deposit(&Collectable::Jar));
    assert!(cauldron.is_complete());
    assert_eq!(cauldron.finished_recipes(), 0);
    cauldron.finish(recipe(&[(4, Collectable::Red)]));
    assert_eq!(cauldron.finished_recipes(), 1);
    assert_eq!(cauldron.count(&Collectable::Eye), 0);
    assert_eq!(cauldron.count(&Collectable::Jar), 0);
    assert!(cauldron.accepts(&Collectable::Red));
    assert!(!cauldron.accepts(&Collectable::Jar));
}

#[test]
fn a_kind_outside_the_recipe_is_refused() {
    let mut cauldron = Cauldron::with_recipe(recipe(&[(5, Collectable::Frog)]));
    let outcome = cauldron.process(&Collectable::Spider);
    assert_eq!(outcome, Processed { accepted: false, finished: false });
    assert_eq!(cauldron.count(&Collectable::Spider), 0);
    assert_eq!(cauldron.count(&Collectable::Frog), 0);
    assert_eq!(cauldron.finished_recipes(), 0);
}

#[test]
fn required_amount_is_that_of_the_first_ingredient_of_the_kind() {
    let cauldron = Cauldron::with_recipe(recipe(&[
        (4, Collectable::Eye),
        (7, Collectable::Jar),
        (9, Collectable::Jar),
    ]));
    assert_eq!(cauldron.required_amount(&Collectable::Eye), 4);
    assert_eq!(cauldron.required_amount(&Collectable::Jar), 7);
    assert_eq!(cauldron.required_amount(&Collectable::Red), 0);
}

#[test]
fn random_recipes_ask_for_three_kinds() {
    for _ in 0..200 {
        let recipe = Recipe::build_random();
        assert_eq!(recipe.ingredients.len(), 3);
        for ingredient in recipe.ingredients.iter() {
            assert!(ingredient.amount >= 4 && ingredient.amount < 16);
        }
        assert_ne!(recipe.ingredients[0].collectable, recipe.ingredients[1].collectable);
        assert_ne!(recipe.ingredients[0].collectable, recipe.ingredients[2].collectable);
        assert_ne!(recipe.ingredients[1].collectable, recipe.ingredients[2].collectable);
    }
}

#[test]
fn every_kind_and_every_amount_can_be_drawn() {
    let mut kinds = Vec::new();
    let mut in_recipes = Vec::new();
    let mut amounts = Vec::new();
    for _ in 0..2000 {
        let kind = Collectable::random();
        if !kinds.contains(&kind) {
            kinds.push(kind);
        }
        for ingredient in Recipe::build_random().ingredients {
            if !in_recipes.contains(&ingredient.collectable) {
                in_recipes.push(ingredient.collectable);
            }
            if !amounts.contains(&ingredient.amount) {
                amounts.push(ingredient.amount);
            }
        }
    }
    assert_eq!(kinds.len(), 9);
    assert_eq!(in_recipes.len(), 9);
    amounts.sort();
    assert_eq!(amounts, (4..16).collect::<Vec<usize>>());
}

#[test]
fn draws_stand_for_a_recipe() {
    let made = Recipe::from_draws(&vec![0, 0, 0], &vec![4, 5, 6]).unwrap();
    assert_eq!(
        made.ingredients,
        recipe(&[(4, Collectable::Eye), (5, Collectable::Tongue), (6, Collectable::Frog)])
            .ingredients
    );
    // the last kind goes first; then the first; then the seventh of what is left
    let made = Recipe::from_draws(&vec![8, 0, 6], &vec![15, 4, 9]).unwrap();
    assert_eq!(
        made.ingredients,
        recipe(&[(15, Collectable::Blue), (4, Collectable::Eye), (9, Collectable::Yellow)])
            .ingredients
    );
    let made = Recipe::from_draws(&vec![3, 3, 3], &vec![7, 7, 7]).unwrap();
    assert_eq!(
        made.ingredients,
        recipe(&[(7, Collectable::Heart), (7, Collectable::Spider), (7, Collectable::Jar)])
            .ingredients
    );
    assert!(Recipe::from_draws(&vec![], &vec![]).unwrap().ingredients.is_empty());
    let all = Recipe::from_draws(&vec![0; 9], &vec![1; 9]).unwrap();
    assert_eq!(all.ingredients.len(), 9);
    assert_eq!(all.ingredients[8].collectable, Collectable::Blue);
}

#[test]
fn draws_that_miss_the_pool_make_no_recipe() {
    assert!(Recipe::from_draws(&vec![9], &vec![4]).is_none());
    assert!(Recipe::from_draws(&vec![8, 8], &vec![4, 4]).is_none());
    assert!(Recipe::from_draws(&vec![0, 0, 7], &vec![4, 4, 4]).is_none());
    assert!(Recipe::from_draws(&vec![0, 0, 6], &vec![4, 4, 4]).is_some());
    assert!(Recipe::from_draws(&vec![0, 0], &vec![4, 4, 4]).is_none());
    assert!(Recipe::from_draws(&vec![0, 0, 0], &vec![4, 4]).is_none());
    assert!(Recipe::from_draws(&vec![0; 10], &vec![1; 10]).is_none());
}

#[test]
fn a_new_cauldron_is_empty() {
    let cauldron = Cauldron::new();
    assert_eq!(cauldron.finished_recipes(), 0);
    assert_eq!(cauldron.get_recipe().ingredients.len(), 3);
    for kind in 0..9 {
        assert_eq!(cauldron.count(&Collectable::from_index(kind)), 0);
    }
    assert!(!cauldron.is_complete());
}

#[test]
fn a_new_recipe_starts_from_an_empty_cauldron() {
    let mut cauldron = Cauldron::with_recipe(recipe(&[(5, Collectable::Frog)]));
    cauldron.deposit(&Collectable::Frog);
    assert_eq!(cauldron.count(&Collectable::Frog), 1);
    cauldron.new_recipe();
    for kind in 0..9 {
        assert_eq!(cauldron.count(&Collectable::from_index(kind)), 0);
    }
    assert_eq!(cauldron.finished_recipes(), 0);
    assert_eq!(cauldron.get_recipe().ingredients.len(), 3);
}

#[test]
fn reset_starts_over() {
    let mut cauldron = Cauldron::with_recipe(recipe(&[(1, Collectable::Frog)]));
    cauldron.process(&Collectable::Frog);
    assert_eq!(cauldron.finished_recipes(), 1);
    let mut score = Score { money: 12 };
    reset(&mut cauldron, &mut score);
    assert_eq!(cauldron.finished_recipes(), 0);
    assert_eq!(cauldron.count(&Collectable::Frog), 0);
    assert_eq!(score.money, 0);
}

#[test]
fn a_completed_recipe_is_followed_by_a_random_one() {
    let mut cauldron = Cauldron::with_recipe(recipe(&[(1, Collectable::Frog)]));
    let outcome = cauldron.process(&Collectable::Frog);
    assert_eq!(outcome, Processed { accepted: true, finished: true });
    assert_eq!(cauldron.finished_recipes(), 1);
    assert_eq!(cauldron.count(&Collectable::Frog), 0);
    assert_eq!(cauldron.get_recipe().ingredients.len(), 3);
}

#[test]
fn motions_have_their_goals_and_speeds() {
    let to_slot = Move::move_to_slot(&Slot::new(2, 3));
    assert_eq!(to_slot.goal, Point { x: 236, y: 172 });
    assert_eq!(to_slot.speed, 256);
    assert_eq!(to_slot.origin, None);
    assert_eq!(to_slot.phase(), Phase::Travel);
    assert_eq!(Move::move_to_slot(&Slot::new(0, 0)).goal, Point { x: 44, y: 44 });
    assert_eq!(Move::move_to(Point { x: 1, y: 2 }).goal, Point { x: 1, y: 2 });

    let process = Move::process();
    assert_eq!(process.goal, Point { x: 668, y: 300 });
    assert_eq!(process.speed, 384);
    assert_eq!(process.origin, None);
    assert_eq!(process.phase(), Phase::Processing);

    let throw_in = Move::throw_in_cauldron();
    assert_eq!(throw_in.goal, Point { x: 668, y: 136 });
    assert_eq!(throw_in.speed, 256);
    assert_eq!(throw_in.origin, Some(Point { x: 700, y: 300 }));
    assert_eq!(throw_in.phase(), Phase::EnterCauldron);

    let throw_away = Move::throw_away();
    assert_eq!(throw_away.goal, Point { x: 850, y: 300 });
    assert_eq!(throw_away.speed, 256);
    assert_eq!(throw_away.origin, Some(Point { x: 700, y: 300 }));
    assert_eq!(throw_away.phase(), Phase::Discard);
}

#[test]
fn an_accepted_token_is_thrown_into_the_cauldron() {
    let mut cauldron = Cauldron::with_recipe(recipe(&[(2, Collectable::Frog)]));
    let mut score = Score { money: 0 };
    let mut animations = vec![Move::process()];
    let arrived = on_arrival(&mut animations, &Collectable::Frog, &mut cauldron, &mut score);
    assert_eq!(arrived, Arrived { action: Arrival::Continue, finished_recipe: false });
    assert_eq!(animations, vec![Move::throw_in_cauldron()]);
    assert_eq!(cauldron.count(&Collectable::Frog), 1);
    assert_eq!(score.money, 0);
    let arrived = on_arrival(&mut animations, &Collectable::Frog, &mut cauldron, &mut score);
    assert_eq!(arrived, Arrived { action: Arrival::Despawn, finished_recipe: false });
    assert_eq!(cauldron.count(&Collectable::Frog), 1);
    assert_eq!(score.money, 0);
}

#[test]
fn a_refused_token_is_thrown_away_for_a_coin() {
    let mut cauldron = Cauldron::with_recipe(recipe(&[(2, Collectable::Frog)]));
    let mut score = Score { money: 3 };
    let mut animations = vec![Move::process()];
    let arrived = on_arrival(&mut animations, &Collectable::Jar, &mut cauldron, &mut score);
    assert_eq!(arrived, Arrived { action: Arrival::Continue, finished_recipe: false });
    assert_eq!(animations, vec![Move::throw_away()]);
    assert_eq!(cauldron.count(&Collectable::Jar), 0);
    assert_eq!(score.money, 3);
    let arrived = on_arrival(&mut animations, &Collectable::Jar, &mut cauldron, &mut score);
    assert_eq!(arrived, Arrived { action: Arrival::Despawn, finished_recipe: false });
    assert_eq!(score.money, 4);
    assert_eq!(cauldron.finished_recipes(), 0);
}

#[test]
fn the_completing_token_raises_the_notification() {
    let mut cauldron = Cauldron::with_recipe(recipe(&[(1, Collectable::Frog)]));
    let mut score = Score { money: 0 };
    let mut animations = vec![Move::process()];
    let arrived = on_arrival(&mut animations, &Collectable::Frog, &mut cauldron, &mut score);
    assert_eq!(arrived, Arrived { action: Arrival::Continue, finished_recipe: true });
    assert_eq!(animations, vec![Move::throw_in_cauldron()]);
    assert_eq!(cauldron.finished_recipes(), 1);
    assert_eq!(cauldron.count(&Collectable::Frog), 0);
}

#[test]
fn a_travelling_token_goes_on_or_settles() {
    let mut cauldron = Cauldron::with_recipe(recipe(&[(2, Collectable::Frog)]));
    let mut score = Score { money: 0 };
    let first = Move::move_to_slot(&Slot::new(0, 0));
    let second = Move::move_to_slot(&Slot::new(1, 0));
    let mut animations = vec![first, second];
    let arrived = on_arrival(&mut animations, &Collectable::Frog, &mut cauldron, &mut score);
    assert_eq!(arrived, Arrived { action: Arrival::Continue, finished_recipe: false });
    assert_eq!(animations, vec![second]);
    let arrived = on_arrival(&mut animations, &Collectable::Frog, &mut cauldron, &mut score);
    assert_eq!(arrived, Arrived { action: Arrival::Settled, finished_recipe: false });
    assert_eq!(animations, vec![second]);
    assert_eq!(cauldron.count(&Collectable::Frog), 0);
    assert_eq!(score.money, 0);
}

#[test]
fn every_pending_move_or_throw_counts() {
    let travel = Move::move_to_slot(&Slot::new(0, 0));
    assert_eq!(count_in_motion(&vec![]), 0);
    assert_eq!(count_in_motion(&vec![vec![], vec![]]), 0);
    assert_eq!(
        count_in_motion(&vec![
            vec![Move::process()],
            vec![Move::throw_away()],
            vec![Move::throw_in_cauldron()],
        ]),
        3
    );
    assert_eq!(
        count_in_motion(&vec![vec![travel, travel], vec![], vec![Move::process()], vec![travel]]),
        3
    );
}

#[test]
fn a_throw_under_way_keeps_the_board_busy() {
    let cell = SlotContent { entity: 0, collectable: Collectable::Eye };
    let mut board = Board::from_columns(1, 1, vec![vec![cell]], 1).unwrap();
    assert!(!board.animating());
    // nothing travels on the board, but one token is still being thrown
    board.settle(count_in_motion(&vec![vec![], vec![Move::throw_in_cauldron()]]));
    assert!(board.animating());
    board.settle(count_in_motion(&vec![vec![], vec![Move::throw_away()]]));
    assert!(board.animating());
    board.settle(count_in_motion(&vec![vec![], vec![]]));
    assert!(!board.animating());
}

#[test]
fn looping_sheets_wrap_and_others_stop_on_the_last_frame() {
    let looping = Animate { frames: 6, loop_animation: true };
    assert_eq!(looping.next_frame(0), 1);
    assert_eq!(looping.next_frame(4), 5);
    assert_eq!(looping.next_frame(5), 0);
    assert_eq!(looping.next_frame(u32::MAX), 4);
    let once = Animate { frames: 6, loop_animation: false };
    assert_eq!(once.next_frame(0), 1);
    assert_eq!(once.next_frame(4), 5);
    assert_eq!(once.next_frame(5), 5);
    assert_eq!(once.next_frame(u32::MAX), 5);
    let still = Animate { frames: 1, loop_animation: false };
    assert_eq!(still.next_frame(0), 0);
}

#[test]
fn every_kind_has_its_animation() {
    assert_eq!(Collectable::Eye.get_animation(), Animate { frames: 6, loop_animation: false });
    assert_eq!(Collectable::Tongue.get_animation(), Animate { frames: 6, loop_animation: true });
    assert_eq!(Collectable::Frog.get_animation(), Animate { frames: 6, loop_animation: false });
    assert_eq!(Collectable::Heart.get_animation(), Animate { frames: 6, loop_animation: true });
    assert_eq!(Collectable::Spider.get_animation(), Animate { frames: 6, loop_animation: false });
    assert_eq!(Collectable::Jar.get_animation(), Animate { frames: 4, loop_animation: true });
    assert_eq!(Collectable::Red.get_animation(), Animate { frames: 6, loop_animation: true });
    assert_eq!(Collectable::Yellow.get_animation(), Animate { frames: 6, loop_animation: true });
    assert_eq!(Collectable::Blue.get_animation(), Animate { frames: 6, loop_animation: true });
}

#[test]
fn kinds_are_numbered_in_order() {
    let kinds = [
        Collectable::Eye,
        Collectable::Tongue,
        Collectable::Frog,
        Collectable::Heart,
        Collectable::Spider,
        Collectable::Jar,
        Collectable::Red,
        Collectable::Yellow,
        Collectable::Blue,
    ];
    for (index, kind) in kinds.iter().enumerate() {
        assert_eq!(kind.index(), index);
        assert_eq!(Collectable::from_index(index), *kind);
    }
    assert_eq!(Collectable::from_index(9), Collectable::Blue);
    assert_eq!(Collectable::from_index(usize::MAX), Collectable::Blue);
}

#[test]
fn slots_walk_and_order_by_column_first() {
    let slot = Slot::new(2, 3);
    assert_eq!(slot.row, 2);
    assert_eq!(slot.column, 3);
    assert_eq!(slot.walk(1, 0), Slot::new(3, 3));
    assert_eq!(slot.walk(0, -1), Slot::new(2, 2));
    assert_eq!(slot.walk(-2, 4), Slot::new(0, 7));
    assert!(Slot::new(5, 0) < Slot::new(0, 1));
    assert!(Slot::new(5, 0).precedes(&Slot::new(0, 1)));
    assert!(Slot::new(1, 1).precedes(&Slot::new(2, 1)));
    assert!(!Slot::new(2, 1).precedes(&Slot::new(2, 1)));
    assert!(!Slot::new(0, 2).precedes(&Slot::new(9, 1)));
}

#[test]
fn slots_far_off_the_screen_cannot_be_reached() {
    assert!(Move::reaches(&Slot::new(0, 0)));
    assert!(Move::reaches(&Slot::new(8, 7)));
    let last = ((u64::MAX - 44) / 64) as usize;
    assert!(Move::reaches(&Slot::new(last, last)));
    assert_eq!(
        Move::move_to_slot(&Slot::new(last, 0)).goal,
        Point { x: 44, y: last as u64 * 64 + 44 }
    );
    if usize::MAX as u64 > last as u64 {
        assert!(!Move::reaches(&Slot::new(last + 1, 0)));
        assert!(!Move::reaches(&Slot::new(0, usize::MAX)));
    }
}
