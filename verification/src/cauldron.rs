//! The crafting state machine: a cauldron takes matched tokens against a
//! recipe, and what it cannot use goes to the treasury.

use crate::matcher::{Collectable, KIND_COUNT};
use crate::random::random_in_range;
use vstd::prelude::*;

verus! {

/// The smallest amount a random recipe asks of an ingredient.
pub const MIN_AMOUNT: usize = 4;

/// The bound below which the amounts of a random recipe stay.
pub const AMOUNT_BOUND: usize = 16;

/// How many ingredients a random recipe has.
pub const RECIPE_SIZE: usize = 3;

/// One requirement of a recipe: so many tokens of one kind.
#[derive(Clone, Copy, Debug, PartialEq, Eq, Structural)]
pub struct Ingredients {
    pub amount: usize,
    pub collectable: Collectable,
}

/// What the cauldron is asked to brew.
#[derive(Debug)]
pub struct Recipe {
    pub ingredients: Vec<Ingredients>,
}

/// The treasury: one coin for every token the cauldron could not use.
#[derive(Debug)]
pub struct Score {
    pub money: u64,
}

/// What became of a token that reached the cauldron.
#[derive(Clone, Copy, Debug, PartialEq, Eq, Structural)]
pub struct Processed {
    /// The token goes into the cauldron; otherwise it is thrown away.
    pub accepted: bool,
    /// The token completed the recipe, and a new one has begun.
    pub finished: bool,
}

/// A recipe with `held` tokens of `kind` in the cauldron still has use for
/// another one: some ingredient names the kind and asks for more.
pub open spec fn wants(recipe: Seq<Ingredients>, kind: Collectable, held: nat) -> bool {
    exists|index: int|
        0 <= index < recipe.len() && (#[trigger] recipe[index]).collectable == kind
            && recipe[index].amount > held
}

/// The amount that the first ingredient of `kind` at or after position
/// `from` asks for; 0 if none names the kind.
pub open spec fn required(recipe: Seq<Ingredients>, kind: Collectable, from: int) -> nat
    decreases recipe.len() - from,
{
    if from < 0 || from >= recipe.len() {
        0
    } else if recipe[from].collectable == kind {
        recipe[from].amount as nat
    } else {
        required(recipe, kind, from + 1)
    }
}

/// What a randomly built recipe always is: three ingredients of different
/// kinds, each asking for at least 4 and fewer than 16 tokens.
pub open spec fn random_recipe(recipe: Seq<Ingredients>) -> bool {
    &&& recipe.len() == RECIPE_SIZE
    &&& forall|index: int|
        0 <= index < recipe.len() ==> MIN_AMOUNT <= (#[trigger] recipe[index]).amount
            < AMOUNT_BOUND
    &&& forall|first: int, second: int|
        0 <= first < second < recipe.len() ==> (#[trigger] recipe[first]).collectable
            != (#[trigger] recipe[second]).collectable
}

/// All kinds, in the order of their declaration.
pub open spec fn all_kinds() -> Seq<Collectable> {
    Seq::new(KIND_COUNT as nat, |index: int| Collectable::from_index_spec(index as nat))
}

/// The kinds still to be had after the first `upto` picks: every pick takes
/// the kind at its position out of the pool it finds.
pub open spec fn pool_after(picks: Seq<usize>, upto: int) -> Seq<Collectable>
    decreases upto,
{
    if upto <= 0 {
        all_kinds()
    } else {
        pool_after(picks, upto - 1).remove(picks[upto - 1] as int)
    }
}

/// The draws can be made into a recipe: there is an amount for every pick,
/// and every pick points into the pool it finds.
pub open spec fn valid_draws(picks: Seq<usize>, amounts: Seq<usize>) -> bool {
    &&& picks.len() == amounts.len()
    &&& forall|index: int| 0 <= index < picks.len() ==> (#[trigger] picks[index]) < KIND_COUNT - index
}

/// The recipe that the draws stand for: ingredient by ingredient the kind
/// picked from what the earlier picks left, with the amount drawn for it.
pub open spec fn recipe_of(picks: Seq<usize>, amounts: Seq<usize>) -> Seq<Ingredients> {
    Seq::new(
        picks.len(),
        |index: int|
            Ingredients {
                amount: amounts[index],
                collectable: pool_after(picks, index)[picks[index] as int],
            },
    )
}

/// What the pool holds after valid picks: one kind fewer for every pick,
/// none twice, and none of the kinds picked so far.
pub proof fn lemma_pool_after(picks: Seq<usize>, amounts: Seq<usize>, upto: int)
    requires
        valid_draws(picks, amounts),
        0 <= upto <= picks.len(),
    ensures
        pool_after(picks, upto).len() == KIND_COUNT - upto,
        pool_after(picks, upto).no_duplicates(),
        forall|earlier: int|
            0 <= earlier < upto ==> !pool_after(picks, upto).contains(
                (#[trigger] recipe_of(picks, amounts)[earlier]).collectable,
            ),
    decreases upto,
{
    if upto > 0 {
        lemma_pool_after(picks, amounts, upto - 1);
        let found = pool_after(picks, upto - 1);
        let taken = picks[upto - 1] as int;
        let left = pool_after(picks, upto);
        assert(left == found.remove(taken));
        assert forall|first: int, second: int|
            0 <= first < left.len() && 0 <= second < left.len() && first != second implies left[first]
            != left[second] by {
            let one = if first < taken {
                first
            } else {
                first + 1
            };
            let two = if second < taken {
                second
            } else {
                second + 1
            };
            assert(left[first] == found[one] && left[second] == found[two]);
        }
        assert forall|earlier: int| 0 <= earlier < upto implies !left.contains(
            (#[trigger] recipe_of(picks, amounts)[earlier]).collectable,
        ) by {
            let kind = recipe_of(picks, amounts)[earlier].collectable;
            if left.contains(kind) {
                let place = choose|place: int| 0 <= place < left.len() && left[place] == kind;
                let before = if place < taken {
                    place
                } else {
                    place + 1
                };
                assert(found[before] == kind);
                if earlier < upto - 1 {
                    assert(found.contains(kind));
                } else {
                    assert(kind == found[taken]);
                    assert(before != taken);
                }
            }
        }
    } else {
        let kinds = all_kinds();
        assert forall|first: int, second: int|
            0 <= first < kinds.len() && 0 <= second < kinds.len() && first != second implies kinds[first]
            != kinds[second] by {
            assert(kinds[first].index_spec() == first);
            assert(kinds[second].index_spec() == second);
        }
    }
}

/// Valid draws never name a kind twice.
pub proof fn lemma_draws_differ(picks: Seq<usize>, amounts: Seq<usize>)
    requires
        valid_draws(picks, amounts),
    ensures
        forall|first: int, second: int|
            0 <= first < second < picks.len() ==> (#[trigger] recipe_of(
                picks,
                amounts,
            )[first]).collectable != (#[trigger] recipe_of(picks, amounts)[second]).collectable,
{
    let recipe = recipe_of(picks, amounts);
    assert forall|first: int, second: int| 0 <= first < second < picks.len() implies (#[trigger] recipe[first]).collectable
        != (#[trigger] recipe[second]).collectable by {
        lemma_pool_after(picks, amounts, second);
        let pool = pool_after(picks, second);
        assert(pool[picks[second] as int] == recipe[second].collectable);
        assert(pool.contains(recipe[second].collectable));
        assert(!pool.contains(recipe[first].collectable));
    }
}

impl Recipe {
    /// The recipe that given draws stand for. It is made exactly when there
    /// is an amount for every pick and every pick points into the pool of
    /// kinds that the picks before it have left.
    pub fn from_draws(picks: &Vec<usize>, amounts: &Vec<usize>) -> (made: Option<Recipe>)
        ensures
            made.is_some() <==> valid_draws(picks@, amounts@),
            made matches Some(recipe) ==> recipe.ingredients@ == recipe_of(picks@, amounts@),
    {
        if picks.len() != amounts.len() {
            return None;
        }
        let mut pool: Vec<Collectable> = Vec::new();
        let mut kind: usize = 0;
        while kind < KIND_COUNT
            invariant
                kind <= KIND_COUNT,
                pool@.len() == kind,
                forall|place: int|
                    0 <= place < kind ==> pool@[place] == Collectable::from_index_spec(
                        place as nat,
                    ),
            decreases KIND_COUNT - kind,
        {
            pool.push(Collectable::from_index(kind));
            kind = kind + 1;
        }
        assert(pool@ =~= all_kinds());
        let mut ingredients: Vec<Ingredients> = Vec::new();
        let mut index: usize = 0;
        while index < picks.len()
            invariant
                index <= picks@.len(),
                picks@.len() == amounts@.len(),
                pool@ == pool_after(picks@, index as int),
                pool@.len() + index == KIND_COUNT,
                forall|before: int|
                    0 <= before < index ==> (#[trigger] picks@[before]) < KIND_COUNT - before,
                ingredients@.len() == index,
                forall|before: int|
                    0 <= before < index ==> #[trigger] ingredients@[before] == recipe_of(
                        picks@,
                        amounts@,
                    )[before],
            decreases picks@.len() - index,
        {
            if picks[index] >= pool.len() {
                assert(!(picks@[index as int] < KIND_COUNT - index));
                return None;
            }
            let collectable = pool.remove(picks[index]);
            ingredients.push(Ingredients { amount: amounts[index], collectable });
            index = index + 1;
        }
        assert(ingredients@ =~= recipe_of(picks@, amounts@));
        Some(Recipe { ingredients })
    }

    /// Draws three different kinds and an amount for each: every kind is
    /// picked at random from those not picked yet, every amount at random
    /// from 4 up to, but not including, 16.
    pub fn build_random() -> (recipe: Recipe)
        ensures
            random_recipe(recipe.ingredients@),
    {
        let mut picks: Vec<usize> = Vec::new();
        let mut amounts: Vec<usize> = Vec::new();
        while picks.len() < RECIPE_SIZE
            invariant
                picks@.len() <= RECIPE_SIZE,
                picks@.len() == amounts@.len(),
                forall|index: int|
                    0 <= index < picks@.len() ==> (#[trigger] picks@[index]) < KIND_COUNT - index,
                forall|index: int|
                    0 <= index < amounts@.len() ==> MIN_AMOUNT <= (#[trigger] amounts@[index])
                        < AMOUNT_BOUND,
            decreases RECIPE_SIZE - picks@.len(),
        {
            let pick = random_in_range(0, KIND_COUNT - picks.len());
            let amount = random_in_range(MIN_AMOUNT, AMOUNT_BOUND);
            picks.push(pick);
            amounts.push(amount);
        }
        let made = Recipe::from_draws(&picks, &amounts);
        proof {
            lemma_draws_differ(picks@, amounts@);
        }
        made.unwrap()
    }
}

/// The crafting state: the recipe at work, what has been thrown in for it,
/// and how many recipes have been completed.
#[derive(Debug)]
pub struct Cauldron {
    recipe: Recipe,
    content: Vec<usize>,
    finished_recipes: u64,
}

impl Cauldron {
    /// The ingredients of the recipe at work.
    pub closed spec fn ingredients(&self) -> Seq<Ingredients> {
        self.recipe.ingredients@
    }

    /// How many tokens of a kind the cauldron holds for the recipe at work.
    pub closed spec fn held(&self, kind: Collectable) -> nat {
        self.content@[kind.index_spec() as int] as nat
    }

    /// How many recipes have been completed.
    pub closed spec fn finished(&self) -> nat {
        self.finished_recipes as nat
    }

    /// The cauldron keeps a count for every kind.
    pub closed spec fn wf(&self) -> bool {
        self.content@.len() == KIND_COUNT
    }

    /// The cauldron holds nothing.
    pub open spec fn empty(&self) -> bool {
        forall|kind: Collectable| self.held(kind) == 0
    }

    /// The cauldron has use for a token of this kind.
    pub open spec fn takes(&self, kind: Collectable) -> bool {
        wants(self.ingredients(), kind, self.held(kind))
    }

    /// Every ingredient of the recipe is there in the amount asked for.
    pub open spec fn complete(&self) -> bool {
        forall|index: int|
            0 <= index < self.ingredients().len() ==> self.held(
                (#[trigger] self.ingredients()[index]).collectable,
            ) >= self.ingredients()[index].amount
    }

    /// One more token of `kind` would complete the recipe.
    pub open spec fn completed_by(&self, kind: Collectable) -> bool {
        forall|index: int|
            0 <= index < self.ingredients().len() ==> (if (#[trigger] self.ingredients()[index]).collectable
                == kind {
                self.held(kind) + 1
            } else {
                self.held(self.ingredients()[index].collectable)
            }) >= self.ingredients()[index].amount
    }

    /// Nothing but the count of `kind` differs between the two cauldrons,
    /// and that count grew by `added`.
    pub open spec fn grown_from(&self, before: &Cauldron, kind: Collectable, added: nat) -> bool {
        &&& self.ingredients() == before.ingredients()
        &&& self.finished() == before.finished()
        &&& self.held(kind) == before.held(kind) + added
        &&& forall|other: Collectable| other != kind ==> self.held(other) == before.held(other)
    }

    /// A count of zero for every kind.
    fn nothing() -> (content: Vec<usize>)
        ensures
            content@.len() == KIND_COUNT,
            forall|index: int| 0 <= index < content@.len() ==> content@[index] == 0,
    {
        let mut content: Vec<usize> = Vec::new();
        while content.len() < KIND_COUNT
            invariant
                content@.len() <= KIND_COUNT,
                forall|index: int| 0 <= index < content@.len() ==> content@[index] == 0,
            decreases KIND_COUNT - content@.len(),
        {
            content.push(0);
        }
        content
    }

    /// An empty cauldron at work on the given recipe.
    pub fn with_recipe(recipe: Recipe) -> (cauldron: Cauldron)
        ensures
            cauldron.wf(),
            cauldron.ingredients() == recipe.ingredients@,
            cauldron.empty(),
            cauldron.finished() == 0,
    {
        Cauldron { recipe, content: Cauldron::nothing(), finished_recipes: 0 }
    }

    /// An empty cauldron at work on a random recipe.
    pub fn new() -> (cauldron: Cauldron)
        ensures
            cauldron.wf(),
            random_recipe(cauldron.ingredients()),
            cauldron.empty(),
            cauldron.finished() == 0,
    {
        Cauldron::with_recipe(Recipe::build_random())
    }

    /// Puts a new random recipe to work. Nothing is carried over: the
    /// cauldron is emptied. The count of completed recipes stays.
    pub fn new_recipe(&mut self)
        ensures
            final(self).wf(),
            random_recipe(final(self).ingredients()),
            final(self).finished() == old(self).finished(),
            final(self).empty(),
    {
        self.recipe = Recipe::build_random();
        self.content = Cauldron::nothing();
    }

    pub fn get_recipe(&self) -> (recipe: &Recipe)
        ensures
            recipe.ingredients@ == self.ingredients(),
    {
        &self.recipe
    }

    pub fn finished_recipes(&self) -> (count: u64)
        ensures
            count == self.finished(),
    {
        self.finished_recipes
    }

    /// How many tokens of a kind the cauldron holds.
    pub fn count(&self, kind: &Collectable) -> (count: usize)
        requires
            self.wf(),
        ensures
            count == self.held(*kind),
    {
        self.content[kind.index()]
    }

    /// The amount the recipe asks of a kind: that of its first ingredient of
    /// the kind, or 0 where it has none.
    pub fn required_amount(&self, kind: &Collectable) -> (amount: usize)
        ensures
            amount == required(self.ingredients(), *kind, 0),
    {
        let mut index: usize = 0;
        while index < self.recipe.ingredients.len()
            invariant
                index <= self.recipe.ingredients@.len(),
                required(self.recipe.ingredients@, *kind, 0) == required(
                    self.recipe.ingredients@,
                    *kind,
                    index as int,
                ),
            decreases self.recipe.ingredients@.len() - index,
        {
            if self.recipe.ingredients[index].collectable == *kind {
                return self.recipe.ingredients[index].amount;
            }
            index = index + 1;
        }
        0
    }

    /// Whether the cauldron has use for a token of this kind.
    pub fn accepts(&self, kind: &Collectable) -> (accepted: bool)
        requires
            self.wf(),
        ensures
            accepted == self.takes(*kind),
    {
        let current = self.count(kind);
        let mut index: usize = 0;
        while index < self.recipe.ingredients.len()
            invariant
                index <= self.recipe.ingredients@.len(),
                current == self.held(*kind),
                forall|before: int|
                    0 <= before < index ==> !((#[trigger] self.recipe.ingredients@[before]).collectable
                        == *kind && self.recipe.ingredients@[before].amount > current),
            decreases self.recipe.ingredients@.len() - index,
        {
            let ingredient = self.recipe.ingredients[index];
            if ingredient.collectable == *kind && ingredient.amount > current {
                return true;
            }
            index = index + 1;
        }
        false
    }

    /// Whether every ingredient is there in the amount asked for.
    pub fn is_complete(&self) -> (complete: bool)
        requires
            self.wf(),
        ensures
            complete == self.complete(),
    {
        let mut index: usize = 0;
        while index < self.recipe.ingredients.len()
            invariant
                self.wf(),
                index <= self.recipe.ingredients@.len(),
                forall|before: int|
                    0 <= before < index ==> self.held(
                        (#[trigger] self.recipe.ingredients@[before]).collectable,
                    ) >= self.recipe.ingredients@[before].amount,
            decreases self.recipe.ingredients@.len() - index,
        {
            let ingredient = self.recipe.ingredients[index];
            if self.count(&ingredient.collectable) < ingredient.amount {
                return false;
            }
            index = index + 1;
        }
        true
    }

    /// Offers a token to the cauldron. A token the recipe has use for is
    /// taken and counted; any other is refused and changes nothing.
    pub fn deposit(&mut self, kind: &Collectable) -> (accepted: bool)
        requires
            old(self).wf(),
        ensures
            final(self).wf(),
            accepted == old(self).takes(*kind),
            final(self).grown_from(old(self), *kind, if accepted {
                1nat
            } else {
                0nat
            }),
    {
        if !self.accepts(kind) {
            return false;
        }
        let place = kind.index();
        let current = self.content[place];
        self.content[place] = current + 1;
        proof {
            assert forall|other: Collectable| other != *kind implies self.held(other) == old(
                self,
            ).held(other) by {
                assert(other.index_spec() != kind.index_spec());
            }
        }
        true
    }

    /// Closes the recipe at work: it counts as completed, the cauldron is
    /// emptied, and `next` is put to work.
    pub fn finish(&mut self, next: Recipe)
        requires
            old(self).finished() < u64::MAX,
        ensures
            final(self).wf(),
            final(self).ingredients() == next.ingredients@,
            final(self).finished() == old(self).finished() + 1,
            final(self).empty(),
    {
        self.finished_recipes = self.finished_recipes + 1;
        self.recipe = next;
        self.content = Cauldron::nothing();
    }

    /// What happens when a matched token reaches the cauldron, with `next`
    /// as the recipe to follow if this token completes the one at work.
    pub fn process_with(&mut self, kind: &Collectable, next: Recipe) -> (outcome: Processed)
        requires
            old(self).wf(),
            old(self).takes(*kind) && old(self).completed_by(*kind) ==> old(self).finished()
                < u64::MAX,
        ensures
            final(self).wf(),
            outcome.accepted == old(self).takes(*kind),
            outcome.finished == (old(self).takes(*kind) && old(self).completed_by(*kind)),
            !outcome.accepted ==> final(self).grown_from(old(self), *kind, 0),
            outcome.accepted && !outcome.finished ==> final(self).grown_from(old(self), *kind, 1),
            outcome.finished ==> {
                &&& final(self).finished() == old(self).finished() + 1
                &&& final(self).empty()
                &&& final(self).ingredients() == next.ingredients@
            },
    {
        if !self.deposit(kind) {
            return Processed { accepted: false, finished: false };
        }
        proof {
            self.lemma_complete_after_deposit(old(self), *kind);
        }
        if self.is_complete() {
            self.finish(next);
            Processed { accepted: true, finished: true }
        } else {
            Processed { accepted: true, finished: false }
        }
    }

    /// What happens when a matched token reaches the cauldron. A token the
    /// recipe has no use for is refused. Another is taken; if it completes
    /// the recipe, that recipe is counted, the cauldron emptied, and a new
    /// random recipe put to work.
    pub fn process(&mut self, kind: &Collectable) -> (outcome: Processed)
        requires
            old(self).wf(),
            old(self).takes(*kind) && old(self).completed_by(*kind) ==> old(self).finished()
                < u64::MAX,
        ensures
            final(self).wf(),
            outcome.accepted == old(self).takes(*kind),
            outcome.finished == (old(self).takes(*kind) && old(self).completed_by(*kind)),
            !outcome.accepted ==> final(self).grown_from(old(self), *kind, 0),
            outcome.accepted && !outcome.finished ==> final(self).grown_from(old(self), *kind, 1),
            outcome.finished ==> {
                &&& final(self).finished() == old(self).finished() + 1
                &&& final(self).empty()
                &&& random_recipe(final(self).ingredients())
            },
    {
        if !self.deposit(kind) {
            return Processed { accepted: false, finished: false };
        }
        proof {
            self.lemma_complete_after_deposit(old(self), *kind);
        }
        if self.is_complete() {
            self.finish(Recipe::build_random());
            Processed { accepted: true, finished: true }
        } else {
            Processed { accepted: true, finished: false }
        }
    }

    /// After one token of `kind` went in, the recipe is complete exactly if
    /// that token was the one to complete it.
    proof fn lemma_complete_after_deposit(&self, before: &Cauldron, kind: Collectable)
        requires
            self.grown_from(before, kind, 1),
        ensures
            self.complete() == before.completed_by(kind),
    {
        if self.complete() {
            assert forall|index: int| 0 <= index < before.ingredients().len() implies (if (#[trigger] before.ingredients()[index]).collectable
                == kind {
                before.held(kind) + 1
            } else {
                before.held(before.ingredients()[index].collectable)
            }) >= before.ingredients()[index].amount by {
                assert(self.held(self.ingredients()[index].collectable)
                    >= self.ingredients()[index].amount);
            }
        }
        if before.completed_by(kind) {
            assert forall|index: int| 0 <= index < self.ingredients().len() implies self.held(
                (#[trigger] self.ingredients()[index]).collectable,
            ) >= self.ingredients()[index].amount by {
                assert((if before.ingredients()[index].collectable == kind {
                    before.held(kind) + 1
                } else {
                    before.held(before.ingredients()[index].collectable)
                }) >= before.ingredients()[index].amount);
            }
        }
    }
}

/// A token of a kind that no ingredient names is never taken, whatever the
/// cauldron holds.
pub proof fn lemma_foreign_kind_refused(recipe: Seq<Ingredients>, kind: Collectable, held: nat)
    requires
        forall|index: int| 0 <= index < recipe.len() ==> (#[trigger] recipe[index]).collectable != kind,
    ensures
        !wants(recipe, kind, held),
{
}

/// Starts over: a new cauldron on a random recipe, and an empty treasury.
pub fn reset(cauldron: &mut Cauldron, score: &mut Score)
    ensures
        final(cauldron).wf(),
        random_recipe(final(cauldron).ingredients()),
        final(cauldron).empty(),
        final(cauldron).finished() == 0,
        final(score).money == 0,
{
    *cauldron = Cauldron::new();
    score.money = 0;
}

} // verus!
