use vstd::prelude::*;

use crate::charset::{
    alphabet, alphabet_chars, count_in, in_category, lemma_alphabet_len, lemma_categories_disjoint,
    lemma_count_empty, lemma_count_permutation, lemma_count_push, Category,
};
use crate::random::{random_in_range, shuffle_chars, string_from_chars};

verus! {

/// Shortest password the generator builds and the evaluator scores.
pub const ALLOWED_MIN: usize = 13;

/// Smallest length drawn when none is asked for.
pub const DEFAULT_MIN: usize = 20;

/// Largest length drawn when none is asked for.
pub const DEFAULT_MAX: usize = 25;

/// The length of the passwords built: the length asked for if there is one; else the sum
/// of the minimums where it exceeds `DEFAULT_MIN`; else the drawn length.
pub open spec fn resolve_length(requested: Option<usize>, required: nat, drawn: int) -> int {
    match requested {
        Some(n) => n as int,
        None => if required > DEFAULT_MIN {
            required as int
        } else {
            drawn
        },
    }
}

/// Why a generator configuration is refused.
#[derive(Clone, Copy, Debug, PartialEq, Eq, Structural)]
pub enum ConfigError {
    /// The length is below `ALLOWED_MIN`.
    BelowFloor,
    /// The length is below the sum of the included categories' minimums.
    BelowMinimums,
    /// No category is included.
    NoCategory,
    /// An included category asks for zero characters.
    ZeroMinimum,
    /// The length the minimums call for does not fit in a `usize`.
    TooLong,
}

/// What a configuration asks of one category.
#[derive(Clone, Copy, Debug, PartialEq, Eq, Structural)]
pub struct CategoryRule {
    /// Whether passwords draw from the category at all.
    pub included: bool,
    /// How many characters of the category a password holds at least.
    pub min_count: usize,
}

/// A whole generator configuration, checked at once by `PasswordGenerator::from_config`.
#[derive(Clone, Copy, Debug, PartialEq, Eq, Structural)]
pub struct GeneratorConfig {
    /// The length asked for; with none, a length is drawn.
    pub length: Option<usize>,
    pub uppercase: CategoryRule,
    pub lowercase: CategoryRule,
    pub digits: CategoryRule,
    pub special: CategoryRule,
}

impl GeneratorConfig {
    /// Every category included at a minimum of one, and no length asked for.
    pub fn new() -> (r: Self)
        ensures
            r.length is None,
            forall|k: Category| #[trigger] r.rule(k) == (CategoryRule { included: true, min_count: 1 }),
    {
        let rule = CategoryRule { included: true, min_count: 1 };
        GeneratorConfig { length: None, uppercase: rule, lowercase: rule, digits: rule, special: rule }
    }

    pub open spec fn rule(&self, k: Category) -> CategoryRule {
        match k {
            Category::Uppercase => self.uppercase,
            Category::Lowercase => self.lowercase,
            Category::Digit => self.digits,
            Category::Special => self.special,
        }
    }

    /// The rules in the fixed order.
    pub open spec fn rule_seq(&self) -> Seq<CategoryRule> {
        seq![self.uppercase, self.lowercase, self.digits, self.special]
    }

    fn rules(&self) -> (r: Vec<CategoryRule>)
        ensures
            r@ == self.rule_seq(),
    {
        let mut r: Vec<CategoryRule> = Vec::new();
        r.push(self.uppercase);
        r.push(self.lowercase);
        r.push(self.digits);
        r.push(self.special);
        assert(r@ =~= self.rule_seq());
        r
    }

    pub open spec fn reserved(&self, k: Category) -> nat {
        if self.rule(k).included {
            self.rule(k).min_count as nat
        } else {
            0
        }
    }

    /// Sum of the minimums of the included categories.
    pub open spec fn required(&self) -> nat {
        self.reserved(Category::Uppercase) + self.reserved(Category::Lowercase) + self.reserved(
            Category::Digit,
        ) + self.reserved(Category::Special)
    }

    fn required_exec(&self) -> (r: u128)
        ensures
            r == self.required(),
    {
        let u = if self.uppercase.included { self.uppercase.min_count as u128 } else { 0 };
        let l = if self.lowercase.included { self.lowercase.min_count as u128 } else { 0 };
        let d = if self.digits.included { self.digits.min_count as u128 } else { 0 };
        let s = if self.special.included { self.special.min_count as u128 } else { 0 };
        u + l + d + s
    }

    /// The length asked for; else the sum of minimums where it exceeds `DEFAULT_MIN`; else
    /// the drawn length.
    pub open spec fn resolved_length(&self, drawn: int) -> int {
        resolve_length(self.length, self.required(), drawn)
    }

    /// Why the configuration is refused with the drawn length `drawn`, if it is.
    pub open spec fn refusal(&self, drawn: int) -> Option<ConfigError> {
        if !(self.uppercase.included || self.lowercase.included || self.digits.included
            || self.special.included) {
            Some(ConfigError::NoCategory)
        } else if exists|k: Category| #[trigger] self.rule(k).included && self.rule(k).min_count
            == 0 {
            Some(ConfigError::ZeroMinimum)
        } else if self.resolved_length(drawn) > usize::MAX {
            Some(ConfigError::TooLong)
        } else if self.resolved_length(drawn) < ALLOWED_MIN {
            Some(ConfigError::BelowFloor)
        } else if self.resolved_length(drawn) < self.required() {
            Some(ConfigError::BelowMinimums)
        } else {
            None
        }
    }

    /// A configuration is refused when it includes no category, when its length is below
    /// `ALLOWED_MIN`, or when its length is below the sum of the included minimums.
    pub proof fn lemma_refused_configurations(&self, drawn: int)
        ensures
            !(self.uppercase.included || self.lowercase.included || self.digits.included
                || self.special.included) ==> self.refusal(drawn) == Some(ConfigError::NoCategory),
            self.resolved_length(drawn) < ALLOWED_MIN ==> self.refusal(drawn) is Some,
            self.resolved_length(drawn) < self.required() ==> self.refusal(drawn) is Some,
            self.refusal(drawn) is None ==> ALLOWED_MIN <= self.resolved_length(drawn)
                && self.required() <= self.resolved_length(drawn),
    {
    }

    /// Any length drawn from the default range is refused or accepted alike.
    pub proof fn lemma_refusal_ignores_draw(&self, drawn: int)
        requires
            DEFAULT_MIN <= drawn <= DEFAULT_MAX,
        ensures
            self.refusal(drawn) == self.refusal(DEFAULT_MIN as int),
    {
    }
}

/// Category `j` in the fixed order Uppercase, Lowercase, Digit, Special.
pub open spec fn category_at(j: int) -> Category {
    if j == 0 {
        Category::Uppercase
    } else if j == 1 {
        Category::Lowercase
    } else if j == 2 {
        Category::Digit
    } else {
        Category::Special
    }
}

/// Position of a category in the fixed order.
pub open spec fn category_index(k: Category) -> int {
    match k {
        Category::Uppercase => 0,
        Category::Lowercase => 1,
        Category::Digit => 2,
        Category::Special => 3,
    }
}

pub fn category_of_index(j: usize) -> (r: Category)
    requires
        j < 4,
    ensures
        r == category_at(j as int),
        category_index(r) == j,
{
    if j == 0 {
        Category::Uppercase
    } else if j == 1 {
        Category::Lowercase
    } else if j == 2 {
        Category::Digit
    } else {
        Category::Special
    }
}

pub fn index_of_category(k: Category) -> (r: usize)
    ensures
        r == category_index(k),
        category_at(r as int) == k,
{
    match k {
        Category::Uppercase => 0,
        Category::Lowercase => 1,
        Category::Digit => 2,
        Category::Special => 3,
    }
}

/// `n` positions of category `k`.
pub open spec fn block(k: Category, n: nat) -> Seq<Category> {
    Seq::new(n, |_i: int| k)
}

/// Each pick is a position in the alphabet of the category at the same place.
pub open spec fn picks_fit(plan: Seq<Category>, picks: Seq<int>) -> bool {
    &&& picks.len() == plan.len()
    &&& forall|i: int| 0 <= i < picks.len() ==> 0 <= #[trigger] picks[i] < alphabet(plan[i]).len()
}

/// The characters picked: position `i` holds character `picks[i]` of the alphabet of
/// category `plan[i]`.
pub open spec fn spell(plan: Seq<Category>, picks: Seq<int>) -> Seq<char> {
    Seq::new(plan.len(), |i: int| alphabet(plan[i])[picks[i]])
}

proof fn lemma_spell_push(plan: Seq<Category>, picks: Seq<int>, k: Category, at: int)
    requires
        picks_fit(plan, picks),
        0 <= at < alphabet(k).len(),
    ensures
        picks_fit(plan.push(k), picks.push(at)),
        spell(plan.push(k), picks.push(at)) == spell(plan, picks).push(alphabet(k)[at]),
{
    assert(spell(plan.push(k), picks.push(at)) =~= spell(plan, picks).push(alphabet(k)[at]));
    assert forall|i: int| 0 <= i < picks.len() + 1 implies 0 <= #[trigger] picks.push(at)[i]
        < alphabet(plan.push(k)[i]).len() by {
        if i < picks.len() {
            assert(picks.push(at)[i] == picks[i]);
            assert(plan.push(k)[i] == plan[i]);
        }
    }
}

/// Builds passwords of a set length with a minimum count of characters from each included
/// category.
pub struct PasswordGenerator {
    length: usize,
    requested: Option<usize>,
    drawn: usize,
    alphabets: Vec<Vec<char>>,
    min_counts: Vec<usize>,
    included: Vec<bool>,
}

impl PasswordGenerator {
    /// Length of the passwords built.
    pub closed spec fn length_spec(&self) -> nat {
        self.length as nat
    }

    /// The length asked for, if one was.
    pub closed spec fn requested_spec(&self) -> Option<usize> {
        self.requested
    }

    /// The length drawn from `DEFAULT_MIN..=DEFAULT_MAX`, used where none was asked for.
    pub closed spec fn drawn_spec(&self) -> int {
        self.drawn as int
    }

    /// Minimum count asked for category `k`.
    pub closed spec fn min_spec(&self, k: Category) -> nat {
        self.min_counts@[category_index(k)] as nat
    }

    /// Whether passwords draw from category `k` at all.
    pub closed spec fn included_spec(&self, k: Category) -> bool {
        self.included@[category_index(k)]
    }

    /// The stored alphabets are the categories' alphabets, one per category.
    pub closed spec fn tables_ok(&self) -> bool {
        &&& self.alphabets@.len() == 4
        &&& self.min_counts@.len() == 4
        &&& self.included@.len() == 4
        &&& forall|j: int| 0 <= j < 4 ==> (#[trigger] self.alphabets@[j])@ == alphabet(category_at(j))
    }

    /// Characters that the first stage of generation puts in for category `k`.
    pub open spec fn reserved(&self, k: Category) -> nat {
        if self.included_spec(k) {
            self.min_spec(k)
        } else {
            0
        }
    }

    /// Sum of the minimums of the included categories.
    pub open spec fn required(&self) -> nat {
        self.reserved(Category::Uppercase) + self.reserved(Category::Lowercase) + self.reserved(
            Category::Digit,
        ) + self.reserved(Category::Special)
    }

    /// Sum of the reserved counts of the first `j` categories in the fixed order.
    pub open spec fn reserved_before(&self, j: int) -> nat {
        (if j > 0 {
            self.reserved(Category::Uppercase)
        } else {
            0
        }) + (if j > 1 {
            self.reserved(Category::Lowercase)
        } else {
            0
        }) + (if j > 2 {
            self.reserved(Category::Digit)
        } else {
            0
        }) + (if j > 3 {
            self.reserved(Category::Special)
        } else {
            0
        })
    }

    pub open spec fn any_included(&self) -> bool {
        self.included_spec(Category::Uppercase) || self.included_spec(Category::Lowercase)
            || self.included_spec(Category::Digit) || self.included_spec(Category::Special)
    }

    /// `c` belongs to an included category.
    pub open spec fn allowed(&self, c: char) -> bool {
        exists|k: Category| self.included_spec(k) && #[trigger] in_category(k, c)
    }

    pub open spec fn wf(&self) -> bool {
        &&& self.tables_ok()
        &&& DEFAULT_MIN <= self.drawn_spec() <= DEFAULT_MAX
        &&& self.length_spec() == resolve_length(
            self.requested_spec(),
            self.required(),
            self.drawn_spec(),
        )
        &&& self.length_spec() >= ALLOWED_MIN
        &&& self.length_spec() >= self.required()
        &&& self.any_included()
        &&& forall|k: Category| self.included_spec(k) ==> #[trigger] self.min_spec(k) >= 1
    }

    /// `self` and `other` ask the same of every category, and drew the same length.
    pub open spec fn same_rules(&self, other: &Self) -> bool {
        &&& self.drawn_spec() == other.drawn_spec()
        &&& forall|k: Category|
            #![trigger self.min_spec(k)]
            #![trigger other.min_spec(k)]
            self.min_spec(k) == other.min_spec(k) && self.included_spec(k)
                == other.included_spec(k)
    }

    /// `after` is `before` with category `k`'s rule replaced; the length asked for and the
    /// drawn length stay, and the length is resolved anew from them.
    pub open spec fn rule_replaced(
        before: &Self,
        after: &Self,
        k: Category,
        min_count: nat,
        included: bool,
    ) -> bool {
        &&& after.min_spec(k) == min_count
        &&& after.included_spec(k) == included
        &&& forall|l: Category|
            #![trigger after.min_spec(l)]
            l != k ==> after.min_spec(l) == before.min_spec(l) && after.included_spec(l)
                == before.included_spec(l)
        &&& after.requested_spec() == before.requested_spec()
        &&& after.drawn_spec() == before.drawn_spec()
        &&& after.length_spec() == resolve_length(
            before.requested_spec(),
            after.required(),
            before.drawn_spec(),
        )
    }

    /// A length was asked for, and `required` exceeds it.
    pub open spec fn exceeds_requested(&self, required: nat) -> bool {
        match self.requested_spec() {
            Some(n) => required > n,
            None => false,
        }
    }

    /// The sum of minimums once category `k`'s rule is replaced.
    pub open spec fn required_with(
        &self,
        k: Category,
        min_count: nat,
        included: bool,
    ) -> nat {
        (self.required() - self.reserved(k) + if included {
            min_count
        } else {
            0
        }) as nat
    }

    /// What `set_minimum(k, count)` does: refuse a zero count, refuse a sum of minimums above
    /// the length asked for, refuse one that no `usize` holds, else set the minimum.
    pub open spec fn minimum_set(
        before: &Self,
        after: &Self,
        k: Category,
        count: nat,
        r: Result<(), ConfigError>,
    ) -> bool {
        let incl = before.included_spec(k);
        if count == 0 {
            r == Err::<(), ConfigError>(ConfigError::ZeroMinimum) && after == before
        } else if before.exceeds_requested(before.required_with(k, count, incl)) {
            r == Err::<(), ConfigError>(ConfigError::BelowMinimums) && after == before
        } else if before.required_with(k, count, incl) > usize::MAX {
            r == Err::<(), ConfigError>(ConfigError::TooLong) && after == before
        } else {
            r == Ok::<(), ConfigError>(()) && Self::rule_replaced(before, after, k, count, incl)
        }
    }

    fn reserved_exec(&self, j: usize) -> (r: usize)
        requires
            self.tables_ok(),
            j < 4,
        ensures
            r == self.reserved(category_at(j as int)),
    {
        if self.included[j] {
            self.min_counts[j]
        } else {
            0
        }
    }

    fn required_exec(&self) -> (r: u128)
        requires
            self.tables_ok(),
        ensures
            r == self.required(),
    {
        self.reserved_exec(0) as u128 + self.reserved_exec(1) as u128 + self.reserved_exec(2) as u128
            + self.reserved_exec(3) as u128
    }

    fn with_rules(
        length: usize,
        requested: Option<usize>,
        drawn: usize,
        min_counts: Vec<usize>,
        included: Vec<bool>,
    ) -> (r: Self)
        requires
            min_counts@.len() == 4,
            included@.len() == 4,
        ensures
            r.tables_ok(),
            r.length_spec() == length,
            r.requested_spec() == requested,
            r.drawn_spec() == drawn,
            forall|k: Category|
                #![trigger r.min_spec(k)]
                r.min_spec(k) == min_counts@[category_index(k)] && r.included_spec(k)
                    == included@[category_index(k)],
    {
        let mut alphabets: Vec<Vec<char>> = Vec::new();
        alphabets.push(alphabet_chars(Category::Uppercase));
        alphabets.push(alphabet_chars(Category::Lowercase));
        alphabets.push(alphabet_chars(Category::Digit));
        alphabets.push(alphabet_chars(Category::Special));
        PasswordGenerator { length, requested, drawn, alphabets, min_counts, included }
    }

    /// A generator with every category included at a minimum of one, and a length drawn
    /// uniformly from `DEFAULT_MIN..=DEFAULT_MAX`.
    pub fn new() -> (r: Self)
        ensures
            r.wf(),
            DEFAULT_MIN <= r.length_spec() <= DEFAULT_MAX,
            r.requested_spec() is None,
            forall|k: Category| #[trigger] r.min_spec(k) == 1,
            forall|k: Category| #[trigger] r.included_spec(k),
    {
        let length = random_in_range(DEFAULT_MIN, DEFAULT_MAX + 1);
        let mut min_counts: Vec<usize> = Vec::new();
        let mut included: Vec<bool> = Vec::new();
        let mut j: usize = 0;
        while j < 4
            invariant
                j <= 4,
                min_counts@.len() == j,
                included@.len() == j,
                forall|i: int| 0 <= i < j ==> min_counts@[i] == 1 && included@[i],
            decreases 4 - j,
        {
            min_counts.push(1);
            included.push(true);
            j = j + 1;
        }
        let ghost mins = min_counts@;
        let ghost incl = included@;
        let g = Self::with_rules(length, None, length, min_counts, included);
        assert forall|k: Category| #[trigger] g.min_spec(k) == 1 by {
            assert(g.min_spec(k) == mins[category_index(k)]);
        }
        assert forall|k: Category| #[trigger] g.included_spec(k) by {
            assert(g.min_spec(k) == mins[category_index(k)]);
            assert(g.included_spec(k) == incl[category_index(k)]);
        }
        assert(g.min_spec(Category::Uppercase) == 1);
        assert(g.wf());
        g
    }

    /// Asks for a length of the passwords built.
    pub fn length(&mut self, length: usize) -> (r: Result<(), ConfigError>)
        requires
            old(self).wf(),
        ensures
            final(self).wf(),
            length < ALLOWED_MIN ==> r == Err::<(), ConfigError>(ConfigError::BelowFloor)
                && *final(self) == *old(self),
            ALLOWED_MIN <= length < old(self).required() ==> r == Err::<(), ConfigError>(
                ConfigError::BelowMinimums,
            ) && *final(self) == *old(self),
            ALLOWED_MIN <= length && old(self).required() <= length ==> r == Ok::<
                (),
                ConfigError,
            >(()) && final(self).length_spec() == length && final(self).requested_spec() == Some(
                length,
            ) && final(self).same_rules(&*old(self)),
    {
        if length < ALLOWED_MIN {
            return Err(ConfigError::BelowFloor);
        }
        if (length as u128) < self.required_exec() {
            return Err(ConfigError::BelowMinimums);
        }
        self.length = length;
        self.requested = Some(length);
        Ok(())
    }

    /// Replaces category `k`'s rule, given the new sum of minimums, and resolves the length
    /// anew.
    fn replace_rule(&mut self, k: Category, min_count: usize, included: bool, next: u128)
        requires
            old(self).wf(),
            next == old(self).required_with(k, min_count as nat, included),
            next <= usize::MAX,
            !old(self).exceeds_requested(next as nat),
            included ==> min_count >= 1,
            included || old(self).other_included(k),
        ensures
            final(self).wf(),
            Self::rule_replaced(&*old(self), &*final(self), k, min_count as nat, included),
    {
        let j = index_of_category(k);
        let ghost before = *self;
        self.min_counts.set(j, min_count);
        self.included.set(j, included);
        self.length = match self.requested {
            Some(n) => n,
            None => if next > DEFAULT_MIN as u128 {
                next as usize
            } else {
                self.drawn
            },
        };
        assert(forall|l: Category| l != k ==> category_index(l) != category_index(k));
        assert(self.included_spec(k) == included);
        assert(self.min_spec(k) == min_count);
        assert(self.required() == next);
        proof {
            if !included {
                let l = choose|l: Category| l != k && #[trigger] before.included_spec(l);
                assert(self.included_spec(l));
            }
        }
    }

    fn above_requested(&self, required: u128) -> (r: bool)
        ensures
            r == self.exceeds_requested(required as nat),
    {
        match self.requested {
            Some(n) => required > n as u128,
            None => false,
        }
    }

    /// Sets the minimum count of category `k`; see `minimum_set`.
    pub fn set_minimum(&mut self, k: Category, count: usize) -> (r: Result<(), ConfigError>)
        requires
            old(self).wf(),
        ensures
            final(self).wf(),
            Self::minimum_set(&*old(self), &*final(self), k, count as nat, r),
    {
        if count == 0 {
            return Err(ConfigError::ZeroMinimum);
        }
        let j = index_of_category(k);
        let now = self.required_exec();
        let mine = self.reserved_exec(j) as u128;
        let next = if self.included[j] {
            now - mine + count as u128
        } else {
            now
        };
        if self.above_requested(next) {
            return Err(ConfigError::BelowMinimums);
        }
        if next > usize::MAX as u128 {
            return Err(ConfigError::TooLong);
        }
        let included = self.included[j];
        proof {
            if !included {
                assert(self.any_included());
                assert(self.other_included(k)) by {
                    let l = if self.included_spec(Category::Uppercase) {
                        Category::Uppercase
                    } else if self.included_spec(Category::Lowercase) {
                        Category::Lowercase
                    } else if self.included_spec(Category::Digit) {
                        Category::Digit
                    } else {
                        Category::Special
                    };
                    assert(self.included_spec(l));
                }
            }
        }
        self.replace_rule(k, count, included, next);
        Ok(())
    }

    /// Sets the minimum count of uppercase letters.
    pub fn min_upper(&mut self, count: usize) -> (r: Result<(), ConfigError>)
        requires
            old(self).wf(),
        ensures
            final(self).wf(),
            Self::minimum_set(&*old(self), &*final(self), Category::Uppercase, count as nat, r),
    {
        self.set_minimum(Category::Uppercase, count)
    }

    /// Sets the minimum count of lowercase letters.
    pub fn min_lower(&mut self, count: usize) -> (r: Result<(), ConfigError>)
        requires
            old(self).wf(),
        ensures
            final(self).wf(),
            Self::minimum_set(&*old(self), &*final(self), Category::Lowercase, count as nat, r),
    {
        self.set_minimum(Category::Lowercase, count)
    }

    /// Sets the minimum count of digits.
    pub fn min_digits(&mut self, count: usize) -> (r: Result<(), ConfigError>)
        requires
            old(self).wf(),
        ensures
            final(self).wf(),
            Self::minimum_set(&*old(self), &*final(self), Category::Digit, count as nat, r),
    {
        self.set_minimum(Category::Digit, count)
    }

    /// Sets the minimum count of special characters.
    pub fn min_special(&mut self, count: usize) -> (r: Result<(), ConfigError>)
        requires
            old(self).wf(),
        ensures
            final(self).wf(),
            Self::minimum_set(&*old(self), &*final(self), Category::Special, count as nat, r),
    {
        self.set_minimum(Category::Special, count)
    }

    /// A character drawn uniformly from the alphabet of category `j`, with its position there.
    fn draw(&self, j: usize) -> (r: (char, usize))
        requires
            self.tables_ok(),
            j < 4,
        ensures
            r.1 < alphabet(category_at(j as int)).len(),
            r.0 == alphabet(category_at(j as int))[r.1 as int],
            in_category(category_at(j as int), r.0),
    {
        proof {
            lemma_alphabet_len(category_at(j as int));
        }
        let chars = &self.alphabets[j];
        let i = random_in_range(0, chars.len());
        assert(alphabet(category_at(j as int)).contains(chars@[i as int]));
        (chars[i], i)
    }

    /// The positions, in the fixed order, of the included categories.
    fn included_indices(&self) -> (r: Vec<usize>)
        requires
            self.wf(),
        ensures
            r@.len() >= 1,
            forall|i: int|
                0 <= i < r@.len() ==> #[trigger] r@[i] < 4 && self.included_spec(
                    category_at(r@[i] as int),
                ),
    {
        let mut r: Vec<usize> = Vec::new();
        let mut j: usize = 0;
        while j < 4
            invariant
                self.wf(),
                j <= 4,
                forall|i: int|
                    0 <= i < r@.len() ==> #[trigger] r@[i] < 4 && self.included_spec(
                        category_at(r@[i] as int),
                    ),
                r@.len() == 0 ==> forall|i: int| 0 <= i < j ==> !self.included_spec(category_at(i)),
            decreases 4 - j,
        {
            if self.included[j] {
                r.push(j);
            }
            j = j + 1;
        }
        if r.len() == 0 {
            assert(!self.included_spec(category_at(0)));
            assert(!self.included_spec(category_at(1)));
            assert(!self.included_spec(category_at(2)));
            assert(!self.included_spec(category_at(3)));
        }
        r
    }

    /// What every password built by `generate_password` satisfies, whatever was drawn: it has
    /// the configured length, only characters of included categories, at least the minimum
    /// of each category, and no more of one category than its minimum plus the positions
    /// left over after all minimums.
    pub open spec fn produces(&self, pw: Seq<char>) -> bool {
        &&& pw.len() == self.length_spec()
        &&& forall|i: int| 0 <= i < pw.len() ==> self.allowed(#[trigger] pw[i])
        &&& forall|k: Category| #[trigger] count_in(pw, k) >= self.reserved(k)
        &&& forall|k: Category|
            #[trigger] count_in(pw, k) <= self.reserved(k) + (self.length_spec() - self.required())
    }

    /// The category of each position of the first stage, for the first `j` categories in the
    /// fixed order: each included category as many times as its minimum.
    pub open spec fn blocks_before(&self, j: int) -> Seq<Category> {
        (if j > 0 {
            block(Category::Uppercase, self.reserved(Category::Uppercase))
        } else {
            Seq::empty()
        }) + (if j > 1 {
            block(Category::Lowercase, self.reserved(Category::Lowercase))
        } else {
            Seq::empty()
        }) + (if j > 2 {
            block(Category::Digit, self.reserved(Category::Digit))
        } else {
            Seq::empty()
        }) + (if j > 3 {
            block(Category::Special, self.reserved(Category::Special))
        } else {
            Seq::empty()
        })
    }

    /// The category of each position before the shuffle: the first stage's minimums, then
    /// the categories `free` drawn for the remaining positions.
    pub open spec fn fill_plan(&self, free: Seq<Category>) -> Seq<Category> {
        self.blocks_before(4) + free
    }

    /// `free` and `picks` are draws that the two stages can make: one included category for
    /// each position left after the minimums, and one position in the alphabet of each
    /// position's category.
    pub open spec fn valid_draws(&self, free: Seq<Category>, picks: Seq<int>) -> bool {
        &&& self.required() + free.len() == self.length_spec()
        &&& forall|i: int| 0 <= i < free.len() ==> self.included_spec(#[trigger] free[i])
        &&& picks.len() == self.fill_plan(free).len()
        &&& forall|i: int|
            0 <= i < picks.len() ==> 0 <= #[trigger] picks[i] < alphabet(
                self.fill_plan(free)[i],
            ).len()
    }

    /// `pw` is a reordering of the two-stage fill for some draws.
    pub open spec fn shuffled_fill(&self, pw: Seq<char>) -> bool {
        exists|free: Seq<Category>, picks: Seq<int>|
            self.valid_draws(free, picks) && pw.to_multiset() == spell(
                self.fill_plan(free),
                picks,
            ).to_multiset()
    }

    /// A password of the configured length.
    ///
    /// First, for each included category in the fixed order, as many characters as its
    /// minimum, each drawn uniformly from its alphabet. Then each remaining position gets a
    /// uniformly drawn included category and a uniformly drawn character of it. Last, the
    /// whole sequence is shuffled.
    pub fn generate_password(&self) -> (r: String)
        requires
            self.wf(),
        ensures
            self.produces(r@),
            self.shuffled_fill(r@),
    {
        let mut pw: Vec<char> = Vec::new();
        let mut remaining: usize = self.length;
        let ghost mut plan: Seq<Category> = Seq::empty();
        let ghost mut picks: Seq<int> = Seq::empty();
        assert(pw@ =~= spell(plan, picks));
        assert(plan =~= self.blocks_before(0));
        proof {
            assert forall|k: Category| #[trigger] count_in(pw@, k) == 0 by {
                lemma_count_empty(k);
                assert(pw@ =~= Seq::<char>::empty());
            }
        }
        let mut j: usize = 0;
        while j < 4
            invariant
                self.wf(),
                j <= 4,
                pw@.len() + remaining == self.length_spec(),
                pw@.len() == self.reserved_before(j as int),
                plan == self.blocks_before(j as int),
                picks_fit(plan, picks),
                pw@ == spell(plan, picks),
                forall|k: Category|
                    #[trigger] count_in(pw@, k) == if category_index(k) < j {
                        self.reserved(k)
                    } else {
                        0
                    },
                forall|i: int| 0 <= i < pw@.len() ==> self.allowed(#[trigger] pw@[i]),
            decreases 4 - j,
        {
            let k = category_of_index(j);
            if self.included[j] {
                let want = self.min_counts[j];
                let need = if want < remaining {
                    want
                } else {
                    remaining
                };
                assert(need == self.reserved(k));
                let mut t: usize = 0;
                assert(plan =~= self.blocks_before(j as int) + block(k, 0));
                while t < need
                    invariant
                        self.wf(),
                        j < 4,
                        k == category_at(j as int),
                        category_index(k) == j,
                        self.included_spec(k),
                        need == self.reserved(k),
                        t <= need,
                        pw@.len() + remaining == self.length_spec(),
                        pw@.len() == self.reserved_before(j as int) + t,
                        plan == self.blocks_before(j as int) + block(k, t as nat),
                        picks_fit(plan, picks),
                        pw@ == spell(plan, picks),
                        forall|l: Category|
                            #[trigger] count_in(pw@, l) == if l == k {
                                t as nat
                            } else if category_index(l) < j {
                                self.reserved(l)
                            } else {
                                0
                            },
                        forall|i: int| 0 <= i < pw@.len() ==> self.allowed(#[trigger] pw@[i]),
                    decreases need - t,
                {
                    let (c, at) = self.draw(j);
                    let ghost before = pw@;
                    pw.push(c);
                    proof {
                        lemma_spell_push(plan, picks, k, at as int);
                        assert(self.blocks_before(j as int) + block(k, (t + 1) as nat) =~= (
                        self.blocks_before(j as int) + block(k, t as nat)).push(k));
                        plan = plan.push(k);
                        picks = picks.push(at as int);
                        assert forall|l: Category|
                            #[trigger] count_in(pw@, l) == if l == k {
                                (t + 1) as nat
                            } else if category_index(l) < j {
                                self.reserved(l)
                            } else {
                                0
                            } by {
                            lemma_count_push(before, c, l);
                            if in_category(l, c) {
                                lemma_categories_disjoint(c, k, l);
                            }
                        }
                        assert forall|i: int| 0 <= i < pw@.len() implies self.allowed(
                            #[trigger] pw@[i],
                        ) by {
                            if i == before.len() {
                                assert(self.included_spec(k) && in_category(k, c));
                            } else {
                                assert(pw@[i] == before[i]);
                            }
                        }
                    }
                    remaining = remaining - 1;
                    t = t + 1;
                }
                assert(plan =~= self.blocks_before(j + 1));
            } else {
                assert(self.reserved(k) == 0);
                assert(plan =~= self.blocks_before(j + 1));
            }
            j = j + 1;
        }
        let ghost mut free: Seq<Category> = Seq::empty();
        assert(plan =~= self.fill_plan(free));
        let choices = self.included_indices();
        while remaining > 0
            invariant
                self.wf(),
                choices@.len() >= 1,
                forall|i: int|
                    0 <= i < choices@.len() ==> #[trigger] choices@[i] < 4 && self.included_spec(
                        category_at(choices@[i] as int),
                    ),
                pw@.len() + remaining == self.length_spec(),
                pw@.len() >= self.required(),
                pw@.len() == self.required() + free.len(),
                forall|i: int| 0 <= i < free.len() ==> self.included_spec(#[trigger] free[i]),
                plan == self.fill_plan(free),
                picks_fit(plan, picks),
                pw@ == spell(plan, picks),
                forall|k: Category| #[trigger] count_in(pw@, k) >= self.reserved(k),
                forall|k: Category|
                    #[trigger] count_in(pw@, k) <= self.reserved(k) + (pw@.len() - self.required()),
                forall|i: int| 0 <= i < pw@.len() ==> self.allowed(#[trigger] pw@[i]),
            decreases remaining,
        {
            let pick = random_in_range(0, choices.len());
            let j = choices[pick];
            let ghost k = category_at(j as int);
            let (c, at) = self.draw(j);
            let ghost before = pw@;
            pw.push(c);
            proof {
                assert(self.included_spec(k));
                lemma_spell_push(plan, picks, k, at as int);
                assert(self.fill_plan(free.push(k)) =~= self.fill_plan(free).push(k));
                plan = plan.push(k);
                picks = picks.push(at as int);
                free = free.push(k);
                assert forall|l: Category| #[trigger] count_in(pw@, l) >= self.reserved(l) by {
                    lemma_count_push(before, c, l);
                }
                assert forall|l: Category|
                    #[trigger] count_in(pw@, l) <= self.reserved(l) + (pw@.len()
                        - self.required()) by {
                    lemma_count_push(before, c, l);
                }
                assert forall|i: int| 0 <= i < pw@.len() implies self.allowed(
                    #[trigger] pw@[i],
                ) by {
                    if i == before.len() {
                        assert(self.included_spec(k) && in_category(k, c));
                    } else {
                        assert(pw@[i] == before[i]);
                    }
                }
            }
            remaining = remaining - 1;
        }
        let ghost unshuffled = pw@;
        shuffle_chars(&mut pw);
        proof {
            broadcast use vstd::seq_lib::group_to_multiset_ensures;

            assert forall|k: Category| #[trigger] count_in(pw@, k) == count_in(unshuffled, k) by {
                lemma_count_permutation(pw@, unshuffled, k);
            }
            assert forall|i: int| 0 <= i < pw@.len() implies self.allowed(#[trigger] pw@[i]) by {
                let c = pw@[i];
                assert(pw@.to_multiset().count(c) > 0);
                assert(unshuffled.contains(c));
                let m = choose|m: int| 0 <= m < unshuffled.len() && unshuffled[m] == c;
                assert(self.allowed(unshuffled[m]));
            }
            assert(self.valid_draws(free, picks));
            assert(pw@.to_multiset() == spell(self.fill_plan(free), picks).to_multiset());
        }
        string_from_chars(&pw)
    }

    /// Some category other than `k` is included.
    pub open spec fn other_included(&self, k: Category) -> bool {
        exists|l: Category| l != k && #[trigger] self.included_spec(l)
    }

    /// What `set_included(k, included)` does: refuse to leave no category, refuse to include
    /// a category whose minimum is zero, or whose minimum takes the sum above the length asked
    /// for or beyond a `usize`, else switch the category.
    pub open spec fn inclusion_set(
        before: &Self,
        after: &Self,
        k: Category,
        included: bool,
        r: Result<(), ConfigError>,
    ) -> bool {
        if !included && !before.other_included(k) {
            r == Err::<(), ConfigError>(ConfigError::NoCategory) && after == before
        } else if included && before.min_spec(k) == 0 {
            r == Err::<(), ConfigError>(ConfigError::ZeroMinimum) && after == before
        } else if before.exceeds_requested(before.required_with(k, before.min_spec(k), included)) {
            r == Err::<(), ConfigError>(ConfigError::BelowMinimums) && after == before
        } else if before.required_with(k, before.min_spec(k), included) > usize::MAX {
            r == Err::<(), ConfigError>(ConfigError::TooLong) && after == before
        } else {
            r == Ok::<(), ConfigError>(()) && Self::rule_replaced(
                before,
                after,
                k,
                before.min_spec(k),
                included,
            )
        }
    }

    fn other_included_exec(&self, k: Category) -> (r: bool)
        requires
            self.tables_ok(),
        ensures
            r == self.other_included(k),
    {
        let j = index_of_category(k);
        let mut i: usize = 0;
        while i < 4
            invariant
                self.tables_ok(),
                j == category_index(k),
                i <= 4,
                forall|l: int| 0 <= l < i && l != j ==> !self.included@[l],
            decreases 4 - i,
        {
            if i != j && self.included[i] {
                assert(category_at(i as int) != k);
                assert(self.included_spec(category_at(i as int)));
                return true;
            }
            i = i + 1;
        }
        assert forall|l: Category| l != k implies !#[trigger] self.included_spec(l) by {
            assert(category_index(l) != j);
            assert(0 <= category_index(l) < 4);
        }
        false
    }

    /// Includes or excludes category `k`; see `inclusion_set`.
    pub fn set_included(&mut self, k: Category, included: bool) -> (r: Result<(), ConfigError>)
        requires
            old(self).wf(),
        ensures
            final(self).wf(),
            Self::inclusion_set(&*old(self), &*final(self), k, included, r),
    {
        let j = index_of_category(k);
        if !included {
            if !self.other_included_exec(k) {
                return Err(ConfigError::NoCategory);
            }
        } else if self.min_counts[j] == 0 {
            return Err(ConfigError::ZeroMinimum);
        }
        let now = self.required_exec();
        let mine = self.reserved_exec(j) as u128;
        let next = if included {
            now - mine + self.min_counts[j] as u128
        } else {
            now - mine
        };
        if self.above_requested(next) {
            return Err(ConfigError::BelowMinimums);
        }
        if next > usize::MAX as u128 {
            return Err(ConfigError::TooLong);
        }
        let min_count = self.min_counts[j];
        self.replace_rule(k, min_count, included, next);
        Ok(())
    }

    /// A generator with the rules of `config`; `drawn_length`, a length from the default
    /// range, is used where the configuration gives none and its minimums do not call for
    /// more. The generator keeps both, so that later setters resolve the length the same way.
    pub fn from_config(config: &GeneratorConfig, drawn_length: usize) -> (r: Result<
        Self,
        ConfigError,
    >)
        requires
            DEFAULT_MIN <= drawn_length <= DEFAULT_MAX,
        ensures
            match r {
                Ok(g) => config.refusal(drawn_length as int) is None && g.wf() && g.follows(
                    config,
                    drawn_length as int,
                ),
                Err(e) => config.refusal(drawn_length as int) == Some(e),
            },
    {
        let rules = config.rules();
        let mut any = false;
        let mut zero = false;
        let mut i: usize = 0;
        while i < 4
            invariant
                rules@ == config.rule_seq(),
                i <= 4,
                any == exists|l: int| 0 <= l < i && (#[trigger] rules@[l]).included,
                zero == exists|l: int|
                    0 <= l < i && (#[trigger] rules@[l]).included && rules@[l].min_count == 0,
            decreases 4 - i,
        {
            if rules[i].included {
                any = true;
                if rules[i].min_count == 0 {
                    zero = true;
                }
            }
            i = i + 1;
        }
        if !any {
            proof {
                assert(!rules@[0].included && !rules@[1].included);
                assert(!rules@[2].included && !rules@[3].included);
            }
            return Err(ConfigError::NoCategory);
        }
        if zero {
            proof {
                let l = choose|l: int|
                    0 <= l < 4 && (#[trigger] rules@[l]).included && rules@[l].min_count == 0;
                assert(config.rule(category_at(l)) == rules@[l]);
            }
            return Err(ConfigError::ZeroMinimum);
        }
        proof {
            assert forall|k: Category| #[trigger] config.rule(k).included implies config.rule(
                k,
            ).min_count >= 1 by {
                assert(config.rule(k) == rules@[category_index(k)]);
            }
        }
        let required = config.required_exec();
        let resolved: u128 = match config.length {
            Some(n) => n as u128,
            None => if required > DEFAULT_MIN as u128 {
                required
            } else {
                drawn_length as u128
            },
        };
        if resolved > usize::MAX as u128 {
            return Err(ConfigError::TooLong);
        }
        if resolved < ALLOWED_MIN as u128 {
            return Err(ConfigError::BelowFloor);
        }
        if resolved < required {
            return Err(ConfigError::BelowMinimums);
        }
        let mut min_counts: Vec<usize> = Vec::new();
        let mut included: Vec<bool> = Vec::new();
        min_counts.push(config.uppercase.min_count);
        min_counts.push(config.lowercase.min_count);
        min_counts.push(config.digits.min_count);
        min_counts.push(config.special.min_count);
        included.push(config.uppercase.included);
        included.push(config.lowercase.included);
        included.push(config.digits.included);
        included.push(config.special.included);
        assert(forall|l: int|
            #![trigger min_counts@[l]]
            0 <= l < 4 ==> min_counts@[l] == rules@[l].min_count && included@[l]
                == rules@[l].included);
        let ghost mins = min_counts@;
        let ghost incl = included@;
        let g = Self::with_rules(
            resolved as usize,
            config.length,
            drawn_length,
            min_counts,
            included,
        );
        proof {
            assert forall|k: Category| #[trigger] g.min_spec(k) == config.rule(k).min_count by {
                assert(g.min_spec(k) == mins[category_index(k)]);
                assert(config.rule(k) == rules@[category_index(k)]);
            }
            assert forall|k: Category| #[trigger] g.included_spec(k) == config.rule(k).included by {
                assert(g.min_spec(k) == mins[category_index(k)]);
                assert(g.included_spec(k) == incl[category_index(k)]);
                assert(config.rule(k) == rules@[category_index(k)]);
            }
            assert(g.reserved(Category::Uppercase) == config.reserved(Category::Uppercase));
            assert(g.reserved(Category::Lowercase) == config.reserved(Category::Lowercase));
            assert(g.reserved(Category::Digit) == config.reserved(Category::Digit));
            assert(g.reserved(Category::Special) == config.reserved(Category::Special));
            let l = choose|l: int| 0 <= l < 4 && (#[trigger] rules@[l]).included;
            assert(config.rule(category_at(l)) == rules@[l]);
            assert(g.included_spec(category_at(l)));
            assert forall|k: Category| #[trigger] g.included_spec(k) implies g.min_spec(k) >= 1 by {
                assert(config.rule(k).included);
            }
        }
        Ok(g)
    }

    /// A generator with the rules of `config`, drawing the length uniformly from
    /// `DEFAULT_MIN..=DEFAULT_MAX` where the configuration gives none and its minimums do
    /// not call for more. Whether it is refused does not depend on that draw.
    pub fn build(config: &GeneratorConfig) -> (r: Result<Self, ConfigError>)
        ensures
            match r {
                Ok(g) => config.refusal(DEFAULT_MIN as int) is None && g.wf() && exists|d: int|
                    DEFAULT_MIN <= d <= DEFAULT_MAX && #[trigger] g.follows(config, d),
                Err(e) => config.refusal(DEFAULT_MIN as int) == Some(e),
            },
    {
        let drawn = random_in_range(DEFAULT_MIN, DEFAULT_MAX + 1);
        proof {
            config.lemma_refusal_ignores_draw(drawn as int);
        }
        Self::from_config(config, drawn)
    }

    /// `self` has the rules of `config`, and the length it resolves to with `drawn`.
    pub open spec fn follows(&self, config: &GeneratorConfig, drawn: int) -> bool {
        &&& self.length_spec() == config.resolved_length(drawn)
        &&& self.requested_spec() == config.length
        &&& self.drawn_spec() == drawn
        &&& forall|k: Category|
            #![trigger self.min_spec(k)]
            self.min_spec(k) == config.rule(k).min_count && self.included_spec(k) == config.rule(
                k,
            ).included
    }

    /// When the minimums of the included categories add up to the whole length, a generated
    /// password holds exactly the minimum of each category.
    pub proof fn lemma_minimums_fill_length(&self, pw: Seq<char>)
        requires
            self.wf(),
            self.produces(pw),
            self.required() == self.length_spec(),
        ensures
            forall|k: Category| #[trigger] count_in(pw, k) == self.reserved(k),
    {
        assert forall|k: Category| #[trigger] count_in(pw, k) == self.reserved(k) by {
            assert(count_in(pw, k) >= self.reserved(k));
            assert(count_in(pw, k) <= self.reserved(k) + (self.length_spec() - self.required()));
        }
    }
}

} // verus!
