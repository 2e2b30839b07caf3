use vstd::prelude::*;

use crate::charset::{
    alphabet, char_in_category, has_category, in_category, lemma_alphabet_distinct,
    lemma_alphabet_len, lemma_categories_disjoint, to_chars, Category,
};
use crate::common::CommonPasswords;
use crate::entropy::{entropy_above, entropy_exceeds};
use crate::generator::{PasswordGenerator, ALLOWED_MIN};
use crate::pattern::{has_repeat, repeated_pattern_in};

verus! {

/// The verdict on a password, weakest first; `Common` marks a listed weak password.
#[derive(Clone, Copy, Debug, PartialEq, Eq, Structural)]
pub enum Strength {
    Common,
    VeryWeak,
    Weak,
    Medium,
    Strong,
    VeryStrong,
}

/// Number of categories that `s` draws at least one character from.
pub open spec fn variety(s: Seq<char>) -> nat {
    (if has_category(s, Category::Uppercase) {
        1nat
    } else {
        0
    }) + (if has_category(s, Category::Lowercase) {
        1nat
    } else {
        0
    }) + (if has_category(s, Category::Digit) {
        1nat
    } else {
        0
    }) + (if has_category(s, Category::Special) {
        1nat
    } else {
        0
    })
}

/// Number of distinct characters in the union of the alphabets that `s` draws from, written
/// as the sum of their sizes; `lemma_pool_size_is_distinct_count` shows that this counts
/// `pool(s)`.
pub open spec fn pool_size(s: Seq<char>) -> nat {
    (if has_category(s, Category::Uppercase) {
        alphabet(Category::Uppercase).len()
    } else {
        0
    }) + (if has_category(s, Category::Lowercase) {
        alphabet(Category::Lowercase).len()
    } else {
        0
    }) + (if has_category(s, Category::Digit) {
        alphabet(Category::Digit).len()
    } else {
        0
    }) + (if has_category(s, Category::Special) {
        alphabet(Category::Special).len()
    } else {
        0
    })
}

/// The characters of every alphabet that `s` draws from.
pub open spec fn pool(s: Seq<char>) -> Set<char> {
    Set::new(|c: char| exists|k: Category| has_category(s, k) && #[trigger] in_category(k, c))
}

spec fn pool_part(s: Seq<char>, k: Category) -> Set<char> {
    if has_category(s, k) {
        alphabet(k).to_set()
    } else {
        Set::empty()
    }
}

proof fn lemma_pool_part(s: Seq<char>, k: Category)
    ensures
        pool_part(s, k).finite(),
        pool_part(s, k).len() == if has_category(s, k) {
            alphabet(k).len()
        } else {
            0
        },
{
    broadcast use vstd::set::group_set_axioms;
    broadcast use vstd::seq_lib::seq_to_set_is_finite;

    lemma_alphabet_distinct(k);
    alphabet(k).unique_seq_to_set();
}

/// `pool_size` counts the distinct characters of `pool`.
pub proof fn lemma_pool_size_is_distinct_count(s: Seq<char>)
    ensures
        pool(s).finite(),
        pool(s).len() == pool_size(s),
{
    broadcast use vstd::set::group_set_axioms;
    broadcast use vstd::set_lib::lemma_set_disjoint_lens;

    let u = pool_part(s, Category::Uppercase);
    let l = pool_part(s, Category::Lowercase);
    let d = pool_part(s, Category::Digit);
    let p = pool_part(s, Category::Special);
    lemma_pool_part(s, Category::Uppercase);
    lemma_pool_part(s, Category::Lowercase);
    lemma_pool_part(s, Category::Digit);
    lemma_pool_part(s, Category::Special);
    assert forall|c: char, a: Category, b: Category|
        pool_part(s, a).contains(c) && pool_part(s, b).contains(c) implies a == b by {
        lemma_categories_disjoint(c, a, b);
    }
    assert(u.disjoint(l));
    assert((u + l).disjoint(d));
    assert((u + l + d).disjoint(p));
    assert(pool(s) =~= u + l + d + p) by {
        assert forall|c: char| #[trigger] pool(s).contains(c) implies (u + l + d + p).contains(c) by {
            let k = choose|k: Category| has_category(s, k) && #[trigger] in_category(k, c);
            assert(pool_part(s, k).contains(c));
        }
        assert forall|c: char| #[trigger] (u + l + d + p).contains(c) implies pool(s).contains(c) by {
            let k = if u.contains(c) {
                Category::Uppercase
            } else if l.contains(c) {
                Category::Lowercase
            } else if d.contains(c) {
                Category::Digit
            } else {
                Category::Special
            };
            assert(pool_part(s, k).contains(c));
            assert(has_category(s, k) && in_category(k, c));
        }
    }
}

/// The base score from the entropy estimate `floor(len * log2(pool))`.
pub open spec fn entropy_score(pool: nat, len: nat) -> int {
    if entropy_exceeds(pool, len, 128) {
        3
    } else if entropy_exceeds(pool, len, 60) {
        1
    } else if entropy_exceeds(pool, len, 36) {
        0
    } else if entropy_exceeds(pool, len, 28) {
        -2
    } else {
        -3
    }
}

/// Bonus for the number of categories used: all four score best, exactly two score a
/// little, any other number costs a point.
pub open spec fn variety_bonus(v: nat) -> int {
    if v == 4 {
        2
    } else if v == 2 {
        1
    } else {
        -1
    }
}

/// The score before clamping: entropy, variety, and a point off for a repeated pattern.
pub open spec fn raw_score(s: Seq<char>) -> int {
    entropy_score(pool_size(s), s.len()) + variety_bonus(variety(s)) - if has_repeat(s) {
        1int
    } else {
        0
    }
}

pub open spec fn clamp_score(x: int) -> int {
    if x < -2 {
        -2
    } else if x > 2 {
        2
    } else {
        x
    }
}

/// The verdict for a score in `-2..=2`.
pub open spec fn verdict(x: int) -> Strength {
    if x <= -2 {
        Strength::VeryWeak
    } else if x == -1 {
        Strength::Weak
    } else if x == 0 {
        Strength::Medium
    } else if x == 1 {
        Strength::Strong
    } else {
        Strength::VeryStrong
    }
}

/// The verdict on `pw`: a listed password is `Common` when the list is consulted; a password
/// shorter than `ALLOWED_MIN` is `VeryWeak`; any other is scored.
pub open spec fn strength_of(pw: Seq<char>, check_common: bool, common: Seq<Seq<char>>) -> Strength {
    if check_common && common.contains(pw) {
        Strength::Common
    } else if pw.len() < ALLOWED_MIN {
        Strength::VeryWeak
    } else {
        verdict(clamp_score(raw_score(pw)))
    }
}

/// Whether some character of `s` belongs to category `k`.
pub fn uses_category(s: &Vec<char>, k: Category) -> (r: bool)
    ensures
        r == has_category(s@, k),
{
    let mut i: usize = 0;
    while i < s.len()
        invariant
            i <= s@.len(),
            forall|j: int| 0 <= j < i ==> !in_category(k, #[trigger] s@[j]),
        decreases s@.len() - i,
    {
        if char_in_category(k, s[i]) {
            return true;
        }
        i = i + 1;
    }
    false
}

fn size_if(used: bool, k: Category) -> (r: u64)
    ensures
        r == if used {
            alphabet(k).len()
        } else {
            0
        },
        r <= 33,
{
    proof {
        lemma_alphabet_len(k);
    }
    if !used {
        0
    } else {
        match k {
            Category::Uppercase => 25,
            Category::Lowercase => 26,
            Category::Digit => 10,
            Category::Special => 33,
        }
    }
}

/// The score of a password, before clamping.
pub fn score(pw: &Vec<char>) -> (r: i32)
    ensures
        r == raw_score(pw@),
{
    let upper = uses_category(pw, Category::Uppercase);
    let lower = uses_category(pw, Category::Lowercase);
    let digit = uses_category(pw, Category::Digit);
    let special = uses_category(pw, Category::Special);
    let pool = size_if(upper, Category::Uppercase) + size_if(lower, Category::Lowercase) + size_if(
        digit,
        Category::Digit,
    ) + size_if(special, Category::Special);
    let variety = upper as u32 + lower as u32 + digit as u32 + special as u32;
    let len = pw.len();
    let base: i32 = if entropy_above(pool, len, 128) {
        3
    } else if entropy_above(pool, len, 60) {
        1
    } else if entropy_above(pool, len, 36) {
        0
    } else if entropy_above(pool, len, 28) {
        -2
    } else {
        -3
    };
    let bonus: i32 = if variety == 4 {
        2
    } else if variety == 2 {
        1
    } else {
        -1
    };
    let penalty: i32 = if repeated_pattern_in(pw) {
        1
    } else {
        0
    };
    base + bonus - penalty
}

impl PasswordGenerator {
    /// The strength verdict on `pw`. With `check_common`, a password found verbatim in
    /// `common` is `Common` whatever its other qualities.
    pub fn validate_password(pw: &str, check_common: bool, common: &CommonPasswords) -> (r:
        Strength)
        ensures
            r == strength_of(pw@, check_common, common@),
    {
        let chars = to_chars(pw);
        if check_common && common.contains_chars(&chars) {
            return Strength::Common;
        }
        if chars.len() < ALLOWED_MIN {
            return Strength::VeryWeak;
        }
        let s = score(&chars);
        let clamped = if s < -2 {
            -2
        } else if s > 2 {
            2
        } else {
            s
        };
        if clamped == -2 {
            Strength::VeryWeak
        } else if clamped == -1 {
            Strength::Weak
        } else if clamped == 0 {
            Strength::Medium
        } else if clamped == 1 {
            Strength::Strong
        } else {
            Strength::VeryStrong
        }
    }
}

/// A password found verbatim in the list is `Common` when the list is consulted, whatever
/// its entropy.
pub proof fn lemma_listed_is_common(pw: Seq<char>, common: Seq<Seq<char>>)
    requires
        common.contains(pw),
    ensures
        strength_of(pw, true, common) == Strength::Common,
{
}

/// A password shorter than `ALLOWED_MIN` is `VeryWeak`, unless it is reported as `Common`.
pub proof fn lemma_short_is_very_weak(pw: Seq<char>, check_common: bool, common: Seq<Seq<char>>)
    requires
        pw.len() < ALLOWED_MIN,
        !(check_common && common.contains(pw)),
    ensures
        strength_of(pw, check_common, common) == Strength::VeryWeak,
{
}

/// The verdict depends on the password, the flag and the list alone: two evaluations of the
/// same inputs agree.
pub proof fn lemma_verdict_repeatable(
    pw: Seq<char>,
    check_common: bool,
    common: Seq<Seq<char>>,
    first: Strength,
    second: Strength,
)
    requires
        first == strength_of(pw, check_common, common),
        second == strength_of(pw, check_common, common),
    ensures
        first == second,
{
}

} // verus!
