use vstd::prelude::*;
use vstd::multiset::Multiset;

verus! {

/// Capital letters that passwords draw from; 'Y' is not among them.
pub const UPPERCASE: &'static str = "ABCDEFGHIJKLMNOPQRSTUVWXZ";

pub const LOWERCASE: &'static str = "abcdefghijklmnopqrstuvwxyz";

pub const DIGITS: &'static str = "1234567890";

/// Every printable ASCII character that is neither a letter nor a digit, space included.
pub const SPECIAL: &'static str = "!\"#$%&'()*+,-./:;<=>?@[\\]^_`{|}~ ";

/// The four character classes. Their alphabets are fixed and pairwise disjoint.
#[derive(Clone, Copy, Debug, PartialEq, Eq, Structural)]
pub enum Category {
    Uppercase,
    Lowercase,
    Digit,
    Special,
}

pub open spec fn alphabet(k: Category) -> Seq<char> {
    match k {
        Category::Uppercase => UPPERCASE@,
        Category::Lowercase => LOWERCASE@,
        Category::Digit => DIGITS@,
        Category::Special => SPECIAL@,
    }
}

pub open spec fn in_category(k: Category, c: char) -> bool {
    alphabet(k).contains(c)
}

/// How many characters of `s`, counted with multiplicity, belong to category `k`.
pub open spec fn count_in(s: Seq<char>, k: Category) -> nat {
    s.to_multiset().filter(|c: char| in_category(k, c)).len()
}

/// Whether at least one character of `s` belongs to category `k`.
pub open spec fn has_category(s: Seq<char>, k: Category) -> bool {
    exists|i: int| 0 <= i < s.len() && in_category(k, #[trigger] s[i])
}

pub open spec fn alphabet_len(k: Category) -> nat {
    match k {
        Category::Uppercase => 25,
        Category::Lowercase => 26,
        Category::Digit => 10,
        Category::Special => 33,
    }
}

spec fn in_range(k: Category, c: char) -> bool {
    match k {
        Category::Uppercase => 'A' <= c && c <= 'Z' && c != 'Y',
        Category::Lowercase => 'a' <= c && c <= 'z',
        Category::Digit => '0' <= c && c <= '9',
        Category::Special => (' ' <= c && c <= '/') || (':' <= c && c <= '@') || ('[' <= c && c
            <= '`') || ('{' <= c && c <= '~'),
    }
}

proof fn lemma_alphabet_contents(k: Category)
    ensures
        alphabet(k).len() == alphabet_len(k),
        forall|i: int| 0 <= i < alphabet(k).len() ==> in_range(k, #[trigger] alphabet(k)[i]),
{
    reveal_strlit("ABCDEFGHIJKLMNOPQRSTUVWXZ");
    reveal_strlit("abcdefghijklmnopqrstuvwxyz");
    reveal_strlit("1234567890");
    reveal_strlit("!\"#$%&'()*+,-./:;<=>?@[\\]^_`{|}~ ");
}

pub proof fn lemma_alphabet_len(k: Category)
    ensures
        alphabet(k).len() == alphabet_len(k),
{
    lemma_alphabet_contents(k);
}

/// No alphabet lists a character twice.
pub proof fn lemma_alphabet_distinct(k: Category)
    ensures
        alphabet(k).no_duplicates(),
{
    reveal_strlit("ABCDEFGHIJKLMNOPQRSTUVWXZ");
    reveal_strlit("abcdefghijklmnopqrstuvwxyz");
    reveal_strlit("1234567890");
    reveal_strlit("!\"#$%&'()*+,-./:;<=>?@[\\]^_`{|}~ ");
}

/// No character belongs to two categories.
pub proof fn lemma_categories_disjoint(c: char, k: Category, l: Category)
    requires
        in_category(k, c),
        in_category(l, c),
    ensures
        k == l,
{
    lemma_alphabet_contents(k);
    lemma_alphabet_contents(l);
    let i = choose|i: int| 0 <= i < alphabet(k).len() && alphabet(k)[i] == c;
    let j = choose|j: int| 0 <= j < alphabet(l).len() && alphabet(l)[j] == c;
    assert(in_range(k, alphabet(k)[i]));
    assert(in_range(l, alphabet(l)[j]));
}

/// Appending one character adds one to the count of its own category and leaves the others.
pub proof fn lemma_count_push(s: Seq<char>, c: char, k: Category)
    ensures
        count_in(s.push(c), k) == count_in(s, k) + if in_category(k, c) {
            1nat
        } else {
            0nat
        },
{
    broadcast use vstd::seq_lib::group_to_multiset_ensures;
    broadcast use vstd::multiset::group_multiset_axioms;

    let f = |x: char| in_category(k, x);
    let m = s.to_multiset();
    assert(s.push(c).to_multiset() =~= m.insert(c));
    if in_category(k, c) {
        assert(m.insert(c).filter(f) =~= m.filter(f).insert(c));
    } else {
        assert(m.insert(c).filter(f) =~= m.filter(f));
    }
}

/// Reordering a sequence keeps the count of each category.
pub proof fn lemma_count_permutation(s: Seq<char>, t: Seq<char>, k: Category)
    requires
        s.to_multiset() == t.to_multiset(),
    ensures
        count_in(s, k) == count_in(t, k),
{
}

pub proof fn lemma_count_empty(k: Category)
    ensures
        count_in(Seq::<char>::empty(), k) == 0,
{
    broadcast use vstd::seq_lib::group_to_multiset_ensures;
    broadcast use vstd::multiset::group_multiset_axioms;

    let f = |x: char| in_category(k, x);
    assert(Seq::<char>::empty().to_multiset() =~= Multiset::empty());
    assert(Multiset::<char>::empty().filter(f) =~= Multiset::empty());
}

/// The alphabet of a category, as a `&str`.
pub fn alphabet_str(k: Category) -> (r: &'static str)
    ensures
        r@ == alphabet(k),
{
    match k {
        Category::Uppercase => UPPERCASE,
        Category::Lowercase => LOWERCASE,
        Category::Digit => DIGITS,
        Category::Special => SPECIAL,
    }
}

/// The characters of `s`, one per element.
pub fn to_chars(s: &str) -> (r: Vec<char>)
    ensures
        r@ == s@,
{
    broadcast use vstd::string::axiom_spec_iter;

    let mut v: Vec<char> = Vec::new();
    for c in it: s.chars()
        invariant
            v@ == it.history(),
    {
        v.push(c);
    }
    v
}

/// The alphabet of a category, one character per element.
pub fn alphabet_chars(k: Category) -> (r: Vec<char>)
    ensures
        r@ == alphabet(k),
{
    to_chars(alphabet_str(k))
}

/// Whether `c` belongs to category `k`.
pub fn char_in_category(k: Category, c: char) -> (r: bool)
    ensures
        r == in_category(k, c),
{
    let s = alphabet_str(k);
    let n = s.unicode_len();
    let mut i: usize = 0;
    while i < n
        invariant
            s@ == alphabet(k),
            n == s@.len(),
            i <= n,
            forall|j: int| 0 <= j < i ==> s@[j] != c,
        decreases n - i,
    {
        if s.get_char(i) == c {
            assert(s@[i as int] == c);
            return true;
        }
        i = i + 1;
    }
    false
}

} // verus!
