use vstd::prelude::*;

use crate::charset::to_chars;

verus! {

/// A line without the carriage return that a "\r\n" ending leaves on it.
pub open spec fn strip_cr(line: Seq<char>) -> Seq<char> {
    if line.len() > 0 && line.last() == '\r' {
        line.drop_last()
    } else {
        line
    }
}

/// Reads `s` left to right: the lines ended so far, and the line still open.
pub open spec fn scan_lines(s: Seq<char>) -> (Seq<Seq<char>>, Seq<char>)
    decreases s.len(),
{
    if s.len() == 0 {
        (Seq::empty(), Seq::empty())
    } else {
        let (done, open) = scan_lines(s.drop_last());
        if s.last() == '\n' {
            (done.push(strip_cr(open)), Seq::empty())
        } else {
            (done, open.push(s.last()))
        }
    }
}

/// The lines of a newline-delimited text: each '\n' ends a line (a '\r' before it is
/// dropped), and text after the last '\n' is one more line if it is not empty.
pub open spec fn lines_of(s: Seq<char>) -> Seq<Seq<char>> {
    let (done, open) = scan_lines(s);
    if open.len() == 0 {
        done
    } else {
        done.push(open)
    }
}

/// A fixed list of known weak passwords, matched exactly and case-sensitively.
pub struct CommonPasswords {
    entries: Vec<Vec<char>>,
}

impl View for CommonPasswords {
    type V = Seq<Seq<char>>;

    closed spec fn view(&self) -> Seq<Seq<char>> {
        self.entries@.map_values(|e: Vec<char>| e@)
    }
}

fn same_chars(a: &Vec<char>, b: &Vec<char>) -> (r: bool)
    ensures
        r == (a@ == b@),
{
    if a.len() != b.len() {
        return false;
    }
    let mut i: usize = 0;
    while i < a.len()
        invariant
            a@.len() == b@.len(),
            i <= a@.len(),
            forall|j: int| 0 <= j < i ==> a@[j] == b@[j],
        decreases a@.len() - i,
    {
        if a[i] != b[i] {
            return false;
        }
        i = i + 1;
    }
    assert(a@ =~= b@);
    true
}

impl CommonPasswords {
    /// The list with no entries.
    pub fn empty() -> (r: Self)
        ensures
            r@ == Seq::<Seq<char>>::empty(),
    {
        let r = CommonPasswords { entries: Vec::new() };
        assert(r@ =~= Seq::<Seq<char>>::empty());
        r
    }

    /// The list read from newline-delimited text, one entry per line.
    pub fn from_text(text: &str) -> (r: Self)
        ensures
            r@ == lines_of(text@),
    {
        let chars = to_chars(text);
        let mut entries: Vec<Vec<char>> = Vec::new();
        let mut open: Vec<char> = Vec::new();
        let mut i: usize = 0;
        while i < chars.len()
            invariant
                chars@ == text@,
                i <= chars@.len(),
                scan_lines(chars@.subrange(0, i as int)) == (
                entries@.map_values(|e: Vec<char>| e@),
                open@,
                ),
            decreases chars@.len() - i,
        {
            let c = chars[i];
            let ghost prefix = chars@.subrange(0, i as int);
            assert(chars@.subrange(0, i + 1).drop_last() =~= prefix);
            if c == '\n' {
                if open.len() > 0 && open[open.len() - 1] == '\r' {
                    open.pop();
                }
                entries.push(open);
                open = Vec::new();
                assert(entries@.map_values(|e: Vec<char>| e@) =~= scan_lines(prefix).0.push(
                    strip_cr(scan_lines(prefix).1),
                ));
            } else {
                open.push(c);
            }
            i = i + 1;
        }
        assert(chars@.subrange(0, chars@.len() as int) =~= chars@);
        if open.len() > 0 {
            entries.push(open);
            assert(entries@.map_values(|e: Vec<char>| e@) =~= scan_lines(text@).0.push(
                scan_lines(text@).1,
            ));
        }
        CommonPasswords { entries }
    }

    /// Whether `password` is, verbatim, one of the entries.
    pub fn contains(&self, password: &str) -> (r: bool)
        ensures
            r == self@.contains(password@),
    {
        let chars = to_chars(password);
        self.contains_chars(&chars)
    }

    /// Whether the characters of `password` are, verbatim, one of the entries.
    pub fn contains_chars(&self, password: &Vec<char>) -> (r: bool)
        ensures
            r == self@.contains(password@),
    {
        let mut i: usize = 0;
        while i < self.entries.len()
            invariant
                i <= self.entries@.len(),
                forall|j: int| 0 <= j < i ==> self@[j] != password@,
            decreases self.entries@.len() - i,
        {
            if same_chars(&self.entries[i], password) {
                assert(self@[i as int] == password@);
                return true;
            }
            i = i + 1;
        }
        false
    }

    /// Number of entries.
    pub fn len(&self) -> (r: usize)
        ensures
            r == self@.len(),
    {
        self.entries.len()
    }
}

} // verus!
