//! Character classes and small scanning helpers shared by the line grammars.

use vstd::prelude::*;

verus! {

/// The sets of characters that the line grammars are built from.
#[derive(Clone, Copy, Debug)]
pub enum CharClass {
    /// Characters of a timestamp: ASCII digits, `.`, `:` and the space.
    Stamp,
    /// The space character alone.
    Space,
    /// A space or a horizontal tab.
    Blank,
    /// Anything that is not Unicode white space.
    Visible,
    /// Characters of a decimal numeral: ASCII digits and `.`.
    Numeral,
    /// Anything but the line feed.
    Inline,
}

/// An ASCII decimal digit.
pub open spec fn is_digit(c: char) -> bool {
    '0' <= c && c <= '9'
}

/// A character with the Unicode property `White_Space`.
pub open spec fn is_white_space(c: char) -> bool {
    ||| ('\u{9}' <= c && c <= '\u{d}')
    ||| c == ' '
    ||| c == '\u{85}'
    ||| c == '\u{a0}'
    ||| c == '\u{1680}'
    ||| ('\u{2000}' <= c && c <= '\u{200a}')
    ||| c == '\u{2028}'
    ||| c == '\u{2029}'
    ||| c == '\u{202f}'
    ||| c == '\u{205f}'
    ||| c == '\u{3000}'
}

impl CharClass {
    /// Whether `c` belongs to the class.
    pub open spec fn contains(self, c: char) -> bool {
        match self {
            CharClass::Stamp => is_digit(c) || c == '.' || c == ':' || c == ' ',
            CharClass::Space => c == ' ',
            CharClass::Blank => c == ' ' || c == '\t',
            CharClass::Visible => !is_white_space(c),
            CharClass::Numeral => is_digit(c) || c == '.',
            CharClass::Inline => c != '\n',
        }
    }

    /// Tests whether `c` belongs to the class.
    pub fn accepts(self, c: char) -> (b: bool)
        ensures
            b == self.contains(c),
    {
        match self {
            CharClass::Stamp => ('0' <= c && c <= '9') || c == '.' || c == ':' || c == ' ',
            CharClass::Space => c == ' ',
            CharClass::Blank => c == ' ' || c == '\t',
            CharClass::Visible => !(('\u{9}' <= c && c <= '\u{d}') || c == ' ' || c == '\u{85}'
                || c == '\u{a0}' || c == '\u{1680}' || ('\u{2000}' <= c && c <= '\u{200a}') || c
                == '\u{2028}' || c == '\u{2029}' || c == '\u{202f}' || c == '\u{205f}' || c
                == '\u{3000}'),
            CharClass::Numeral => ('0' <= c && c <= '9') || c == '.',
            CharClass::Inline => c != '\n',
        }
    }
}

/// Every character of `s` belongs to `class`.
pub open spec fn all_in(s: Seq<char>, class: CharClass) -> bool {
    forall|i: int| 0 <= i < s.len() ==> class.contains(#[trigger] s[i])
}

/// Where the longest run of characters of `class` that starts at `from` ends.
pub open spec fn run_end(s: Seq<char>, from: int, class: CharClass) -> int
    decreases s.len() - from,
{
    if 0 <= from < s.len() && class.contains(s[from]) {
        run_end(s, from + 1, class)
    } else {
        from
    }
}

/// Where the longest run of characters of `class` that ends at `to` starts.
pub open spec fn run_start(s: Seq<char>, to: int, class: CharClass) -> int
    decreases to,
{
    if 0 < to <= s.len() && class.contains(s[to - 1]) {
        run_start(s, to - 1, class)
    } else {
        to
    }
}

/// `lit` stands in `s` at position `at`.
pub open spec fn has_at(s: Seq<char>, at: int, lit: Seq<char>) -> bool {
    0 <= at && at + lit.len() <= s.len() && s.subrange(at, at + lit.len()) == lit
}

/// A run that `run_end` reports lies inside the text, holds only characters of
/// the class, and cannot be extended.
pub proof fn lemma_run_end(s: Seq<char>, from: int, class: CharClass)
    requires
        0 <= from <= s.len(),
    ensures
        from <= run_end(s, from, class) <= s.len(),
        forall|i: int| from <= i < run_end(s, from, class) ==> class.contains(#[trigger] s[i]),
        run_end(s, from, class) < s.len() ==> !class.contains(s[run_end(s, from, class)]),
    decreases s.len() - from,
{
    if from < s.len() && class.contains(s[from]) {
        lemma_run_end(s, from + 1, class);
    }
}

/// A run of the class that cannot be extended is the one `run_end` reports.
pub proof fn lemma_run_end_unique(s: Seq<char>, from: int, class: CharClass, end: int)
    requires
        0 <= from <= end <= s.len(),
        forall|i: int| from <= i < end ==> class.contains(#[trigger] s[i]),
        end < s.len() ==> !class.contains(s[end]),
    ensures
        run_end(s, from, class) == end,
    decreases end - from,
{
    if from < end {
        lemma_run_end_unique(s, from + 1, class, end);
    }
}

/// A run that `run_start` reports lies inside the text, holds only characters
/// of the class, and cannot be extended to the left.
pub proof fn lemma_run_start(s: Seq<char>, to: int, class: CharClass)
    requires
        0 <= to <= s.len(),
    ensures
        0 <= run_start(s, to, class) <= to,
        forall|i: int| run_start(s, to, class) <= i < to ==> class.contains(#[trigger] s[i]),
        0 < run_start(s, to, class) ==> !class.contains(s[run_start(s, to, class) - 1]),
    decreases to,
{
    if 0 < to && class.contains(s[to - 1]) {
        lemma_run_start(s, to - 1, class);
    }
}

/// A run of the class that cannot be extended to the left is the one
/// `run_start` reports.
pub proof fn lemma_run_start_unique(s: Seq<char>, to: int, class: CharClass, start: int)
    requires
        0 <= start <= to <= s.len(),
        forall|i: int| start <= i < to ==> class.contains(#[trigger] s[i]),
        0 < start ==> !class.contains(s[start - 1]),
    ensures
        run_start(s, to, class) == start,
    decreases to - start,
{
    if start < to {
        lemma_run_start_unique(s, to - 1, class, start);
    }
}

/// Converts a string slice into the vector of its characters.
pub fn to_chars(s: &str) -> (v: Vec<char>)
    ensures
        v@ == s@,
{
    let mut v: Vec<char> = Vec::new();
    for c in it: s.chars()
        invariant
            v@ == it.seq().take(it.index()),
            it.seq() == s@,
    {
        v.push(c);
    }
    v
}

/// `String::push` appends one character to the string.
pub assume_specification[ String::push ](s: &mut String, c: char)
    ensures
        final(s)@ == old(s)@.push(c),
;

/// Builds the string that holds the characters of `chars[from..to]`.
pub fn string_of(chars: &[char], from: usize, to: usize) -> (s: String)
    requires
        from <= to <= chars@.len(),
    ensures
        s@ == chars@.subrange(from as int, to as int),
{
    let mut s = String::new();
    let mut i: usize = from;
    while i < to
        invariant
            from <= i <= to <= chars@.len(),
            s@ == chars@.subrange(from as int, i as int),
        decreases to - i,
    {
        s.push(chars[i]);
        proof {
            assert(chars@.subrange(from as int, i + 1) == chars@.subrange(
                from as int,
                i as int,
            ).push(chars@[i as int]));
        }
        i += 1;
    }
    s
}

/// Finds the end of the longest run of characters of `class` from `from` on.
pub fn scan_run(line: &[char], from: usize, class: CharClass) -> (end: usize)
    requires
        from <= line@.len(),
    ensures
        end == run_end(line@, from as int, class),
        from <= end <= line@.len(),
{
    let mut end: usize = from;
    while end < line.len() && class.accepts(line[end])
        invariant
            from <= end <= line@.len(),
            run_end(line@, from as int, class) == run_end(line@, end as int, class),
        decreases line@.len() - end,
    {
        end += 1;
    }
    end
}

/// Finds the start of the longest run of characters of `class` that ends at
/// `to`.
pub fn scan_run_back(line: &[char], to: usize, class: CharClass) -> (start: usize)
    requires
        to <= line@.len(),
    ensures
        start == run_start(line@, to as int, class),
        start <= to,
{
    let mut start: usize = to;
    while start > 0 && class.accepts(line[start - 1])
        invariant
            start <= to <= line@.len(),
            run_start(line@, to as int, class) == run_start(line@, start as int, class),
        decreases start,
    {
        start -= 1;
    }
    start
}

/// Tests whether the literal `lit` stands in `line` at position `at`.
pub fn literal_at(line: &[char], at: usize, lit: &str) -> (b: bool)
    ensures
        b == has_at(line@, at as int, lit@),
        b ==> at + lit@.len() <= usize::MAX,
{
    if at > line.len() {
        return false;
    }
    let room: usize = line.len() - at;
    let mut same: bool = true;
    let mut n: usize = 0;
    for c in it: lit.chars()
        invariant
            it.seq() == lit@,
            at + room == line@.len(),
            at + room <= usize::MAX,
            same ==> n == it.index() && n <= room,
            same ==> line@.subrange(at as int, at + n) == lit@.take(n as int),
            !same ==> !has_at(line@, at as int, lit@),
    {
        if same {
            if n < room && line[at + n] == c {
                proof {
                    assert(line@.subrange(at as int, at + n + 1) == line@.subrange(
                        at as int,
                        at + n,
                    ).push(c));
                    assert(lit@.take(n + 1) == lit@.take(n as int).push(c));
                }
                n += 1;
            } else {
                proof {
                    if has_at(line@, at as int, lit@) {
                        assert(line@.subrange(at as int, at + lit@.len())[n as int] == lit@[n as int]);
                    }
                }
                same = false;
            }
        }
    }
    proof {
        if same {
            assert(lit@.take(n as int) == lit@);
        }
    }
    same
}

} // verus!
