//! Which way a scan reads.

use vstd::prelude::*;
use vstd::string::*;

verus! {

/// Which way a scan reads.
#[derive(Debug, Clone, Copy, PartialEq, Eq, Structural)]
pub enum ScanPath {
    /// Every row group is decoded to a record batch before filtering.
    Materialized,
    /// Row groups stay encoded until the rows are selected.
    Encoded,
    /// Encoded where possible.
    Auto,
}

impl Default for ScanPath {
    /// `Auto`.
    fn default() -> (r: Self)
        ensures
            r == ScanPath::Auto,
    {
        ScanPath::Auto
    }
}

/// Whether a character is white space.
pub open spec fn is_white(c: char) -> bool {
    ||| '\u{9}' <= c <= '\u{d}'
    ||| c == '\u{20}'
    ||| c == '\u{85}'
    ||| c == '\u{a0}'
    ||| c == '\u{1680}'
    ||| '\u{2000}' <= c <= '\u{200a}'
    ||| c == '\u{2028}'
    ||| c == '\u{2029}'
    ||| c == '\u{202f}'
    ||| c == '\u{205f}'
    ||| c == '\u{3000}'
}

/// A text without the white space at its ends.
pub open spec fn trimmed(s: Seq<char>) -> Seq<char>
    decreases s.len(),
{
    if s.len() == 0 {
        s
    } else if is_white(s[0]) {
        trimmed(s.drop_first())
    } else if is_white(s.last()) {
        trimmed(s.drop_last())
    } else {
        s
    }
}

/// A character in lower case, if it is an ASCII letter.
pub open spec fn lower(c: char) -> char {
    if 'A' <= c <= 'Z' {
        (c as int + 32) as char
    } else {
        c
    }
}

/// A text with its ASCII letters in lower case.
pub open spec fn lowered(s: Seq<char>) -> Seq<char> {
    Seq::new(s.len(), |i: int| lower(s[i]))
}

/// The path that a word stands for.
pub open spec fn path_of(s: Seq<char>) -> Option<ScanPath> {
    let word = lowered(trimmed(s));
    if word == "materialized"@ {
        Some(ScanPath::Materialized)
    } else if word == "encoded"@ {
        Some(ScanPath::Encoded)
    } else if word == "auto"@ {
        Some(ScanPath::Auto)
    } else {
        None
    }
}

fn white(c: char) -> (r: bool)
    ensures
        r == is_white(c),
{
    ('\u{9}' <= c && c <= '\u{d}') || c == '\u{20}' || c == '\u{85}' || c == '\u{a0}' || c
        == '\u{1680}' || ('\u{2000}' <= c && c <= '\u{200a}') || c == '\u{2028}' || c == '\u{2029}'
        || c == '\u{202f}' || c == '\u{205f}' || c == '\u{3000}'
}

/// Whether a part of a text is a word, up to the case of ASCII letters.
fn part_is(s: &str, start: usize, end: usize, word: &str) -> (r: bool)
    requires
        start <= end <= s@.len(),
    ensures
        r == (lowered(s@.subrange(start as int, end as int)) == word@),
{
    let ghost part = lowered(s@.subrange(start as int, end as int));
    let n: usize = word.unicode_len();
    if end - start != n {
        return false;
    }
    let mut i: usize = 0;
    while i < n
        invariant
            i <= n == word@.len(),
            start + n == end,
            end <= s@.len(),
            part == lowered(s@.subrange(start as int, end as int)),
            forall|j: int| 0 <= j < i ==> part[j] == word@[j],
        decreases n - i,
    {
        let c: char = s.get_char(start + i);
        let l: char = if 'A' <= c && c <= 'Z' {
            ((c as u8) + 32) as char
        } else {
            c
        };
        assert(part[i as int] == l);
        if l != word.get_char(i) {
            return false;
        }
        i = i + 1;
    }
    assert(part =~= word@);
    true
}

impl ScanPath {
    /// The path that a word stands for: `materialized`, `encoded` or `auto`, in
    /// upper or lower case and with white space around it.
    pub fn parse(s: &str) -> (r: Option<ScanPath>)
        ensures
            r == path_of(s@),
    {
        let mut start: usize = 0;
        let mut end: usize = s.unicode_len();
        assert(s@.subrange(0, end as int) =~= s@);
        while start < end && white(s.get_char(start))
            invariant
                start <= end == s@.len(),
                trimmed(s@.subrange(start as int, end as int)) == trimmed(s@),
            decreases end - start,
        {
            let ghost part = s@.subrange(start as int, end as int);
            assert(part.drop_first() =~= s@.subrange(start + 1, end as int));
            start = start + 1;
        }
        while start < end && white(s.get_char(end - 1))
            invariant
                start <= end <= s@.len(),
                start < end ==> !is_white(s@[start as int]),
                trimmed(s@.subrange(start as int, end as int)) == trimmed(s@),
            decreases end - start,
        {
            let ghost part = s@.subrange(start as int, end as int);
            assert(part[0] == s@[start as int]);
            assert(part.last() == s@[end - 1]);
            assert(part.drop_last() =~= s@.subrange(start as int, end - 1));
            end = end - 1;
        }
        proof {
            let part = s@.subrange(start as int, end as int);
            if start < end {
                assert(part[0] == s@[start as int]);
                assert(part.last() == s@[end - 1]);
            }
            assert(trimmed(part) == part);
        }
        if part_is(s, start, end, "materialized") {
            Some(ScanPath::Materialized)
        } else if part_is(s, start, end, "encoded") {
            Some(ScanPath::Encoded)
        } else if part_is(s, start, end, "auto") {
            Some(ScanPath::Auto)
        } else {
            None
        }
    }
}

/// Whether a code point is one of white space.
pub open spec fn is_blank(c: int) -> bool {
    ||| 0x9 <= c <= 0xd
    ||| c == 0x20
    ||| c == 0x85
    ||| c == 0xa0
    ||| c == 0x1680
    ||| 0x2000 <= c <= 0x200a
    ||| c == 0x2028
    ||| c == 0x2029
    ||| c == 0x202f
    ||| c == 0x205f
    ||| c == 0x3000
}

/// Whether a character is a lower-case letter, or the upper-case one of it.
pub open spec fn is_letter(c: char, letter: char) -> bool {
    c == letter || ('A' <= c <= 'Z' && c as int + 32 == letter as int)
}

/// Whether a part of a text is a word in upper or lower case, with nothing but white
/// space around it.
pub open spec fn holds_word(s: Seq<char>, word: Seq<char>, a: int) -> bool {
    &&& 0 <= a
    &&& a + word.len() <= s.len()
    &&& forall|i: int|
        0 <= i < s.len() && !(a <= i < a + word.len()) ==> is_blank(#[trigger] s[i] as int)
    &&& forall|k: int| 0 <= k < word.len() ==> is_letter(s[a + k], #[trigger] word[k])
}

/// Whether a text is a word with white space around it.
pub open spec fn is_word(s: Seq<char>, word: Seq<char>) -> bool {
    exists|a: int| #[trigger] holds_word(s, word, a)
}

proof fn lemma_trim_part(s: Seq<char>) -> (a: int)
    ensures
        0 <= a,
        a + trimmed(s).len() <= s.len(),
        trimmed(s) == s.subrange(a, a + trimmed(s).len()),
        forall|i: int|
            0 <= i < s.len() && !(a <= i < a + trimmed(s).len()) ==> is_blank(#[trigger] s[i] as int),
    decreases s.len(),
{
    if s.len() == 0 {
        assert(s.subrange(0, 0) =~= s);
        0
    } else if is_white(s[0]) {
        let rest = s.drop_first();
        let b = lemma_trim_part(rest);
        let n = trimmed(s).len();
        assert(trimmed(s) =~= s.subrange(b + 1, b + 1 + n));
        assert forall|i: int| 0 <= i < s.len() && !(b + 1 <= i < b + 1 + n) implies is_blank(
            #[trigger] s[i] as int,
        ) by {
            if i > 0 {
                assert(rest[i - 1] == s[i]);
            }
        }
        b + 1
    } else if is_white(s.last()) {
        let rest = s.drop_last();
        let b = lemma_trim_part(rest);
        let n = trimmed(s).len();
        assert(trimmed(s) =~= s.subrange(b, b + n));
        assert forall|i: int| 0 <= i < s.len() && !(b <= i < b + n) implies is_blank(
            #[trigger] s[i] as int,
        ) by {
            if i < s.len() - 1 {
                assert(rest[i] == s[i]);
            }
        }
        b
    } else {
        assert(s.subrange(0, s.len() as int) =~= s);
        0
    }
}

proof fn lemma_trim_exact(s: Seq<char>, a: int, b: int)
    requires
        0 <= a < b <= s.len(),
        !is_blank(s[a] as int),
        !is_blank(s[b - 1] as int),
        forall|i: int| 0 <= i < s.len() && !(a <= i < b) ==> is_blank(#[trigger] s[i] as int),
    ensures
        trimmed(s) == s.subrange(a, b),
    decreases s.len(),
{
    if a > 0 {
        let rest = s.drop_first();
        assert(is_white(s[0]));
        assert forall|i: int| 0 <= i < rest.len() && !(a - 1 <= i < b - 1) implies is_blank(
            #[trigger] rest[i] as int,
        ) by {
            assert(rest[i] == s[i + 1]);
        }
        lemma_trim_exact(rest, a - 1, b - 1);
        assert(rest.subrange(a - 1, b - 1) =~= s.subrange(a, b));
    } else if b < s.len() {
        let rest = s.drop_last();
        assert(is_blank(s[s.len() - 1] as int));
        assert forall|i: int| 0 <= i < rest.len() && !(a <= i < b) implies is_blank(
            #[trigger] rest[i] as int,
        ) by {
            assert(rest[i] == s[i]);
        }
        lemma_trim_exact(rest, a, b);
        assert(rest.subrange(a, b) =~= s.subrange(a, b));
    } else {
        assert(s.subrange(a, b) =~= s);
    }
}

proof fn lemma_word(s: Seq<char>, word: Seq<char>)
    requires
        word.len() > 0,
        forall|k: int| 0 <= k < word.len() ==> 'a' <= #[trigger] word[k] <= 'z',
    ensures
        lowered(trimmed(s)) == word <==> is_word(s, word),
{
    if lowered(trimmed(s)) == word {
        let a = lemma_trim_part(s);
        let part = trimmed(s);
        assert forall|k: int| 0 <= k < word.len() implies is_letter(s[a + k], #[trigger] word[k]) by {
            assert(part[k] == s[a + k]);
            assert(word[k] == lower(part[k]));
        }
        assert(holds_word(s, word, a));
    }
    if is_word(s, word) {
        let a = choose|a: int| #[trigger] holds_word(s, word, a);
        let b = a + word.len();
        assert(is_letter(s[a + 0], word[0]));
        assert(is_letter(s[a + (word.len() - 1)], word[word.len() - 1]));
        lemma_trim_exact(s, a, b);
        let part = trimmed(s);
        assert forall|k: int| 0 <= k < word.len() implies lowered(part)[k] == word[k] by {
            assert(is_letter(s[a + k], word[k]));
            assert(part[k] == s[a + k]);
        }
        assert(lowered(part) =~= word);
    }
}

/// A text stands for a path if it is the path's name, in upper or lower case, with nothing
/// but white space around it. Any other text stands for none.
pub proof fn theorem_path_words(s: Seq<char>)
    ensures
        path_of(s) == Some(ScanPath::Materialized) <==> is_word(s, "materialized"@),
        path_of(s) == Some(ScanPath::Encoded) <==> is_word(s, "encoded"@),
        path_of(s) == Some(ScanPath::Auto) <==> is_word(s, "auto"@),
{
    reveal_strlit("materialized");
    reveal_strlit("encoded");
    reveal_strlit("auto");
    lemma_word(s, "materialized"@);
    lemma_word(s, "encoded"@);
    lemma_word(s, "auto"@);
    assert("materialized"@.len() == 12);
    assert("encoded"@.len() == 7);
    assert("auto"@.len() == 4);
}

} // verus!
