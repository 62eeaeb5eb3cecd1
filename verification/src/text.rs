//! Small operations on text.

use vstd::prelude::*;
use vstd::string::*;
use vstd::utf8::encode_utf8;

verus! {

/// Whether two strings are equal.
pub fn text_eq(a: &str, b: &str) -> (r: bool)
    ensures
        r == (a@ == b@),
{
    let x: &[u8] = a.as_bytes();
    let y: &[u8] = b.as_bytes();
    proof {
        vstd::utf8::encode_utf8_decode_utf8(a@);
        vstd::utf8::encode_utf8_decode_utf8(b@);
        assert((encode_utf8(a@) == encode_utf8(b@)) == (a@ == b@));
    }
    if x.len() != y.len() {
        return false;
    }
    let mut i: usize = 0;
    while i < x.len()
        invariant
            i <= x@.len() == y@.len(),
            x@ == encode_utf8(a@),
            y@ == encode_utf8(b@),
            (encode_utf8(a@) == encode_utf8(b@)) == (a@ == b@),
            forall|j: int| 0 <= j < i ==> x@[j] == y@[j],
        decreases x@.len() - i,
    {
        if x[i] != y[i] {
            return false;
        }
        i = i + 1;
    }
    assert(x@ =~= y@);
    true
}

/// The views of a list of strings.
pub open spec fn text_views(list: Seq<String>) -> Seq<Seq<char>> {
    Seq::new(list.len(), |i: int| list[i]@)
}

/// Whether a string occurs in a list.
pub fn text_in(list: &Vec<String>, s: &str) -> (r: bool)
    ensures
        r == text_views(list@).contains(s@),
{
    let mut i: usize = 0;
    while i < list.len()
        invariant
            i <= list@.len(),
            forall|j: int| 0 <= j < i ==> list@[j]@ != s@,
        decreases list@.len() - i,
    {
        if text_eq(list[i].as_str(), s) {
            assert(text_views(list@)[i as int] == s@);
            return true;
        }
        i = i + 1;
    }
    proof {
        if text_views(list@).contains(s@) {
            let j = choose|j: int| 0 <= j < list@.len() && text_views(list@)[j] == s@;
            assert(list@[j]@ == s@);
        }
    }
    false
}

/// A copy of a list of strings.
pub fn copy_texts(list: &Vec<String>) -> (r: Vec<String>)
    ensures
        r@ == list@,
{
    let mut out: Vec<String> = Vec::new();
    let mut i: usize = 0;
    while i < list.len()
        invariant
            i <= list@.len(),
            out@ == list@.take(i as int),
        decreases list@.len() - i,
    {
        out.push(list[i].clone());
        assert(list@.take(i + 1) == list@.take(i as int).push(list@[i as int]));
        i = i + 1;
    }
    assert(list@.take(list@.len() as int) == list@);
    out
}

/// The decimal digit `d`.
pub open spec fn digit(d: nat) -> Seq<char> {
    if d == 0 {
        "0"@
    } else if d == 1 {
        "1"@
    } else if d == 2 {
        "2"@
    } else if d == 3 {
        "3"@
    } else if d == 4 {
        "4"@
    } else if d == 5 {
        "5"@
    } else if d == 6 {
        "6"@
    } else if d == 7 {
        "7"@
    } else if d == 8 {
        "8"@
    } else {
        "9"@
    }
}

/// The decimal notation of a natural number.
pub open spec fn decimal(n: nat) -> Seq<char>
    decreases n,
{
    if n < 10 {
        digit(n)
    } else {
        decimal(n / 10) + digit(n % 10)
    }
}

/// The number that a text of decimal digits stands for.
pub open spec fn number_of(s: Seq<char>) -> int
    decreases s.len(),
{
    if s.len() == 0 {
        0
    } else {
        number_of(s.drop_last()) * 10 + (s.last() as int - '0' as int)
    }
}

/// The decimal notation of a number is made of digits, stands for the number, and does
/// not begin with a zero but for the number 0, which is one digit.
pub proof fn theorem_decimal(n: nat)
    ensures
        number_of(decimal(n)) == n,
        forall|i: int| 0 <= i < decimal(n).len() ==> '0' <= #[trigger] decimal(n)[i] <= '9',
        n > 0 ==> decimal(n)[0] != '0',
        decimal(n).len() > 0,
        n == 0 ==> decimal(n).len() == 1,
    decreases n,
{
    let last = digit(n % 10);
    reveal_strlit("0");
    reveal_strlit("1");
    reveal_strlit("2");
    reveal_strlit("3");
    reveal_strlit("4");
    reveal_strlit("5");
    reveal_strlit("6");
    reveal_strlit("7");
    reveal_strlit("8");
    reveal_strlit("9");
    assert(last.len() == 1 && '0' <= last[0] <= '9' && last[0] as int - '0' as int == n % 10);
    if n < 10 {
        assert(n % 10 == n);
        assert(last.drop_last() =~= Seq::empty());
        assert(number_of(Seq::<char>::empty()) == 0);
        assert(decimal(n) == last);
    } else {
        theorem_decimal(n / 10);
        let s = decimal(n);
        assert(s.drop_last() =~= decimal(n / 10));
        assert(s.last() == last[0]);
        assert(n == (n / 10) * 10 + n % 10);
    }
}

fn digit_text(d: u64) -> (r: &'static str)
    requires
        d < 10,
    ensures
        r@ == digit(d as nat),
{
    if d == 0 {
        "0"
    } else if d == 1 {
        "1"
    } else if d == 2 {
        "2"
    } else if d == 3 {
        "3"
    } else if d == 4 {
        "4"
    } else if d == 5 {
        "5"
    } else if d == 6 {
        "6"
    } else if d == 7 {
        "7"
    } else if d == 8 {
        "8"
    } else {
        "9"
    }
}

/// Writes a number in decimal notation.
pub fn decimal_text(n: u64) -> (r: String)
    ensures
        r@ == decimal(n as nat),
    decreases n,
{
    if n < 10 {
        digit_text(n).to_owned()
    } else {
        let mut head: String = decimal_text(n / 10);
        head.append(digit_text(n % 10));
        head
    }
}

/// Whether a text begins with another.
pub open spec fn has_prefix(s: Seq<char>, prefix: Seq<char>) -> bool {
    s.len() >= prefix.len() && s.take(prefix.len() as int) == prefix
}

/// Whether a text begins with another.
pub fn starts_with(s: &str, prefix: &str) -> (r: bool)
    ensures
        r == has_prefix(s@, prefix@),
{
    let n: usize = prefix.unicode_len();
    if s.unicode_len() < n {
        return false;
    }
    let mut i: usize = 0;
    while i < n
        invariant
            i <= n == prefix@.len(),
            n <= s@.len(),
            forall|j: int| 0 <= j < i ==> s@[j] == prefix@[j],
        decreases n - i,
    {
        if s.get_char(i) != prefix.get_char(i) {
            assert(s@.take(n as int)[i as int] != prefix@[i as int]);
            return false;
        }
        i = i + 1;
    }
    assert(s@.take(n as int) =~= prefix@);
    true
}

/// Two texts joined.
pub fn join2(a: &str, b: &str) -> (r: String)
    ensures
        r@ == a@ + b@,
{
    let mut out: String = a.to_owned();
    out.append(b);
    out
}

/// Three texts joined.
pub fn join3(a: &str, b: &str, c: &str) -> (r: String)
    ensures
        r@ == a@ + b@ + c@,
{
    let mut out: String = join2(a, b);
    out.append(c);
    out
}

/// Whether a text comes before another, or is the same, by code points.
pub open spec fn text_le(a: Seq<char>, b: Seq<char>) -> bool
    decreases a.len(),
{
    if a.len() == 0 {
        true
    } else if b.len() == 0 {
        false
    } else if a[0] != b[0] {
        a[0] < b[0]
    } else {
        text_le(a.drop_first(), b.drop_first())
    }
}

/// Whether a text is another one or the beginning of it, or has the smaller code point
/// where the two first differ.
pub open spec fn is_lexicographic(a: Seq<char>, b: Seq<char>) -> bool {
    ||| a.len() <= b.len() && forall|k: int| 0 <= k < a.len() ==> #[trigger] a[k] == b[k]
    ||| exists|i: int| first_differ(a, b, i) && (#[trigger] a[i] as int) < b[i] as int
}

/// Whether two texts first differ at a position that both have.
pub open spec fn first_differ(a: Seq<char>, b: Seq<char>, i: int) -> bool {
    &&& 0 <= i < a.len()
    &&& i < b.len()
    &&& a[i] != b[i]
    &&& forall|k: int| 0 <= k < i ==> #[trigger] a[k] == b[k]
}

/// Texts are ordered by their code points: one comes before another, or is the same, if
/// it is the beginning of the other, or has the smaller code point where they first
/// differ.
pub proof fn theorem_text_order(a: Seq<char>, b: Seq<char>)
    ensures
        text_le(a, b) <==> is_lexicographic(a, b),
    decreases a.len(),
{
    if a.len() > 0 && b.len() > 0 {
        if a[0] == b[0] {
            let x = a.drop_first();
            let y = b.drop_first();
            theorem_text_order(x, y);
            if is_lexicographic(x, y) {
                if x.len() <= y.len() && forall|k: int| 0 <= k < x.len() ==> #[trigger] x[k] == y[k] {
                    assert forall|k: int| 0 <= k < a.len() implies #[trigger] a[k] == b[k] by {
                        if k > 0 {
                            assert(x[k - 1] == y[k - 1]);
                        }
                    }
                } else {
                    let i = choose|i: int|
                        first_differ(x, y, i) && (#[trigger] x[i] as int) < y[i] as int;
                    assert forall|k: int| 0 <= k < i + 1 implies #[trigger] a[k] == b[k] by {
                        if k > 0 {
                            assert(x[k - 1] == y[k - 1]);
                        }
                    }
                    assert(first_differ(a, b, i + 1));
                    assert((a[i + 1] as int) < b[i + 1] as int);
                }
            }
            if is_lexicographic(a, b) {
                if a.len() <= b.len() && forall|k: int| 0 <= k < a.len() ==> #[trigger] a[k] == b[k] {
                    assert forall|k: int| 0 <= k < x.len() implies #[trigger] x[k] == y[k] by {
                        assert(a[k + 1] == b[k + 1]);
                    }
                } else {
                    let i = choose|i: int|
                        first_differ(a, b, i) && (#[trigger] a[i] as int) < b[i] as int;
                    assert forall|k: int| 0 <= k < i - 1 implies #[trigger] x[k] == y[k] by {
                        assert(a[k + 1] == b[k + 1]);
                    }
                    assert(x[i - 1] == a[i] && y[i - 1] == b[i]);
                    assert(first_differ(x, y, i - 1));
                    assert((x[i - 1] as int) < y[i - 1] as int);
                }
            }
        } else {
            assert(first_differ(a, b, 0));
            if is_lexicographic(a, b) {
                if exists|i: int| first_differ(a, b, i) && (#[trigger] a[i] as int) < b[i] as int {
                    let i = choose|i: int|
                        first_differ(a, b, i) && (#[trigger] a[i] as int) < b[i] as int;
                    assert(i == 0);
                }
            }
        }
    } else if a.len() > 0 {
        assert(!is_lexicographic(a, b));
    }
}

/// Whether a text comes before another, or is the same.
pub fn text_not_after(a: &str, b: &str) -> (r: bool)
    ensures
        r == text_le(a@, b@),
        r == is_lexicographic(a@, b@),
{
    proof {
        theorem_text_order(a@, b@);
    }
    let n: usize = a.unicode_len();
    let m: usize = b.unicode_len();
    let mut i: usize = 0;
    assert(a@.skip(0) =~= a@);
    assert(b@.skip(0) =~= b@);
    while i < n
        invariant
            n == a@.len(),
            m == b@.len(),
            i <= n,
            i <= m,
            text_le(a@, b@) == is_lexicographic(a@, b@),
            text_le(a@, b@) == text_le(a@.skip(i as int), b@.skip(i as int)),
        decreases n - i,
    {
        if i >= m {
            return false;
        }
        assert(a@.skip(i as int)[0] == a@[i as int]);
        assert(b@.skip(i as int)[0] == b@[i as int]);
        let x: char = a.get_char(i);
        let y: char = b.get_char(i);
        if x != y {
            return x < y;
        }
        assert(a@.skip(i as int).drop_first() =~= a@.skip(i + 1));
        assert(b@.skip(i as int).drop_first() =~= b@.skip(i + 1));
        i = i + 1;
    }
    true
}

pub proof fn lemma_text_le_trans(a: Seq<char>, b: Seq<char>, c: Seq<char>)
    requires
        text_le(a, b),
        text_le(b, c),
    ensures
        text_le(a, c),
    decreases a.len(),
{
    if a.len() > 0 && b.len() > 0 && c.len() > 0 && a[0] == b[0] && b[0] == c[0] {
        lemma_text_le_trans(a.drop_first(), b.drop_first(), c.drop_first());
    }
}

pub proof fn lemma_text_le_total(a: Seq<char>, b: Seq<char>)
    ensures
        text_le(a, b) || text_le(b, a),
    decreases a.len(),
{
    if a.len() > 0 && b.len() > 0 && a[0] == b[0] {
        lemma_text_le_total(a.drop_first(), b.drop_first());
    }
}

pub proof fn lemma_text_le_antisymmetric(a: Seq<char>, b: Seq<char>)
    requires
        text_le(a, b),
        text_le(b, a),
    ensures
        a == b,
    decreases a.len(),
{
    if a.len() > 0 && b.len() > 0 {
        lemma_text_le_antisymmetric(a.drop_first(), b.drop_first());
        assert(a =~= seq![a[0]] + a.drop_first());
        assert(b =~= seq![b[0]] + b.drop_first());
    } else {
        assert(a =~= b);
    }
}

/// Texts in order, none twice.
pub open spec fn sorted_texts(list: Seq<Seq<char>>) -> bool {
    forall|i: int, j: int|
        0 <= i < j < list.len() ==> text_le(#[trigger] list[i], #[trigger] list[j]) && list[i]
            != list[j]
}

/// The texts of a list in order, each once.
pub fn sort_texts(list: &Vec<String>) -> (out: Vec<String>)
    ensures
        sorted_texts(text_views(out@)),
        forall|s: Seq<char>|
            text_views(out@).contains(s) <==> #[trigger] text_views(list@).contains(s),
{
    let mut out: Vec<String> = Vec::new();
    let mut i: usize = 0;
    while i < list.len()
        invariant
            i <= list@.len(),
            sorted_texts(text_views(out@)),
            forall|k: int| 0 <= k < i ==> text_views(out@).contains(#[trigger] list@[k]@),
            forall|k: int|
                0 <= k < out@.len() ==> text_views(list@).contains((#[trigger] out@[k])@),
        decreases list@.len() - i,
    {
        let s: &String = &list[i];
        let ghost before = text_views(out@);
        if !text_in(&out, s.as_str()) {
            let mut at: usize = 0;
            while at < out.len() && text_not_after(out[at].as_str(), s.as_str())
                invariant
                    at <= out@.len(),
                    before == text_views(out@),
                    forall|k: int| 0 <= k < at ==> text_le(#[trigger] before[k], s@),
                decreases out@.len() - at,
            {
                at = at + 1;
            }
            proof {
                if at < out@.len() {
                    lemma_text_le_total(before[at as int], s@);
                    assert(text_le(s@, before[at as int]));
                    assert forall|k: int| at <= k < before.len() implies text_le(
                        s@,
                        #[trigger] before[k],
                    ) by {
                        if k > at {
                            lemma_text_le_trans(s@, before[at as int], before[k]);
                        }
                    }
                }
            }
            let ghost old_out = out@;
            out.insert(at, s.clone());
            proof {
                let after = text_views(out@);
                assert(after =~= before.insert(at as int, s@));
                assert forall|k: int| 0 <= k < before.len() implies before[k] != s@ by {
                    if before[k] == s@ {
                        assert(before.contains(s@));
                    }
                }
                assert forall|a: int, b: int| 0 <= a < b < after.len() implies text_le(
                    #[trigger] after[a],
                    #[trigger] after[b],
                ) && after[a] != after[b] by {
                    let a0 = if a < at { a } else { a - 1 };
                    let b0 = if b < at { b } else { b - 1 };
                    if a == at {
                        assert(after[b] == before[b0]);
                    } else if b == at {
                        assert(after[a] == before[a0]);
                    } else {
                        assert(after[a] == before[a0] && after[b] == before[b0]);
                    }
                }
                assert(after[at as int] == s@);
                assert forall|k: int| 0 <= k < i implies after.contains(#[trigger] list@[k]@) by {
                    let p = choose|p: int| 0 <= p < before.len() && before[p] == list@[k]@;
                    let q = if p < at { p } else { p + 1 };
                    assert(after[q] == before[p]);
                }
                assert(text_views(list@)[i as int] == s@);
                assert forall|k: int| 0 <= k < out@.len() implies text_views(list@).contains(
                    (#[trigger] out@[k])@,
                ) by {
                    if k < at {
                        assert(out@[k] == old_out[k]);
                    } else if k > at {
                        assert(out@[k] == old_out[k - 1]);
                    }
                }
            }
        }
        i = i + 1;
    }
    proof {
        assert forall|t: Seq<char>| text_views(out@).contains(t) <==> #[trigger] text_views(
            list@,
        ).contains(t) by {
            if text_views(out@).contains(t) {
                let k = choose|k: int| 0 <= k < out@.len() && text_views(out@)[k] == t;
                assert(out@[k]@ == t);
            }
            if text_views(list@).contains(t) {
                let k = choose|k: int| 0 <= k < list@.len() && text_views(list@)[k] == t;
                assert(list@[k]@ == t);
            }
        }
    }
    out
}

} // verus!
