//! Text: numbers written out, white space taken off the ends, and letters made small.

use vstd::prelude::*;
use vstd::string::StrSliceExecFns;

verus! {

/// `String::push`, which puts one character on the end of a string.
///
/// Trusted: the text afterwards is the text before with the character after it.
pub assume_specification[ String::push ](text: &mut String, c: char)
    ensures
        final(text)@ == old(text)@.push(c),
;

// --- numbers ---------------------------------------------------------------

/// The character a number below ten is written with.
pub open spec fn digit(d: nat) -> char {
    (48 + d) as char
}

/// A number in decimal, with no noughts in front of it.
pub open spec fn digits(n: nat) -> Seq<char>
    decreases n,
{
    if n < 10 {
        seq![digit(n)]
    } else {
        digits(n / 10).push(digit(n % 10))
    }
}

/// The number some digits are.
pub open spec fn value(text: Seq<char>) -> int
    decreases text.len(),
{
    if text.len() == 0 {
        0
    } else {
        10 * value(text.drop_last()) + (text.last() as int - 48)
    }
}

/// Reading back what was written out gives the number, so no two numbers are written alike.
pub proof fn reading_back_digits(n: nat)
    ensures
        value(digits(n)) == n,
        digits(n).len() > 0,
    decreases n,
{
    if n < 10 {
        assert(digits(n).drop_last() =~= Seq::empty());
        assert(value(Seq::empty()) == 0);
        assert(digits(n).last() as int == 48 + n);
        assert(value(digits(n)) == 10 * value(digits(n).drop_last()) + n);
    } else {
        reading_back_digits(n / 10);
        assert(digits(n).drop_last() =~= digits(n / 10));
        assert(digits(n).last() as int == 48 + n % 10);
        assert(value(digits(n)) == 10 * value(digits(n / 10)) + n % 10);
    }
}

/// Put a number on the end of some text.
pub fn append_number(text: &mut String, n: u128)
    ensures
        final(text)@ == old(text)@ + digits(n as nat),
    decreases n,
{
    if n >= 10 {
        append_number(text, n / 10);
    }
    let last: u8 = (n % 10) as u8;
    let ghost before = text@;
    text.push((48u8 + last) as char);
    proof {
        assert(text@ =~= old(text)@ + digits(n as nat));
    }
}

// --- white space -----------------------------------------------------------

/// The characters Unicode calls white space.
pub open spec fn space(c: char) -> bool {
    ||| 0x9 <= c as u32 <= 0xd
    ||| c as u32 == 0x20
    ||| c as u32 == 0x85
    ||| c as u32 == 0xa0
    ||| c as u32 == 0x1680
    ||| 0x2000 <= c as u32 <= 0x200a
    ||| c as u32 == 0x2028
    ||| c as u32 == 0x2029
    ||| c as u32 == 0x202f
    ||| c as u32 == 0x205f
    ||| c as u32 == 0x3000
}

pub fn is_space(c: char) -> (r: bool)
    ensures
        r == space(c),
{
    let n: u32 = c as u32;
    (0x9 <= n && n <= 0xd) || n == 0x20 || n == 0x85 || n == 0xa0 || n == 0x1680 || (0x2000 <= n
        && n <= 0x200a) || n == 0x2028 || n == 0x2029 || n == 0x202f || n == 0x205f || n == 0x3000
}

/// Text without the white space at its front.
pub open spec fn trimmed_front(text: Seq<char>) -> Seq<char>
    decreases text.len(),
{
    if text.len() > 0 && space(text[0]) {
        trimmed_front(text.drop_first())
    } else {
        text
    }
}

/// Text without the white space at its back.
pub open spec fn trimmed_back(text: Seq<char>) -> Seq<char>
    decreases text.len(),
{
    if text.len() > 0 && space(text.last()) {
        trimmed_back(text.drop_last())
    } else {
        text
    }
}

/// Text without the white space at either end.
pub open spec fn trimmed(text: Seq<char>) -> Seq<char> {
    trimmed_back(trimmed_front(text))
}

/// The characters of some text, one by one.
pub fn characters(text: &str) -> (r: Vec<char>)
    ensures
        r@ == text@,
{
    let mut all: Vec<char> = Vec::new();
    for c in it: text.chars()
        invariant
            it.seq() == text@,
            all@ == text@.take(it.index() as int),
    {
        proof {
            assert(text@.take(it.index() as int + 1) =~= text@.take(it.index() as int).push(c));
        }
        all.push(c);
    }
    proof {
        assert(text@.take(text@.len() as int) =~= text@);
    }
    all
}

/// The text some characters spell, from one place up to another.
pub fn spelled(all: &Vec<char>, from: usize, to: usize) -> (r: String)
    requires
        from <= to <= all@.len(),
    ensures
        r@ == all@.subrange(from as int, to as int),
{
    let mut text = String::new();
    let mut i: usize = from;
    proof {
        assert(all@.subrange(from as int, from as int) =~= Seq::empty());
    }
    while i < to
        invariant
            from <= i <= to <= all@.len(),
            text@ == all@.subrange(from as int, i as int),
        decreases to - i,
    {
        text.push(all[i]);
        i = i + 1;
        proof {
            assert(text@ =~= all@.subrange(from as int, i as int));
        }
    }
    text
}

/// Text without the white space at either end.
pub fn trim(text: &str) -> (r: String)
    ensures
        r@ == trimmed(text@),
{
    let all: Vec<char> = characters(text);
    let mut from: usize = 0;
    let n: usize = all.len();
    proof {
        assert(all@.skip(0) =~= all@);
    }
    while from < n && is_space(all[from])
        invariant
            from <= n == all@.len(),
            trimmed_front(all@) == trimmed_front(all@.skip(from as int)),
        decreases n - from,
    {
        proof {
            assert(all@.skip(from as int).drop_first() =~= all@.skip(from as int + 1));
        }
        from = from + 1;
    }
    let ghost front = trimmed_front(all@);
    proof {
        assert(front == all@.skip(from as int));
        assert(all@.subrange(from as int, n as int) =~= front);
    }
    let mut to: usize = n;
    while to > from && is_space(all[to - 1])
        invariant
            from <= to <= n == all@.len(),
            trimmed_back(front) == trimmed_back(all@.subrange(from as int, to as int)),
        decreases to,
    {
        proof {
            assert(all@.subrange(from as int, to as int).drop_last() =~= all@.subrange(
                from as int,
                to as int - 1,
            ));
        }
        to = to - 1;
    }
    spelled(&all, from, to)
}

/// The first so many characters of some text, or all of it when it is shorter.
pub open spec fn shortened(text: Seq<char>, most: int) -> Seq<char> {
    if text.len() > most {
        text.take(most)
    } else {
        text
    }
}

pub fn shorten(text: &str, most: usize) -> (r: String)
    ensures
        r@ == shortened(text@, most as int),
{
    let all: Vec<char> = characters(text);
    let to: usize = if all.len() > most {
        most
    } else {
        all.len()
    };
    proof {
        assert(all@.subrange(0, to as int) =~= shortened(text@, most as int));
    }
    spelled(&all, 0, to)
}

// --- letters ---------------------------------------------------------------

/// A capital A to Z made small, and anything else as it is.
pub open spec fn small(c: char) -> char {
    if 'A' <= c && c <= 'Z' {
        (c as u8 + 32) as char
    } else {
        c
    }
}

fn make_small(c: char) -> (r: char)
    ensures
        r == small(c),
{
    if 'A' <= c && c <= 'Z' {
        (c as u8 + 32) as char
    } else {
        c
    }
}

pub open spec fn all_small(text: Seq<char>) -> Seq<char> {
    text.map_values(|c: char| small(c))
}

/// Text with its capital A to Zs made small.
pub fn lower(text: &str) -> (r: String)
    ensures
        r@ == all_small(text@),
{
    let all: Vec<char> = characters(text);
    let n: usize = all.len();
    let mut r = String::new();
    let mut i: usize = 0;
    while i < n
        invariant
            i <= n == all@.len(),
            r@.len() == i,
            forall|k: int| 0 <= k < i ==> #[trigger] r@[k] == small(all@[k]),
        decreases n - i,
    {
        r.push(make_small(all[i]));
        i = i + 1;
    }
    proof {
        assert(r@ =~= all_small(text@));
    }
    r
}

/// Whether two texts are the same text.
pub fn same(a: &str, b: &str) -> (r: bool)
    ensures
        r == (a@ == b@),
{
    a.to_owned() == b.to_owned()
}

// --- what each comes to ------------------------------------------------------------

/// A number is written in digits alone, with no nought in front unless it is nought, and ten times
/// it and something below ten is it with one more digit.
pub proof fn a_number_is_written_in_digits(n: nat, d: nat)
    requires
        d < 10,
    ensures
        digits(n).len() > 0,
        forall|i: int| 0 <= i < digits(n).len() ==> '0' <= #[trigger] digits(n)[i] <= '9',
        digits(n)[0] == '0' ==> n == 0,
        n >= 1 ==> digits(10 * n + d).drop_last() == digits(n) && digits(10 * n + d).last() as int
            == 48 + d,
        digits(d).len() == 1 && digits(d)[0] as int == 48 + d,
    decreases n,
{
    if n >= 10 {
        a_number_is_written_in_digits(n / 10, d);
        let front = digits(n / 10);
        assert(digits(n)[0] == front[0]);
        assert forall|i: int| 0 <= i < digits(n).len() implies '0' <= #[trigger] digits(n)[i]
            <= '9' by {
            if i < front.len() {
                assert(digits(n)[i] == front[i]);
            }
        }
    }
    if n >= 1 {
        assert((10 * n + d) / 10 == n && (10 * n + d) % 10 == d);
        assert(digits(10 * n + d).drop_last() =~= digits(n));
    }
}

/// White space is what Unicode says it is: tab to carriage return, the space, next line, the hard
/// space, the ogham space, en quad to hair space, the line and paragraph separators, the narrow
/// hard space, the mathematical space and the ideographic one.
pub proof fn what_is_white_space(c: char)
    ensures
        (c as u32) < 0x80 ==> (space(c) <==> c == ' ' || c == '\t' || c == '\n' || c as u32 == 0xb
            || c as u32 == 0xc || c == '\r'),
        0x80 <= c as u32 && (c as u32) < 0x2000 ==> (space(c) <==> c as u32 == 0x85 || c as u32
            == 0xa0 || c as u32 == 0x1680),
        0x2000 <= c as u32 ==> (space(c) <==> c as u32 <= 0x200a || c as u32 == 0x2028 || c as u32
            == 0x2029 || c as u32 == 0x202f || c as u32 == 0x205f || c as u32 == 0x3000),
{
}

/// Text that is trimmed is the middle of what it was: what is gone from either end is white space,
/// and what is left neither starts nor ends with any. `r` is where it starts and ends.
pub proof fn trimming_leaves_the_middle(text: Seq<char>) -> (r: (int, int))
    ensures
        0 <= r.0 <= r.1 <= text.len(),
        trimmed(text) == text.subrange(r.0, r.1),
        forall|i: int| 0 <= i < r.0 ==> space(#[trigger] text[i]),
        forall|i: int| r.1 <= i < text.len() ==> space(#[trigger] text[i]),
        r.0 < r.1 ==> !space(text[r.0]) && !space(text[r.1 - 1]),
{
    let a = lemma_trimmed_front(text);
    let front = trimmed_front(text);
    let b = lemma_trimmed_back(front);
    assert(front.take(b) =~= text.subrange(a, a + b));
    assert forall|i: int| a + b <= i < text.len() implies space(#[trigger] text[i]) by {
        assert(front[i - a] == text[i]);
    }
    if b > 0 {
        assert(front[0] == text[a]);
        assert(front[b - 1] == text[a + b - 1]);
    }
    (a, a + b)
}

proof fn lemma_trimmed_front(text: Seq<char>) -> (a: int)
    ensures
        0 <= a <= text.len(),
        trimmed_front(text) == text.skip(a),
        forall|i: int| 0 <= i < a ==> space(#[trigger] text[i]),
        a < text.len() ==> !space(text[a]),
    decreases text.len(),
{
    if text.len() > 0 && space(text[0]) {
        let rest = text.drop_first();
        let a = lemma_trimmed_front(rest);
        assert(rest.skip(a) =~= text.skip(a + 1));
        assert forall|i: int| 0 <= i < a + 1 implies space(#[trigger] text[i]) by {
            if i > 0 {
                assert(rest[i - 1] == text[i]);
            }
        }
        a + 1
    } else {
        assert(text.skip(0) =~= text);
        0
    }
}

proof fn lemma_trimmed_back(text: Seq<char>) -> (b: int)
    ensures
        0 <= b <= text.len(),
        trimmed_back(text) == text.take(b),
        forall|i: int| b <= i < text.len() ==> space(#[trigger] text[i]),
        b > 0 ==> !space(text[b - 1]),
    decreases text.len(),
{
    if text.len() > 0 && space(text.last()) {
        let rest = text.drop_last();
        let b = lemma_trimmed_back(rest);
        assert(rest.take(b) =~= text.take(b));
        assert forall|i: int| b <= i < text.len() implies space(#[trigger] text[i]) by {
            if i < rest.len() {
                assert(rest[i] == text[i]);
            }
        }
        b
    } else {
        assert(text.take(text.len() as int) =~= text);
        text.len() as int
    }
}

/// Text that is cut short keeps its front, and as much of it as there is room for.
pub proof fn cutting_short_keeps_the_front(text: Seq<char>, most: int)
    requires
        most >= 0,
    ensures
        shortened(text, most).len() == (if text.len() <= most {
            text.len() as int
        } else {
            most
        }),
        forall|i: int|
            0 <= i < shortened(text, most).len() ==> #[trigger] shortened(text, most)[i] == text[i],
{
}

/// Making letters small makes each of A to Z the small letter it is, and leaves every other
/// character as it is.
pub proof fn only_capitals_are_made_small(text: Seq<char>, i: int)
    requires
        0 <= i < text.len(),
    ensures
        all_small(text).len() == text.len(),
        'A' <= text[i] <= 'Z' ==> all_small(text)[i] as u32 == text[i] as u32 + 32,
        !('A' <= text[i] <= 'Z') ==> all_small(text)[i] == text[i],
{
}

} // verus!
