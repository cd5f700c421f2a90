//! Texts: numbers in labels, and lists of names.

use vstd::prelude::*;
use vstd::string::*;

verus! {

/// The character of a decimal digit.
pub open spec fn digit(d: int) -> char {
    if d == 0 {
        '0'
    } else if d == 1 {
        '1'
    } else if d == 2 {
        '2'
    } else if d == 3 {
        '3'
    } else if d == 4 {
        '4'
    } else if d == 5 {
        '5'
    } else if d == 6 {
        '6'
    } else if d == 7 {
        '7'
    } else if d == 8 {
        '8'
    } else {
        '9'
    }
}

/// A number in decimal notation, without leading zeros.
pub open spec fn decimal(n: int) -> Seq<char>
    decreases n,
{
    if n < 10 {
        seq![digit(n)]
    } else {
        decimal(n / 10).push(digit(n % 10))
    }
}

fn digit_text(d: u64) -> (r: &'static str)
    requires
        d < 10,
    ensures
        r@ == seq![digit(d as int)],
{
    proof {
        reveal_strlit("0");
        reveal_strlit("1");
        reveal_strlit("2");
        reveal_strlit("3");
        reveal_strlit("4");
        reveal_strlit("5");
        reveal_strlit("6");
        reveal_strlit("7");
        reveal_strlit("8");
        reveal_strlit("9");
    }
    let text = if d == 0 {
        "0"
    } else if d == 1 {
        "1"
    } else if d == 2 {
        "2"
    } else if d == 3 {
        "3"
    } else if d == 4 {
        "4"
    } else if d == 5 {
        "5"
    } else if d == 6 {
        "6"
    } else if d == 7 {
        "7"
    } else if d == 8 {
        "8"
    } else {
        "9"
    };
    assert(text@ =~= seq![digit(d as int)]);
    text
}

/// Put a number in decimal notation behind a text.
pub fn push_decimal(text: &mut String, n: u64)
    ensures
        final(text)@ == old(text)@ + decimal(n as int),
    decreases n,
{
    if n >= 10 {
        push_decimal(text, n / 10);
    }
    text.append(digit_text(n % 10));
    assert(text@ =~= old(text)@ + decimal(n as int));
}

/// Two numbers with the same decimal notation are the same.
pub proof fn law_decimal_is_unique(m: int, n: int)
    requires
        0 <= m,
        0 <= n,
        decimal(m) == decimal(n),
    ensures
        m == n,
    decreases m + n,
{
    let a = decimal(m);
    let b = decimal(n);
    lemma_decimal_is_not_empty(m / 10);
    lemma_decimal_is_not_empty(n / 10);
    assert(a.len() == b.len());
    assert(a.last() == b.last());
    assert(a.drop_last() == b.drop_last());
    if m >= 10 {
        assert(a.drop_last() =~= decimal(m / 10));
    }
    if n >= 10 {
        assert(b.drop_last() =~= decimal(n / 10));
    }
    assert(a.last() == digit(m % 10) && b.last() == digit(n % 10));
    lemma_digit_is_unique(m % 10, n % 10);
    if m >= 10 && n >= 10 {
        law_decimal_is_unique(m / 10, n / 10);
    }
}

proof fn lemma_digit_is_unique(d: int, e: int)
    requires
        0 <= d < 10,
        0 <= e < 10,
        digit(d) == digit(e),
    ensures
        d == e,
{
}

proof fn lemma_decimal_is_not_empty(n: int)
    ensures
        decimal(n).len() >= 1,
{
}

/// A character that separates words: those with the Unicode property `White_Space`.
pub open spec fn white(c: char) -> bool {
    let n = c as int;
    ||| 0x09 <= n <= 0x0D
    ||| n == 0x20
    ||| n == 0x85
    ||| n == 0xA0
    ||| n == 0x1680
    ||| 0x2000 <= n <= 0x200A
    ||| n == 0x2028
    ||| n == 0x2029
    ||| n == 0x202F
    ||| n == 0x205F
    ||| n == 0x3000
}

/// A text without the white space at its beginning.
pub open spec fn trimmed_start(text: Seq<char>) -> Seq<char>
    decreases text.len(),
{
    if text.len() > 0 && white(text[0]) {
        trimmed_start(text.skip(1))
    } else {
        text
    }
}

/// A text without the white space at its end.
pub open spec fn trimmed_end(text: Seq<char>) -> Seq<char>
    decreases text.len(),
{
    if text.len() > 0 && white(text.last()) {
        trimmed_end(text.drop_last())
    } else {
        text
    }
}

/// A text without the white space around it.
pub open spec fn trimmed(text: Seq<char>) -> Seq<char> {
    trimmed_end(trimmed_start(text))
}

/// Where the last piece of a list begins: behind the last semicolon.
pub open spec fn last_break(text: Seq<char>) -> int
    decreases text.len(),
{
    if text.len() == 0 {
        0
    } else if text.last() == ';' {
        text.len() as int
    } else {
        last_break(text.drop_last())
    }
}

/// What a piece of a list names: nothing, if it is blank.
pub open spec fn name_in(piece: Seq<char>) -> Seq<Seq<char>> {
    if trimmed(piece).len() == 0 {
        Seq::empty()
    } else {
        seq![trimmed(piece)]
    }
}

/// The names in a list: the pieces between semicolons, trimmed, without the blank ones.
pub open spec fn names_in(text: Seq<char>) -> Seq<Seq<char>>
    decreases text.len(),
{
    let start = last_break(text);
    if start <= 0 || start > text.len() {
        name_in(text)
    } else {
        names_in(text.take(start - 1)) + name_in(text.skip(start))
    }
}

/// The characters of each text.
pub open spec fn views(texts: Seq<String>) -> Seq<Seq<char>> {
    Seq::new(texts.len(), |i: int| texts[i]@)
}

fn is_white(c: char) -> (r: bool)
    ensures
        r == white(c),
{
    let n: u32 = c as u32;
    (0x09 <= n && n <= 0x0D) || n == 0x20 || n == 0x85 || n == 0xA0 || n == 0x1680 || (0x2000 <= n
        && n <= 0x200A) || n == 0x2028 || n == 0x2029 || n == 0x202F || n == 0x205F || n == 0x3000
}

/// The piece of `text` from `from` to `to`, trimmed.
fn trimmed_piece<'a>(text: &'a str, from: usize, to: usize) -> (r: &'a str)
    requires
        from <= to <= text@.len(),
    ensures
        r@ == trimmed(text@.subrange(from as int, to as int)),
{
    let ghost piece = text@.subrange(from as int, to as int);
    let mut lo: usize = from;
    while lo < to && is_white(text.get_char(lo))
        invariant
            from <= lo <= to <= text@.len(),
            trimmed_start(text@.subrange(lo as int, to as int)) == trimmed_start(piece),
        ensures
            from <= lo <= to <= text@.len(),
            trimmed_start(text@.subrange(lo as int, to as int)) == trimmed_start(piece),
            lo < to ==> !white(text@[lo as int]),
        decreases to - lo,
    {
        proof {
            let rest = text@.subrange(lo as int, to as int);
            assert(rest.skip(1) =~= text@.subrange(lo + 1, to as int));
            assert(rest[0] == text@[lo as int]);
        }
        lo = lo + 1;
    }
    let ghost front = text@.subrange(lo as int, to as int);
    assert(trimmed_start(piece) == front);
    let mut hi: usize = to;
    while lo < hi && is_white(text.get_char(hi - 1))
        invariant
            from <= lo <= hi <= to <= text@.len(),
            trimmed_end(text@.subrange(lo as int, hi as int)) == trimmed_end(front),
        ensures
            from <= lo <= hi <= to <= text@.len(),
            trimmed_end(text@.subrange(lo as int, hi as int)) == trimmed_end(front),
            lo < hi ==> !white(text@[hi - 1]),
        decreases hi - lo,
    {
        proof {
            let rest = text@.subrange(lo as int, hi as int);
            assert(rest.drop_last() =~= text@.subrange(lo as int, hi - 1));
            assert(rest.last() == text@[hi - 1]);
        }
        hi = hi - 1;
    }
    text.substring_char(lo, hi)
}

/// The names in a list: the pieces between semicolons, trimmed, without the blank ones.
pub fn split_names(text: &str) -> (r: Vec<String>)
    ensures
        views(r@) == names_in(text@),
{
    let n: usize = text.unicode_len();
    let mut names: Vec<String> = Vec::new();
    let mut start: usize = 0;
    let mut i: usize = 0;
    assert(views(names@) =~= Seq::<Seq<char>>::empty());
    assert(text@.take(0) =~= Seq::<char>::empty());
    while i < n
        invariant
            start <= i <= n == text@.len(),
            start == last_break(text@.take(i as int)),
            views(names@) == (if start == 0 {
                Seq::empty()
            } else {
                names_in(text@.take(start - 1))
            }),
        decreases n - i,
    {
        let ghost before = text@.take(i as int);
        let c: char = text.get_char(i);
        if c == ';' {
            let piece = trimmed_piece(text, start, i);
            assert(before.skip(start as int) =~= text@.subrange(start as int, i as int));
            assert(before.skip(0) =~= before);
            assert(start > 0 ==> before.take(start - 1) =~= text@.take(start - 1));
            let ghost had = names@;
            if piece.unicode_len() > 0 {
                names.push(piece.to_owned());
                assert(views(names@) =~= views(had).push(piece@));
            }
            assert(views(names@) =~= names_in(before));
            start = i + 1;
        }
        proof {
            let after = text@.take(i + 1);
            assert(after.drop_last() =~= before);
            assert(after.last() == c);
        }
        i = i + 1;
    }
    assert(text@.take(i as int) =~= text@);
    let piece = trimmed_piece(text, start, n);
    assert(text@.skip(start as int) =~= text@.subrange(start as int, n as int));
    assert(text@.skip(0) =~= text@);
    let ghost had = names@;
    if piece.unicode_len() > 0 {
        names.push(piece.to_owned());
        assert(views(names@) =~= views(had).push(piece@));
    }
    assert(views(names@) =~= names_in(text@));
    names
}

/// The names of two lists joined by a semicolon are the names of the one and then those of
/// the other.
pub proof fn law_semicolons_separate_names(a: Seq<char>, b: Seq<char>)
    ensures
        names_in(a.push(';') + b) == names_in(a) + names_in(b),
    decreases b.len(),
{
    let text = a.push(';') + b;
    let n = a.len() + 1;
    lemma_last_break(b);
    lemma_break_behind(a, b);
    let s = last_break(b);
    if s == 0 {
        assert(text.take(n - 1) =~= a);
        assert(text.skip(n as int) =~= b);
    } else {
        assert(text.take(n + s - 1) =~= a.push(';') + b.take(s - 1));
        assert(text.skip(n + s) =~= b.skip(s));
        law_semicolons_separate_names(a, b.take(s - 1));
        assert((names_in(a) + names_in(b.take(s - 1))) + name_in(b.skip(s)) =~= names_in(a) + (
        names_in(b.take(s - 1)) + name_in(b.skip(s))));
    }
}

proof fn lemma_last_break(text: Seq<char>)
    ensures
        0 <= last_break(text) <= text.len(),
    decreases text.len(),
{
    if text.len() > 0 && text.last() != ';' {
        lemma_last_break(text.drop_last());
    }
}

proof fn lemma_break_behind(a: Seq<char>, b: Seq<char>)
    ensures
        last_break(a.push(';') + b) == a.len() + 1 + last_break(b),
    decreases b.len(),
{
    let text = a.push(';') + b;
    if b.len() == 0 {
        assert(text =~= a.push(';'));
    } else {
        assert(text.last() == b.last());
        if b.last() != ';' {
            lemma_break_behind(a, b.drop_last());
            assert(text.drop_last() =~= a.push(';') + b.drop_last());
        }
    }
}

/// A list without a semicolon names what it says between the white space around it, or
/// nothing, if there is only white space. The name begins and ends with no white space, and
/// nothing else was cut off.
pub proof fn law_single_names_are_trimmed(text: Seq<char>) -> (cut: (int, int))
    requires
        forall|i: int| 0 <= i < text.len() ==> text[i] != ';',
    ensures
        0 <= cut.0 <= cut.1 <= text.len(),
        forall|i: int| 0 <= i < cut.0 || cut.1 <= i < text.len() ==> white(#[trigger] text[i]),
        cut.0 < cut.1 ==> !white(text[cut.0]) && !white(text[cut.1 - 1]) && names_in(text) == seq![
            text.subrange(cut.0, cut.1),
        ],
        cut.0 == cut.1 ==> names_in(text).len() == 0,
{
    lemma_unbroken(text);
    let a = lemma_trimmed_start(text);
    let front = trimmed_start(text);
    let n = lemma_trimmed_end(front);
    assert(front == text.skip(a));
    assert(trimmed(text) == front.take(n));
    assert(front.take(n) =~= text.subrange(a, a + n));
    if n > 0 {
        assert(front[0] == text[a]);
        assert(front[n - 1] == text[a + n - 1]);
    }
    assert forall|i: int| 0 <= i < a || a + n <= i < text.len() implies white(
        #[trigger] text[i],
    ) by {
        if i >= a + n {
            assert(front[i - a] == text[i]);
        }
    }
    (a, a + n)
}

proof fn lemma_unbroken(text: Seq<char>)
    requires
        forall|i: int| 0 <= i < text.len() ==> text[i] != ';',
    ensures
        last_break(text) == 0,
    decreases text.len(),
{
    if text.len() > 0 {
        assert(text.last() == text[text.len() - 1]);
        lemma_unbroken(text.drop_last());
    }
}

proof fn lemma_trimmed_start(text: Seq<char>) -> (a: int)
    ensures
        0 <= a <= text.len(),
        trimmed_start(text) == text.skip(a),
        forall|i: int| 0 <= i < a ==> white(#[trigger] text[i]),
        a < text.len() ==> !white(text[a]),
    decreases text.len(),
{
    if text.len() > 0 && white(text[0]) {
        let rest = text.skip(1);
        let b = lemma_trimmed_start(rest);
        assert(rest.skip(b) =~= text.skip(b + 1));
        assert forall|i: int| 0 <= i < b + 1 implies white(#[trigger] text[i]) by {
            if i > 0 {
                assert(rest[i - 1] == text[i]);
            }
        }
        b + 1
    } else {
        assert(text.skip(0) =~= text);
        0
    }
}

proof fn lemma_trimmed_end(text: Seq<char>) -> (n: int)
    ensures
        0 <= n <= text.len(),
        trimmed_end(text) == text.take(n),
        forall|i: int| n <= i < text.len() ==> white(#[trigger] text[i]),
        n > 0 ==> !white(text[n - 1]),
    decreases text.len(),
{
    if text.len() > 0 && white(text.last()) {
        let rest = text.drop_last();
        let n = lemma_trimmed_end(rest);
        assert(rest.take(n) =~= text.take(n));
        assert forall|i: int| n <= i < text.len() implies white(#[trigger] text[i]) by {
            if i < rest.len() {
                assert(rest[i] == text[i]);
            } else {
                assert(text[i] == text.last());
            }
        }
        n
    } else {
        assert(text.take(text.len() as int) =~= text);
        text.len() as int
    }
}

/// The number that digits stand for, the last one for the units.
pub open spec fn number_of(digits: Seq<char>) -> int
    decreases digits.len(),
{
    if digits.len() == 0 {
        0
    } else {
        10 * number_of(digits.drop_last()) + (digits.last() as int - '0' as int)
    }
}

/// A number in decimal notation reads as the number, and has no leading zero.
pub proof fn law_decimals_read_as_their_number(n: int)
    requires
        0 <= n,
    ensures
        number_of(decimal(n)) == n,
        decimal(n).len() > 0,
        n > 0 ==> decimal(n)[0] != '0',
    decreases n,
{
    let text = decimal(n);
    if n < 10 {
        assert(text.drop_last() =~= Seq::<char>::empty());
        assert(number_of(text.drop_last()) == 0);
    } else {
        law_decimals_read_as_their_number(n / 10);
        assert(text.drop_last() =~= decimal(n / 10));
        assert(text[0] == decimal(n / 10)[0]);
    }
}

} // verus!
