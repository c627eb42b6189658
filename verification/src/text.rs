//! Text: decimal numbers, white space and comparison, over characters.

use vstd::prelude::*;

verus! {

/// `String::push` appends the given character to the end of the string.
pub assume_specification[ String::push ](s: &mut String, c: char)
    ensures
        final(s)@ == old(s)@.push(c),
;

/// The characters of a string, one by one.
pub fn chars_of(s: &str) -> (v: Vec<char>)
    ensures
        v@ == s@,
{
    let mut v: Vec<char> = Vec::new();
    for c in it: s.chars()
        invariant
            v@ == it.seq().take(it.index()),
            it.seq() == s@,
    {
        v.push(c);
    }
    v
}

/// The string of the given characters.
pub fn text_of(v: &Vec<char>) -> (s: String)
    ensures
        s@ == v@,
{
    let mut s = String::new();
    let mut i: usize = 0;
    while i < v.len()
        invariant
            i <= v.len(),
            s@ == v@.take(i as int),
        decreases v.len() - i,
    {
        s.push(v[i]);
        assert(v@.take(i + 1) =~= v@.take(i as int).push(v@[i as int]));
        i += 1;
    }
    assert(v@.take(v@.len() as int) =~= v@);
    s
}

/// Whether two strings have the same characters.
pub fn same_text(a: &str, b: &str) -> (r: bool)
    ensures
        r == (a@ == b@),
{
    let x = chars_of(a);
    let y = chars_of(b);
    if x.len() != y.len() {
        return false;
    }
    let mut i: usize = 0;
    while i < x.len()
        invariant
            i <= x.len(),
            x@ == a@,
            y@ == b@,
            x.len() == y.len(),
            forall|j: int| 0 <= j < i ==> x@[j] == y@[j],
        decreases x.len() - i,
    {
        if x[i] != y[i] {
            return false;
        }
        i += 1;
    }
    assert(a@ =~= b@);
    true
}

/// A copy of a text.
pub fn copy(a: &str) -> (s: String)
    ensures
        s@ == a@,
{
    let mut s = String::new();
    s.append(a);
    assert(s@ =~= a@);
    s
}

/// One text after the other.
pub fn join(a: &str, b: &str) -> (s: String)
    ensures
        s@ == a@ + b@,
{
    let mut s = String::new();
    s.append(a);
    s.append(b);
    assert(s@ =~= a@ + b@);
    s
}

/// The bytes of a string.
pub fn bytes_of(s: &str) -> (v: Vec<u8>)
    ensures
        v@ == vstd::utf8::encode_utf8(s@),
{
    let b = s.as_bytes();
    let mut v: Vec<u8> = Vec::new();
    let mut i: usize = 0;
    while i < b.len()
        invariant
            i <= b.len(),
            b@ == vstd::utf8::encode_utf8(s@),
            v@ == b@.take(i as int),
        decreases b.len() - i,
    {
        v.push(b[i]);
        assert(b@.take(i + 1) =~= b@.take(i as int).push(b@[i as int]));
        i += 1;
    }
    assert(b@.take(b@.len() as int) =~= b@);
    v
}

/// The character of a decimal digit.
pub open spec fn digit(d: nat) -> char {
    (48 + d) as char
}

/// A number in decimal notation, without leading zeros.
pub open spec fn decimal(n: nat) -> Seq<char>
    decreases n,
{
    if n < 10 {
        seq![digit(n)]
    } else {
        decimal(n / 10).push(digit(n % 10))
    }
}

/// Writes a number of up to 128 bits in decimal notation.
pub fn wide_decimal_text(n: u128) -> (s: String)
    ensures
        s@ == decimal(n as nat),
    decreases n,
{
    if n < 10 {
        let mut s = String::new();
        s.push((48 + n as u8) as char);
        assert(s@ =~= decimal(n as nat));
        s
    } else {
        let mut s = wide_decimal_text(n / 10);
        s.push((48 + (n % 10) as u8) as char);
        s
    }
}

/// Writes a number in decimal notation.
pub fn decimal_text(n: u64) -> (s: String)
    ensures
        s@ == decimal(n as nat),
{
    wide_decimal_text(n as u128)
}

/// A number after a text.
pub fn numbered(before: &str, n: u64) -> (s: String)
    ensures
        s@ == before@ + decimal(n as nat),
{
    join(before, decimal_text(n).as_str())
}

/// A number between two texts.
pub fn around(before: &str, n: u64, after: &str) -> (s: String)
    ensures
        s@ == before@ + decimal(n as nat) + after@,
{
    let mut s = join(before, decimal_text(n).as_str());
    s.append(after);
    s
}

/// White space, as Unicode has it.
pub open spec fn is_space(c: char) -> bool {
    let n = c as u32;
    ||| 0x9 <= n <= 0xd
    ||| n == 0x20
    ||| n == 0x85
    ||| n == 0xa0
    ||| n == 0x1680
    ||| 0x2000 <= n <= 0x200a
    ||| n == 0x2028
    ||| n == 0x2029
    ||| n == 0x202f
    ||| n == 0x205f
    ||| n == 0x3000
}

/// Tests for white space.
pub fn space(c: char) -> (r: bool)
    ensures
        r == is_space(c),
{
    let n: u32 = c as u32;
    (n >= 0x9 && n <= 0xd) || n == 0x20 || n == 0x85 || n == 0xa0 || n == 0x1680 || (n >= 0x2000 && n <= 0x200a)
        || n == 0x2028 || n == 0x2029 || n == 0x202f || n == 0x205f || n == 0x3000
}

/// The first place, from `i` on, whose character is not one of those given; or
/// the end.
pub open spec fn past(s: Seq<char>, i: int, those: spec_fn(char) -> bool) -> int
    decreases s.len() - i,
{
    if 0 <= i < s.len() && those(s[i]) {
        past(s, i + 1, those)
    } else {
        i
    }
}

/// The last place, up to `n`, whose character before it is not one of those
/// given; or the beginning.
pub open spec fn before(s: Seq<char>, n: int, those: spec_fn(char) -> bool) -> int
    decreases n,
{
    if 0 < n <= s.len() && those(s[n - 1]) {
        before(s, n - 1, those)
    } else {
        n
    }
}

/// A text without those of the given characters that it starts with.
pub open spec fn without_head(s: Seq<char>, those: spec_fn(char) -> bool) -> Seq<char> {
    s.skip(past(s, 0, those))
}

/// A text without those of the given characters that it ends with.
pub open spec fn without_tail(s: Seq<char>, those: spec_fn(char) -> bool) -> Seq<char> {
    s.take(before(s, s.len() as int, those))
}

/// A text without white space around it.
pub open spec fn trimmed(s: Seq<char>) -> Seq<char> {
    without_tail(without_head(s, |c: char| is_space(c)), |c: char| is_space(c))
}

/// The characters from `i` up to `j`.
pub fn part(s: &Vec<char>, i: usize, j: usize) -> (r: Vec<char>)
    requires
        i <= j <= s@.len(),
    ensures
        r@ == s@.subrange(i as int, j as int),
{
    let mut r: Vec<char> = Vec::new();
    let mut k: usize = i;
    while k < j
        invariant
            i <= k <= j <= s@.len(),
            r@ == s@.subrange(i as int, k as int),
        decreases j - k,
    {
        r.push(s[k]);
        assert(s@.subrange(i as int, k + 1) =~= s@.subrange(i as int, k as int).push(s@[k as int]));
        k += 1;
    }
    r
}

/// Takes white space off both ends.
pub fn trim(s: &Vec<char>) -> (r: Vec<char>)
    ensures
        r@ == trimmed(s@),
{
    let ghost those = |c: char| is_space(c);
    let mut i: usize = 0;
    while i < s.len() && space(s[i])
        invariant
            i <= s@.len(),
            those == (|c: char| is_space(c)),
            past(s@, 0, those) == past(s@, i as int, those),
        decreases s.len() - i,
    {
        i += 1;
    }
    let ghost rest = s@.skip(i as int);
    let mut j: usize = s.len();
    while j > i && space(s[j - 1])
        invariant
            i <= j <= s@.len(),
            those == (|c: char| is_space(c)),
            rest == s@.skip(i as int),
            before(rest, rest.len() as int, those) == before(rest, j - i, those),
        decreases j,
    {
        assert(rest[j - i - 1] == s@[j - 1]);
        j -= 1;
    }
    proof {
        if j > i {
            assert(rest[j - i - 1] == s@[j - 1]);
        }
        assert(rest.take(j - i) =~= s@.subrange(i as int, j as int));
    }
    part(s, i, j)
}

/// Takes one character off the start, as often as it is there.
pub fn strip_head(s: &Vec<char>, those: char) -> (r: Vec<char>)
    ensures
        r@ == without_head(s@, |c: char| c == those),
{
    let ghost p = |c: char| c == those;
    let mut i: usize = 0;
    while i < s.len() && s[i] == those
        invariant
            i <= s@.len(),
            p == (|c: char| c == those),
            past(s@, 0, p) == past(s@, i as int, p),
        decreases s.len() - i,
    {
        i += 1;
    }
    assert(s@.skip(i as int) =~= s@.subrange(i as int, s@.len() as int));
    part(s, i, s.len())
}

/// Takes one character off the end, as often as it is there.
pub fn strip_tail(s: &Vec<char>, those: char) -> (r: Vec<char>)
    ensures
        r@ == without_tail(s@, |c: char| c == those),
{
    let ghost p = |c: char| c == those;
    let mut j: usize = s.len();
    while j > 0 && s[j - 1] == those
        invariant
            j <= s@.len(),
            p == (|c: char| c == those),
            before(s@, s@.len() as int, p) == before(s@, j as int, p),
        decreases j,
    {
        j -= 1;
    }
    assert(s@.take(j as int) =~= s@.subrange(0, j as int));
    part(s, 0, j)
}

/// Whether a character is a decimal digit.
pub open spec fn is_digit(c: char) -> bool {
    '0' <= c && c <= '9'
}

/// The number that a row of decimal digits stands for; nothing, if some character
/// is not one.
pub open spec fn digits_value(s: Seq<char>) -> Option<nat>
    decreases s.len(),
{
    if s.len() == 0 {
        Some(0)
    } else {
        match digits_value(s.drop_last()) {
            Some(n) if is_digit(s.last()) => Some((n * 10 + (s.last() as u32 - 48)) as nat),
            _ => None,
        }
    }
}

/// The number that a text stands for: decimal digits, at least one, perhaps after
/// a plus sign; nothing, if it is another text or the number exceeds `max`.
pub open spec fn number(s: Seq<char>, max: nat) -> Option<nat> {
    let digits = if s.len() > 0 && s[0] == '+' { s.skip(1) } else { s };
    if digits.len() == 0 {
        None
    } else {
        match digits_value(digits) {
            Some(n) if n <= max => Some(n),
            _ => None,
        }
    }
}

/// The value of the first digits is no more than that of all.
proof fn lemma_digits_grow(s: Seq<char>, n: int)
    requires
        0 <= n <= s.len(),
    ensures
        digits_value(s) matches Some(v) ==> (digits_value(s.take(n)) matches Some(w) && w <= v),
    decreases s.len(),
{
    if n < s.len() {
        assert(s.drop_last().take(n) =~= s.take(n));
        lemma_digits_grow(s.drop_last(), n);
    } else {
        assert(s.take(n) =~= s);
    }
}

/// The digits of a number in decimal notation stand for that number.
proof fn lemma_decimal_digits(n: nat)
    ensures
        decimal(n).len() > 0,
        digits_value(decimal(n)) == Some(n),
        is_digit(decimal(n)[0]),
    decreases n,
{
    if n < 10 {
        assert(decimal(n).drop_last() =~= Seq::empty());
        assert(digits_value(Seq::<char>::empty()) == Some(0nat));
    } else {
        lemma_decimal_digits(n / 10);
        assert(decimal(n).drop_last() =~= decimal(n / 10));
        assert(decimal(n)[0] == decimal(n / 10)[0]);
    }
}

/// A number in decimal notation reads back as that number.
pub proof fn law_decimals_read_back(n: nat, max: nat)
    requires
        n <= max,
    ensures
        number(decimal(n), max) == Some(n),
{
    lemma_decimal_digits(n);
}

/// Reads a number of no more than `max`.
pub fn parse_number(s: &Vec<char>, max: u64) -> (r: Option<u64>)
    ensures
        match r {
            Some(n) => number(s@, max as nat) == Some(n as nat),
            None => number(s@, max as nat) is None,
        },
{
    let start: usize = if s.len() > 0 && s[0] == '+' {
        1
    } else {
        0
    };
    let ghost digits = s@.skip(start as int);
    assert(s@.skip(0) =~= s@);
    if start == s.len() {
        return None;
    }
    let mut n: u64 = 0;
    let mut i: usize = start;
    while i < s.len()
        invariant
            start <= i <= s@.len(),
            digits == s@.skip(start as int),
            digits.len() > 0,
            digits == (if s@.len() > 0 && s@[0] == '+' { s@.skip(1) } else { s@ }),
            digits_value(digits.take(i - start)) == Some(n as nat),
            n <= max,
        decreases s.len() - i,
    {
        let c: char = s[i];
        proof {
            let next = digits.take(i + 1 - start);
            assert(next.drop_last() =~= digits.take(i - start));
            assert(next.last() == c);
            lemma_digits_grow(digits, i + 1 - start);
        }
        if c < '0' || c > '9' {
            return None;
        }
        let wide: u128 = (n as u128) * 10 + (c as u32 - 48) as u128;
        if wide > max as u128 {
            return None;
        }
        n = wide as u64;
        i += 1;
    }
    assert(digits.take(digits.len() as int) =~= digits);
    Some(n)
}

/// Decimal notation: the ten digits for the numbers below ten, and one digit more, the
/// last, for what is left of ten times a number.
pub proof fn law_decimal_notation(n: nat, d: nat)
    requires
        n > 0,
        d < 10,
    ensures
        decimal(0) == seq!['0'] && decimal(1) == seq!['1'] && decimal(2) == seq!['2'] && decimal(3) == seq!['3'],
        decimal(4) == seq!['4'] && decimal(5) == seq!['5'] && decimal(6) == seq!['6'] && decimal(7) == seq!['7'],
        decimal(8) == seq!['8'] && decimal(9) == seq!['9'],
        decimal(10 * n + d) == decimal(n) + decimal(d),
{
    assert((10 * n + d) / 10 == n && (10 * n + d) % 10 == d);
    assert(decimal(d) =~= seq![digit(d)]);
    assert(decimal(10 * n + d) =~= decimal(n) + decimal(d));
}

/// Reading numbers: a digit at the end stands for itself and moves the others up by one
/// place; anything else at the end, and no digit at all, is not a number; a plus sign in
/// front changes nothing; and what exceeds the bound is not a number either.
pub proof fn law_reading_numbers(s: Seq<char>, c: char, max: nat)
    requires
        s.len() > 0,
        s[0] != '+',
    ensures
        number(Seq::empty(), max) is None,
        number(seq!['+'], max) is None,
        number(seq!['+'] + s, max) == number(s, max),
        ({
            let d = c as u32 - '0' as u32;
            if '0' <= c && c <= '9' {
                match number(s, max) {
                    Some(n) => number(s.push(c), max) == (if n * 10 + d <= max { Some((n * 10 + d) as nat) } else { None }),
                    None => number(s.push(c), max) is None,
                }
            } else {
                number(s.push(c), max) is None
            }
        }),
        number(s, max) matches Some(n) ==> n <= max,
{
    let empty = Seq::<char>::empty();
    assert(seq!['+'].skip(1) =~= empty);
    assert((seq!['+'] + s).skip(1) =~= s);
    let t = s.push(c);
    assert(t[0] == s[0]);
    assert(t.drop_last() =~= s);
    lemma_digits_grow(t, s.len() as int);
    assert(t.take(s.len() as int) =~= s);
}

/// White space, of ASCII: tab, line feed, vertical tab, form feed, carriage return and
/// blank; beyond it, what Unicode counts as such.
pub proof fn law_white_space(c: char)
    ensures
        (c as u32) < 0x80 ==> (is_space(c) <==> c == ' ' || 9 <= c as u32 <= 13),
        (c as u32) >= 0x80 ==> (is_space(c) <==> {
            let n = c as u32;
            ||| n == 0x85 || n == 0xa0 || n == 0x1680 || n == 0x2028 || n == 0x2029 || n == 0x202f || n == 0x205f
            ||| n == 0x3000 || 0x2000 <= n <= 0x200a
        }),
{
}

/// The end of a run of characters: all up to there are of those given, and the one there
/// is not.
proof fn lemma_past(s: Seq<char>, i: int, those: spec_fn(char) -> bool)
    requires
        0 <= i <= s.len(),
    ensures
        i <= past(s, i, those) <= s.len(),
        forall|k: int| i <= k < past(s, i, those) ==> those(#[trigger] s[k]),
        past(s, i, those) < s.len() ==> !those(s[past(s, i, those)]),
    decreases s.len() - i,
{
    if i < s.len() && those(s[i]) {
        lemma_past(s, i + 1, those);
    }
}

/// A run of characters at the end is taken whole as well: all of it are of those given, and
/// what comes before it is not.
pub proof fn law_runs_at_the_end_are_taken_whole(s: Seq<char>, n: int, those: spec_fn(char) -> bool)
    requires
        0 <= n <= s.len(),
    ensures
        0 <= before(s, n, those) <= n,
        forall|k: int| before(s, n, those) <= k < n ==> those(#[trigger] s[k]),
        before(s, n, those) > 0 ==> !those(s[before(s, n, those) - 1]),
    decreases n,
{
    if n > 0 && those(s[n - 1]) {
        law_runs_at_the_end_are_taken_whole(s, n - 1, those);
    }
}

/// A run of characters is taken whole: all of it are of those given, and what comes after
/// it is not.
pub proof fn law_runs_are_taken_whole(s: Seq<char>, i: int, those: spec_fn(char) -> bool)
    requires
        0 <= i <= s.len(),
    ensures
        ({
            let j = past(s, i, those);
            &&& i <= j <= s.len()
            &&& forall|k: int| i <= k < j ==> those(#[trigger] s[k])
            &&& j < s.len() ==> !those(s[j])
        }),
{
    lemma_past(s, i, those);
}

/// A trimmed text neither begins nor ends with white space, and is the text without some
/// white space before and after it.
pub proof fn law_trimming_takes_white_space_off(s: Seq<char>)
    ensures
        ({
            let t = trimmed(s);
            &&& t.len() > 0 ==> !is_space(t[0]) && !is_space(t.last())
            &&& exists|i: int, j: int|
                {
                    &&& 0 <= i <= j <= s.len()
                    &&& t == #[trigger] s.subrange(i, j)
                    &&& forall|k: int| 0 <= k < i ==> is_space(#[trigger] s[k])
                    &&& forall|k: int| j <= k < s.len() ==> is_space(#[trigger] s[k])
                }
        }),
{
    let space = |c: char| is_space(c);
    let i = past(s, 0, space);
    lemma_past(s, 0, space);
    let rest = s.skip(i);
    let n = before(rest, rest.len() as int, space);
    law_runs_at_the_end_are_taken_whole(rest, rest.len() as int, space);
    let t = trimmed(s);
    assert(t =~= s.subrange(i, i + n));
    assert forall|k: int| 0 <= k < i implies is_space(#[trigger] s[k]) by {
        assert(space(s[k]));
    }
    if n > 0 {
        assert(t[0] == s[i]);
        assert(!space(s[i]));
        assert(!space(rest[n - 1]));
        assert(t.last() == rest[n - 1]);
        assert forall|k: int| i + n <= k < s.len() implies is_space(#[trigger] s[k]) by {
            assert(space(rest[k - i]));
        }
        assert(t == s.subrange(i, i + n));
    } else {
        assert forall|k: int| i <= k < s.len() implies is_space(#[trigger] s[k]) by {
            assert(space(rest[k - i]));
        }
        assert(t =~= s.subrange(i, i));
    }
}

} // verus!
