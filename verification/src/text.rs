//! Plain text building blocks: decimal numbers, padding, trimming, splitting.

use vstd::prelude::*;

verus! {

/// `String::push` appends one character.
pub assume_specification[ String::push ](s: &mut String, c: char)
    ensures
        final(s)@ == old(s)@.push(c),
;

/// The character of a decimal digit.
pub open spec fn digit_char(d: int) -> char {
    (48 + d) as char
}

/// The decimal digits of `n`, without leading zeros.
pub open spec fn decimal(n: nat) -> Seq<char>
    decreases n,
{
    if n < 10 {
        seq![digit_char(n as int)]
    } else {
        decimal(n / 10).push(digit_char((n % 10) as int))
    }
}

/// The character of a decimal digit.
pub fn digit(d: u8) -> (c: char)
    requires
        d < 10,
    ensures
        c == digit_char(d as int),
{
    (48 + d) as char
}

/// Appends the decimal digits of `n`.
pub fn push_decimal(s: &mut String, n: u128)
    ensures
        final(s)@ == old(s)@ + decimal(n as nat),
    decreases n,
{
    let ghost before = s@;
    if n >= 10 {
        push_decimal(s, n / 10);
    }
    s.push(digit((n % 10) as u8));
    assert(s@ =~= before + decimal(n as nat));
}

/// The last `width` decimal digits of `n`, with leading zeros.
pub open spec fn digits(n: nat, width: nat) -> Seq<char>
    decreases width,
{
    if width == 0 {
        Seq::empty()
    } else {
        digits(n / 10, (width - 1) as nat).push(digit_char((n % 10) as int))
    }
}

/// Appends the last `width` decimal digits of `n`.
pub fn push_digits(s: &mut String, n: u128, width: u8)
    ensures
        final(s)@ == old(s)@ + digits(n as nat, width as nat),
    decreases width,
{
    let ghost before = s@;
    if width > 0 {
        push_digits(s, n / 10, width - 1);
        s.push(digit((n % 10) as u8));
    }
    assert(s@ =~= before + digits(n as nat, width as nat));
}

/// 10^`e`.
pub open spec fn power_of_ten(e: nat) -> nat
    decreases e,
{
    if e == 0 {
        1
    } else {
        10 * power_of_ten((e - 1) as nat)
    }
}

/// The number `n` / 10^`places`, with all its `places` decimals.
pub open spec fn decimals(n: nat, places: nat) -> Seq<char> {
    if places == 0 {
        decimal(n)
    } else {
        decimal(n / power_of_ten(places)) + "."@ + digits(n % power_of_ten(places), places)
    }
}

/// Appends `n` / 10^`places`, with all its `places` decimals.
pub fn push_decimals(s: &mut String, n: u128, places: u8)
    requires
        places <= 3,
    ensures
        final(s)@ == old(s)@ + decimals(n as nat, places as nat),
{
    let ghost before = s@;
    proof {
        reveal_with_fuel(power_of_ten, 4);
    }
    let unit: u128 = if places == 0 {
        1
    } else if places == 1 {
        10
    } else if places == 2 {
        100
    } else {
        1000
    };
    push_decimal(s, n / unit);
    if places > 0 {
        s.append(".");
        push_digits(s, n % unit, places);
    }
    assert(s@ =~= before + decimals(n as nat, places as nat));
}

/// So many spaces.
pub open spec fn spaces(n: int) -> Seq<char> {
    if n <= 0 {
        Seq::empty()
    } else {
        Seq::new(n as nat, |i: int| ' ')
    }
}

/// The text, with spaces before it up to `width` characters.
pub open spec fn right(s: Seq<char>, width: nat) -> Seq<char> {
    spaces(width - s.len()) + s
}

/// The text, with spaces after it up to `width` characters.
pub open spec fn left(s: Seq<char>, width: nat) -> Seq<char> {
    s + spaces(width - s.len())
}

/// Appends so many spaces.
pub fn push_spaces(s: &mut String, n: usize)
    ensures
        final(s)@ == old(s)@ + spaces(n as int),
{
    let ghost before = s@;
    let mut i: usize = 0;
    assert(s@ =~= before + spaces(0));
    while i < n
        invariant
            i <= n,
            s@ == before + spaces(i as int),
        decreases n - i,
    {
        s.push(' ');
        assert(s@ =~= before + spaces(i + 1));
        i = i + 1;
    }
}

/// Appends a text, with spaces before it up to `width` characters.
pub fn push_right(s: &mut String, t: &str, width: usize)
    ensures
        final(s)@ == old(s)@ + right(t@, width as nat),
{
    let ghost before = s@;
    let len: usize = t.unicode_len();
    if len < width {
        push_spaces(s, width - len);
    }
    s.append(t);
    assert(s@ =~= before + right(t@, width as nat));
}

/// Appends a text, with spaces after it up to `width` characters.
pub fn push_left(s: &mut String, t: &str, width: usize)
    ensures
        final(s)@ == old(s)@ + left(t@, width as nat),
{
    let ghost before = s@;
    let len: usize = t.unicode_len();
    s.append(t);
    if len < width {
        push_spaces(s, width - len);
    }
    assert(s@ =~= before + left(t@, width as nat));
}

/// Appends a number, with spaces before it up to `width` characters.
pub fn push_right_decimal(s: &mut String, n: u128, width: usize)
    ensures
        final(s)@ == old(s)@ + right(decimal(n as nat), width as nat),
{
    let mut t = String::new();
    push_decimal(&mut t, n);
    assert(t@ =~= decimal(n as nat));
    push_right(s, t.as_str(), width);
}

/// Are the two texts the same?
pub fn same(a: &str, b: &str) -> (r: bool)
    ensures
        r == (a@ == b@),
{
    a.to_owned() == b.to_owned()
}

/// The text in an optional string.
pub open spec fn optional(s: Option<String>) -> Option<Seq<char>> {
    match s {
        Some(t) => Some(t@),
        None => None,
    }
}

/// A copy of an optional string.
pub fn copy(s: &Option<String>) -> (r: Option<String>)
    ensures
        optional(r) == optional(*s),
{
    match s {
        Some(t) => Some(t.clone()),
        None => None,
    }
}

/// The texts of a list of strings.
pub open spec fn texts(s: Seq<String>) -> Seq<Seq<char>> {
    Seq::new(s.len(), |i: int| s[i]@)
}

/// A character with Unicode's `White_Space` property.
pub open spec fn is_space(c: char) -> bool {
    ||| '\u{9}' <= c <= '\u{d}'
    ||| c == ' '
    ||| c == '\u{85}'
    ||| c == '\u{a0}'
    ||| c == '\u{1680}'
    ||| '\u{2000}' <= c <= '\u{200a}'
    ||| c == '\u{2028}'
    ||| c == '\u{2029}'
    ||| c == '\u{202f}'
    ||| c == '\u{205f}'
    ||| c == '\u{3000}'
}

/// Does the character have Unicode's `White_Space` property?
pub fn space(c: char) -> (r: bool)
    ensures
        r == is_space(c),
{
    ('\u{9}' <= c && c <= '\u{d}') || c == ' ' || c == '\u{85}' || c == '\u{a0}' || c == '\u{1680}'
        || ('\u{2000}' <= c && c <= '\u{200a}') || c == '\u{2028}' || c == '\u{2029}' || c
        == '\u{202f}' || c == '\u{205f}' || c == '\u{3000}'
}

/// The text without its leading white space.
pub open spec fn trim_start(s: Seq<char>) -> Seq<char>
    decreases s.len(),
{
    if s.len() > 0 && is_space(s[0]) {
        trim_start(s.drop_first())
    } else {
        s
    }
}

/// The text without its trailing white space.
pub open spec fn trim_end(s: Seq<char>) -> Seq<char>
    decreases s.len(),
{
    if s.len() > 0 && is_space(s.last()) {
        trim_end(s.drop_last())
    } else {
        s
    }
}

/// The text without white space at either end.
pub open spec fn trim(s: Seq<char>) -> Seq<char> {
    trim_end(trim_start(s))
}

/// The characters of a text.
pub fn chars_of(s: &str) -> (v: Vec<char>)
    ensures
        v@ == s@,
{
    let mut v: Vec<char> = Vec::new();
    for c in it: s.chars()
        invariant
            v@ == it.seq().take(it.index() as int),
            it.seq() == s@,
    {
        v.push(c);
    }
    assert(v@ =~= s@);
    v
}

/// The text of the characters from `from` up to but not `to`.
pub fn slice_text(v: &Vec<char>, from: usize, to: usize) -> (s: String)
    requires
        from <= to <= v.len(),
    ensures
        s@ == v@.subrange(from as int, to as int),
{
    let mut s = String::new();
    let mut i: usize = from;
    assert(s@ =~= v@.subrange(from as int, from as int));
    while i < to
        invariant
            from <= i <= to <= v.len(),
            s@ == v@.subrange(from as int, i as int),
        decreases to - i,
    {
        s.push(v[i]);
        assert(s@ =~= v@.subrange(from as int, i + 1));
        i = i + 1;
    }
    s
}

/// The characters from `from` up to but not `to`, without white space at either
/// end.
pub fn trimmed(v: &Vec<char>, from: usize, to: usize) -> (s: String)
    requires
        from <= to <= v.len(),
    ensures
        s@ == trim(v@.subrange(from as int, to as int)),
{
    let ghost whole = v@.subrange(from as int, to as int);
    let mut a: usize = from;
    while a < to && space(v[a])
        invariant
            from <= a <= to <= v.len(),
            whole == v@.subrange(from as int, to as int),
            trim_start(whole) == trim_start(v@.subrange(a as int, to as int)),
        decreases to - a,
    {
        assert(v@.subrange(a as int, to as int).drop_first() =~= v@.subrange(a + 1, to as int));
        a = a + 1;
    }
    let ghost rest = v@.subrange(a as int, to as int);
    assert(trim_start(whole) == rest);
    let mut b: usize = to;
    while a < b && space(v[b - 1])
        invariant
            from <= a <= b <= to <= v.len(),
            rest == v@.subrange(a as int, to as int),
            trim_end(rest) == trim_end(v@.subrange(a as int, b as int)),
        decreases b - a,
    {
        assert(v@.subrange(a as int, b as int).last() == v@[b - 1]);
        assert(v@.subrange(a as int, b as int).drop_last() =~= v@.subrange(a as int, b - 1));
        b = b - 1;
    }
    assert(trim_end(rest) == v@.subrange(a as int, b as int)) by {
        if a < b {
            assert(v@.subrange(a as int, b as int).last() == v@[b - 1]);
        }
    }
    slice_text(v, a, b)
}

/// The characters before the first white space.
pub open spec fn first_word(s: Seq<char>) -> Seq<char>
    decreases s.len(),
{
    if s.len() == 0 || is_space(s[0]) {
        Seq::empty()
    } else {
        seq![s[0]] + first_word(s.drop_first())
    }
}

/// Text that is left after leading white space starts with something else.
pub proof fn trimmed_starts_with_a_word(s: Seq<char>)
    ensures
        trim_start(s).len() > 0 ==> !is_space(trim_start(s)[0]) && first_word(
            trim_start(s),
        ).len() > 0,
    decreases s.len(),
{
    if s.len() > 0 && is_space(s[0]) {
        trimmed_starts_with_a_word(s.drop_first());
    }
}

/// The first word of a text, empty if there is only white space.
pub fn leading_word(s: &str) -> (r: String)
    ensures
        r@ == first_word(trim_start(s@)),
{
    let v = chars_of(s);
    let mut a: usize = 0;
    assert(v@.skip(0) =~= s@);
    while a < v.len() && space(v[a])
        invariant
            a <= v.len(),
            trim_start(s@) == trim_start(v@.skip(a as int)),
        decreases v.len() - a,
    {
        assert(v@.skip(a as int).drop_first() =~= v@.skip(a + 1));
        a = a + 1;
    }
    let ghost rest = v@.skip(a as int);
    assert(trim_start(s@) == rest);
    let mut b: usize = a;
    assert(v@.subrange(a as int, a as int) + first_word(v@.skip(a as int)) =~= first_word(rest));
    while b < v.len() && !space(v[b])
        invariant
            a <= b <= v.len(),
            first_word(rest) == v@.subrange(a as int, b as int) + first_word(v@.skip(b as int)),
        decreases v.len() - b,
    {
        assert(v@.skip(b as int).drop_first() =~= v@.skip(b + 1));
        assert(v@.subrange(a as int, b as int) + (seq![v@[b as int]] + first_word(v@.skip(b + 1)))
            =~= v@.subrange(a as int, b + 1) + first_word(v@.skip(b + 1)));
        b = b + 1;
    }
    assert(first_word(rest) =~= v@.subrange(a as int, b as int));
    slice_text(&v, a, b)
}

/// A decimal digit.
pub open spec fn is_digit(c: char) -> bool {
    '0' <= c <= '9'
}

/// All decimal digits.
pub open spec fn all_digits(s: Seq<char>) -> bool {
    forall|i: int| 0 <= i < s.len() ==> is_digit(#[trigger] s[i])
}

/// The number that decimal digits write.
pub open spec fn value(s: Seq<char>) -> nat
    decreases s.len(),
{
    if s.len() == 0 {
        0
    } else {
        (10 * value(s.drop_last()) + (s.last() as int - 48)) as nat
    }
}

/// The digits of a number that may have a plus sign.
pub open spec fn unsigned(s: Seq<char>) -> Seq<char> {
    if s.len() > 0 && s[0] == '+' {
        s.drop_first()
    } else {
        s
    }
}

/// The number that a text writes, if it is one and fits in `u64`.
pub open spec fn number(s: Seq<char>) -> Option<u64> {
    let d = unsigned(s);
    if d.len() > 0 && all_digits(d) && value(d) <= u64::MAX {
        Some(value(d) as u64)
    } else {
        None
    }
}

proof fn lemma_value_grows(s: Seq<char>, n: int)
    requires
        0 <= n <= s.len(),
        all_digits(s),
    ensures
        value(s.take(n)) <= value(s),
    decreases s.len(),
{
    if n == s.len() {
        assert(s.take(n) =~= s);
    } else {
        assert(s.drop_last().take(n) =~= s.take(n));
        lemma_value_grows(s.drop_last(), n);
        assert(is_digit(s[s.len() - 1]));
    }
}

/// The number that a text writes.
pub fn parse_number(s: &str) -> (r: Option<u64>)
    ensures
        r == number(s@),
{
    let v = chars_of(s);
    let start: usize = if v.len() > 0 && v[0] == '+' {
        1
    } else {
        0
    };
    let ghost d = unsigned(s@);
    assert(d =~= v@.skip(start as int));
    if start == v.len() {
        return None;
    }
    let mut i: usize = start;
    let mut n: u64 = 0;
    assert(d.take(0) =~= Seq::<char>::empty());
    while i < v.len()
        invariant
            start <= i <= v.len(),
            d == unsigned(s@),
            d == v@.skip(start as int),
            d.len() > 0,
            forall|j: int| 0 <= j < i - start ==> is_digit(#[trigger] d[j]),
            n == value(d.take(i - start)),
        decreases v.len() - i,
    {
        let c = v[i];
        assert(c == d[i - start]);
        if !('0' <= c && c <= '9') {
            assert(!is_digit(d[i - start]));
            return None;
        }
        let digit: u64 = c as u64 - 48;
        assert(d.take(i + 1 - start).drop_last() =~= d.take(i - start));
        assert(value(d.take(i + 1 - start)) == 10 * n + digit);
        let next = match n.checked_mul(10) {
            Some(m) => m.checked_add(digit),
            None => None,
        };
        match next {
            Some(m) => {
                n = m;
            },
            None => {
                proof {
                    if all_digits(d) {
                        lemma_value_grows(d, i + 1 - start);
                    }
                }
                return None;
            },
        }
        i = i + 1;
    }
    assert(d.take(i - start) =~= d);
    Some(n)
}

/// A number that is written down reads back.
pub proof fn written_number_reads_back(n: u64)
    ensures
        number(decimal(n as nat)) == Some(n),
{
    lemma_decimal_value(n as nat);
    assert(is_digit(decimal(n as nat)[0]));
}

proof fn lemma_decimal_value(n: nat)
    ensures
        decimal(n).len() > 0,
        all_digits(decimal(n)),
        value(decimal(n)) == n,
    decreases n,
{
    if n < 10 {
        assert(decimal(n).drop_last() =~= Seq::<char>::empty());
        assert(value(decimal(n).drop_last()) == 0);
    } else {
        let front = decimal(n / 10);
        lemma_decimal_value(n / 10);
        assert(decimal(n).drop_last() =~= front);
        assert forall|i: int| 0 <= i < decimal(n).len() implies is_digit(
            #[trigger] decimal(n)[i],
        ) by {
            if i < front.len() {
                assert(decimal(n)[i] == front[i]);
            }
        }
    }
}

/// Numbers that differ are written differently.
pub proof fn different_numbers_read_differently(a: nat, b: nat)
    ensures
        decimal(a) == decimal(b) <==> a == b,
        all_digits(decimal(a)),
        decimal(a).len() > 0,
{
    lemma_decimal_value(a);
    lemma_decimal_value(b);
}

/// A number may have a plus sign, and nothing but digits else.
pub proof fn numbers_are_digits(s: Seq<char>, n: u64)
    ensures
        number(seq!['+'] + decimal(n as nat)) == Some(n),
        number(s) is Some ==> s.len() > 0 && is_digit(s.last()) && forall|i: int|
            0 < i < s.len() ==> is_digit(#[trigger] s[i]),
        number(s) is Some && !is_digit(s[0]) ==> s.len() > 1 && s[0] == '+',
        s.len() == 0 ==> number(s) is None,
        (exists|i: int| 0 < i < s.len() && !is_digit(#[trigger] s[i])) ==> number(s) is None,
{
    lemma_decimal_value(n as nat);
    let signed = seq!['+'] + decimal(n as nat);
    assert(signed.drop_first() =~= decimal(n as nat));
    if number(s) is Some {
        let d = unsigned(s);
        assert(is_digit(d[d.len() - 1]));
        assert forall|i: int| 0 < i < s.len() implies is_digit(#[trigger] s[i]) by {
            if s[0] == '+' {
                assert(d[i - 1] == s[i]);
            } else {
                assert(d[i] == s[i]);
            }
        }
        if s[0] != '+' {
            assert(d[0] == s[0]);
        }
    }
}

/// Trimming takes nothing but white space away, and all of it: what is left
/// starts at `r.0`, ends before `r.1`, and has no white space at either end.
pub proof fn trimming_strips_white_space(s: Seq<char>) -> (r: (int, int))
    ensures
        0 <= r.0 <= r.1 <= s.len(),
        trim(s) == s.subrange(r.0, r.1),
        forall|k: int| 0 <= k < r.0 ==> is_space(#[trigger] s[k]),
        forall|k: int| r.1 <= k < s.len() ==> is_space(#[trigger] s[k]),
        r.0 < r.1 ==> !is_space(s[r.0]) && !is_space(s[r.1 - 1]),
{
    let from = leading_white_space(s);
    let rest = trim_start(s);
    let to = lemma_trim_end(rest);
    assert(rest.subrange(0, to) =~= s.subrange(from, from + to));
    assert forall|k: int| from + to <= k < s.len() implies is_space(#[trigger] s[k]) by {
        assert(rest[k - from] == s[k]);
    }
    if 0 < to {
        assert(rest[0] == s[from]);
        assert(rest[to - 1] == s[from + to - 1]);
    }
    (from, from + to)
}

/// What is left after leading white space starts at the first other character.
pub proof fn leading_white_space(s: Seq<char>) -> (from: int)
    ensures
        0 <= from <= s.len(),
        trim_start(s) == s.subrange(from, s.len() as int),
        forall|k: int| 0 <= k < from ==> is_space(#[trigger] s[k]),
        from < s.len() ==> !is_space(s[from]),
    decreases s.len(),
{
    if s.len() > 0 && is_space(s[0]) {
        let rest = s.drop_first();
        let k = leading_white_space(rest);
        assert(rest.subrange(k, rest.len() as int) =~= s.subrange(k + 1, s.len() as int));
        assert forall|j: int| 0 <= j < k + 1 implies is_space(#[trigger] s[j]) by {
            if j > 0 {
                assert(rest[j - 1] == s[j]);
            }
        }
        if k < rest.len() {
            assert(rest[k] == s[k + 1]);
        }
        k + 1
    } else {
        assert(s.subrange(0, s.len() as int) =~= s);
        0
    }
}

proof fn lemma_trim_end(s: Seq<char>) -> (to: int)
    ensures
        0 <= to <= s.len(),
        trim_end(s) == s.subrange(0, to),
        forall|k: int| to <= k < s.len() ==> is_space(#[trigger] s[k]),
        to > 0 ==> !is_space(s[to - 1]),
    decreases s.len(),
{
    if s.len() > 0 && is_space(s.last()) {
        let to = lemma_trim_end(s.drop_last());
        assert(s.drop_last().subrange(0, to) =~= s.subrange(0, to));
        assert forall|k: int| to <= k < s.len() implies is_space(#[trigger] s[k]) by {
            if k < s.len() - 1 {
                assert(s.drop_last()[k] == s[k]);
            }
        }
        to
    } else {
        assert(s.subrange(0, s.len() as int) =~= s);
        s.len() as int
    }
}

/// White space around a text is trimmed, whatever there is of it.
pub proof fn padding_is_trimmed(before: Seq<char>, s: Seq<char>, after: Seq<char>)
    requires
        forall|k: int| 0 <= k < before.len() ==> is_space(#[trigger] before[k]),
        forall|k: int| 0 <= k < after.len() ==> is_space(#[trigger] after[k]),
        s.len() > 0,
        !is_space(s[0]),
        !is_space(s.last()),
    ensures
        trim(before + s + after) == s,
{
    let all = before + s + after;
    let (from, to) = trimming_strips_white_space(all);
    let first = before.len() as int;
    let last = first + s.len() - 1;
    assert(all[first] == s[0]);
    assert(all[last] == s.last());
    assert(from <= first && last < to);
    if from < first {
        assert(all[from] == before[from]);
    }
    if to > last + 1 {
        assert(all[to - 1] == after[to - 1 - (last + 1)]);
    }
    assert(all.subrange(from, to) =~= s);
}

/// The first word is what comes before the first white space.
pub proof fn first_word_ends_at_white_space(s: Seq<char>)
    ensures
        first_word(s).is_prefix_of(s),
        forall|k: int| 0 <= k < first_word(s).len() ==> !is_space(#[trigger] s[k]),
        first_word(s).len() < s.len() ==> is_space(s[first_word(s).len() as int]),
    decreases s.len(),
{
    if s.len() > 0 && !is_space(s[0]) {
        let rest = s.drop_first();
        first_word_ends_at_white_space(rest);
        let n = first_word(s).len() as int;
        assert(n == first_word(rest).len() + 1);
        assert forall|k: int| 0 <= k < n implies !is_space(#[trigger] s[k]) by {
            if k > 0 {
                assert(rest[k - 1] == s[k]);
            }
        }
        assert(first_word(s) =~= s.subrange(0, n)) by {
            assert forall|k: int| 0 <= k < n implies first_word(s)[k] == s[k] by {
                if k > 0 {
                    assert(first_word(s)[k] == first_word(rest)[k - 1]);
                    assert(rest.subrange(0, n - 1)[k - 1] == rest[k - 1]);
                }
            }
        }
        if n < s.len() {
            assert(rest[n - 1] == s[n]);
        }
    } else {
        assert(s.subrange(0, 0) =~= Seq::<char>::empty());
    }
}

/// Padded text takes the width if it fits, and is never cut; all that is added
/// are spaces, on the one side.
pub proof fn padding_adds_only_spaces(s: Seq<char>, width: nat)
    ensures
        right(s, width).len() == if s.len() < width {
            width
        } else {
            s.len()
        },
        left(s, width).len() == right(s, width).len(),
        right(s, width).skip(right(s, width).len() - s.len()) == s,
        left(s, width).take(s.len() as int) == s,
        forall|k: int|
            0 <= k < right(s, width).len() - s.len() ==> #[trigger] right(s, width)[k] == ' ',
        forall|k: int|
            s.len() <= k < left(s, width).len() ==> #[trigger] left(s, width)[k] == ' ',
{
    assert(right(s, width).skip(right(s, width).len() - s.len()) =~= s);
    assert(left(s, width).take(s.len() as int) =~= s);
}

/// White space is what Unicode lists as such, by code point.
pub proof fn white_space_by_code_point(c: char)
    ensures
        is_space(c) <==> {
            let n = c as int;
            ||| 9 <= n <= 13
            ||| 8192 <= n <= 8202
            ||| n == 32 || n == 133 || n == 160 || n == 5760 || n == 8232 || n == 8233
            ||| n == 8239 || n == 8287 || n == 12288
        },
{
}

} // verus!
