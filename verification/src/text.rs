//! Text as sequences of characters.

use vstd::prelude::*;
use vstd::seq_lib::*;
use vstd::slice::slice_subrange;
use vstd::string::*;

verus! {

/// Whether a character is white space: it has Unicode's White_Space property.
pub open spec fn is_space(c: char) -> bool {
    let x = c as int;
    ||| 0x9 <= x <= 0xd
    ||| x == 0x20
    ||| x == 0x85
    ||| x == 0xa0
    ||| x == 0x1680
    ||| 0x2000 <= x <= 0x200a
    ||| x == 0x2028
    ||| x == 0x2029
    ||| x == 0x202f
    ||| x == 0x205f
    ||| x == 0x3000
}

/// Whether a character is numeric.
pub uninterp spec fn is_number(c: char) -> bool;

/// A text in lower case.
pub uninterp spec fn lower_case(s: Seq<char>) -> Seq<char>;

/// A text in quotes, with control characters and quotes escaped, as it is shown for debugging.
pub uninterp spec fn debug_text(s: Seq<char>) -> Seq<char>;

/// `<str as Debug>::fmt`: the text in quotes, escaped.
#[verifier::external_body]
pub(crate) fn debug_of(s: &str) -> (shown: String)
    ensures
        shown@ == debug_text(s@),
{
    format!("{s:?}")
}

/// `char::is_whitespace`: the character has the White_Space property.
#[verifier::external_body]
fn char_is_whitespace(c: char) -> (space: bool)
    ensures
        space == is_space(c),
{
    c.is_whitespace()
}

/// `char::is_numeric`: the character is in one of the number categories.
#[verifier::external_body]
fn char_is_numeric(c: char) -> (number: bool)
    ensures
        number == is_number(c),
{
    c.is_numeric()
}

/// `str::to_lowercase`: the lower-case equivalent of a text.
#[verifier::external_body]
pub(crate) fn to_lowercase(s: &str) -> (lower: String)
    ensures
        lower@ == lower_case(s@),
{
    s.to_lowercase()
}

/// `String::from_iter`: the text of some characters.
#[verifier::external_body]
pub(crate) fn text_of(chars: &[char]) -> (s: String)
    ensures
        s@ == chars@,
{
    String::from_iter(chars.iter())
}

/// The characters of a text.
pub fn chars_of(s: &str) -> (chars: Vec<char>)
    ensures
        chars@ == s@,
{
    broadcast use axiom_spec_iter;

    let mut chars: Vec<char> = Vec::new();
    for c in it: s.chars()
        invariant
            it.seq() == s@,
            chars@ == s@.take(it.index() as int),
    {
        chars.push(c);
        proof {
            assert(chars@ =~= s@.take(it.index() + 1));
        }
    }
    proof {
        assert(s@.take(s@.len() as int) =~= s@);
    }
    chars
}

/// The views of texts.
pub open spec fn views(texts: Seq<String>) -> Seq<Seq<char>> {
    texts.map_values(|s: String| s@)
}

/// Whether two texts are equal.
pub fn same(a: &[char], b: &[char]) -> (equal: bool)
    ensures
        equal <==> a@ == b@,
{
    if a.len() != b.len() {
        return false;
    }
    let mut i: usize = 0;
    while i < a.len()
        invariant
            i <= a@.len(),
            a@.len() == b@.len(),
            forall|k: int| 0 <= k < i ==> a@[k] == b@[k],
        decreases a@.len() - i,
    {
        if a[i] != b[i] {
            return false;
        }
        i += 1;
    }
    proof {
        assert(a@ =~= b@);
    }
    true
}

/// Whether two texts are equal.
pub fn same_text(a: &str, b: &str) -> (equal: bool)
    ensures
        equal <==> a@ == b@,
{
    let left = chars_of(a);
    let right = chars_of(b);
    same(left.as_slice(), right.as_slice())
}

/// A text before and after the first occurrence of a character.
pub open spec fn split_once_of(s: Seq<char>, c: char) -> Option<(Seq<char>, Seq<char>)> {
    match s.index_of_first(c) {
        Some(i) => Some((s.take(i), s.skip(i + 1))),
        None => None,
    }
}

/// A text before and after the last occurrence of a character.
pub open spec fn rsplit_once_of(s: Seq<char>, c: char) -> Option<(Seq<char>, Seq<char>)> {
    match s.index_of_last(c) {
        Some(i) => Some((s.take(i), s.skip(i + 1))),
        None => None,
    }
}

/// Split a text at the first occurrence of a character.
pub fn split_once(s: &[char], c: char) -> (parts: Option<(&[char], &[char])>)
    ensures
        match parts {
            Some((a, b)) => split_once_of(s@, c) == Some((a@, b@)),
            None => split_once_of(s@, c) is None,
        },
{
    proof {
        s@.index_of_first_ensures(c);
    }
    let mut i: usize = 0;
    while i < s.len()
        invariant
            i <= s@.len(),
            forall|k: int| 0 <= k < i ==> s@[k] != c,
        decreases s@.len() - i,
    {
        if s[i] == c {
            proof {
                s@.index_of_first_ensures(c);
                assert(s@.index_of_first(c) == Some(i as int));
                assert(s@.subrange(0, i as int) =~= s@.take(i as int));
                assert(s@.subrange(i + 1, s@.len() as int) =~= s@.skip(i + 1));
            }
            return Some((slice_subrange(s, 0, i), slice_subrange(s, i + 1, s.len())));
        }
        i += 1;
    }
    proof {
        s@.index_of_first_ensures(c);
    }
    None
}

/// Split a text at the last occurrence of a character.
pub fn rsplit_once(s: &[char], c: char) -> (parts: Option<(&[char], &[char])>)
    ensures
        match parts {
            Some((a, b)) => rsplit_once_of(s@, c) == Some((a@, b@)),
            None => rsplit_once_of(s@, c) is None,
        },
{
    let mut i: usize = s.len();
    while i > 0
        invariant
            i <= s@.len(),
            forall|k: int| i <= k < s@.len() ==> s@[k] != c,
        decreases i,
    {
        i -= 1;
        if s[i] == c {
            proof {
                s@.index_of_last_ensures(c);
                assert(s@.index_of_last(c) == Some(i as int));
                assert(s@.subrange(0, i as int) =~= s@.take(i as int));
                assert(s@.subrange(i + 1, s@.len() as int) =~= s@.skip(i + 1));
            }
            return Some((slice_subrange(s, 0, i), slice_subrange(s, i + 1, s.len())));
        }
    }
    proof {
        s@.index_of_last_ensures(c);
    }
    None
}

/// A text without leading white space.
pub open spec fn trim_start_of(s: Seq<char>) -> Seq<char>
    decreases s.len(),
{
    if s.len() > 0 && is_space(s.first()) {
        trim_start_of(s.drop_first())
    } else {
        s
    }
}

/// A text without trailing characters of a kind.
pub open spec fn trim_end_of(s: Seq<char>, drop: spec_fn(char) -> bool) -> Seq<char>
    decreases s.len(),
{
    if s.len() > 0 && drop(s.last()) {
        trim_end_of(s.drop_last(), drop)
    } else {
        s
    }
}

/// A text without white space around it.
pub open spec fn trim_of(s: Seq<char>) -> Seq<char> {
    trim_end_of(trim_start_of(s), |c: char| is_space(c))
}

/// Remove white space around a text.
pub fn trim(s: &[char]) -> (trimmed: &[char])
    ensures
        trimmed@ == trim_of(s@),
{
    let mut start: usize = 0;
    let size: usize = s.len();
    proof {
        assert(s@.skip(0) =~= s@);
    }
    while start < size && char_is_whitespace(s[start])
        invariant
            start <= size,
            size == s@.len(),
            trim_start_of(s@.skip(start as int)) == trim_start_of(s@),
        decreases size - start,
    {
        proof {
            assert(s@.skip(start as int).drop_first() =~= s@.skip(start + 1));
        }
        start += 1;
    }
    let ghost rest = s@.skip(start as int);
    let ghost space = |c: char| is_space(c);
    let mut end: usize = size;
    proof {
        assert(rest.take(rest.len() as int) =~= rest);
    }
    while end > start && char_is_whitespace(s[end - 1])
        invariant
            start <= end <= size,
            size == s@.len(),
            rest == s@.skip(start as int),
            space == (|c: char| is_space(c)),
            trim_end_of(rest.take(end - start), space) == trim_end_of(rest, space),
        decreases end - start,
    {
        proof {
            assert(rest.take(end - start).drop_last() =~= rest.take(end - 1 - start));
            assert(rest.take(end - start).last() == s@[end - 1]);
        }
        end -= 1;
    }
    proof {
        assert(rest.take(end - start) =~= s@.subrange(start as int, end as int));
        if end > start {
            assert(rest.take(end - start).last() == s@[end - 1]);
        }
    }
    slice_subrange(s, start, end)
}

/// Remove trailing numeric characters.
pub fn trim_end_numbers(s: &[char]) -> (trimmed: &[char])
    ensures
        trimmed@ == trim_end_of(s@, |c: char| is_number(c)),
{
    let ghost number = |c: char| is_number(c);
    let mut end: usize = s.len();
    proof {
        assert(s@.take(end as int) =~= s@);
    }
    while end > 0 && char_is_numeric(s[end - 1])
        invariant
            end <= s@.len(),
            number == (|c: char| is_number(c)),
            trim_end_of(s@.take(end as int), number) == trim_end_of(s@, number),
        decreases end,
    {
        proof {
            assert(s@.take(end as int).drop_last() =~= s@.take(end - 1));
        }
        end -= 1;
    }
    proof {
        assert(s@.take(end as int) =~= s@.subrange(0, end as int));
    }
    slice_subrange(s, 0, end)
}

/// Remove a trailing character as often as it occurs.
pub fn trim_end_char(s: &[char], c: char) -> (trimmed: &[char])
    ensures
        trimmed@ == trim_end_of(s@, |x: char| x == c),
{
    let ghost drop = |x: char| x == c;
    let mut end: usize = s.len();
    proof {
        assert(s@.take(end as int) =~= s@);
    }
    while end > 0 && s[end - 1] == c
        invariant
            end <= s@.len(),
            drop == (|x: char| x == c),
            trim_end_of(s@.take(end as int), drop) == trim_end_of(s@, drop),
        decreases end,
    {
        proof {
            assert(s@.take(end as int).drop_last() =~= s@.take(end - 1));
        }
        end -= 1;
    }
    proof {
        assert(s@.take(end as int) =~= s@.subrange(0, end as int));
    }
    slice_subrange(s, 0, end)
}

/// A text begins with another.
pub open spec fn begins(s: Seq<char>, prefix: Seq<char>) -> bool {
    prefix.len() <= s.len() && s.take(prefix.len() as int) == prefix
}

/// A text ends with another.
pub open spec fn ends(s: Seq<char>, suffix: Seq<char>) -> bool {
    suffix.len() <= s.len() && s.skip(s.len() - suffix.len()) == suffix
}

/// Whether a text begins with another.
pub fn starts_with(s: &[char], prefix: &[char]) -> (begun: bool)
    ensures
        begun <==> begins(s@, prefix@),
{
    if prefix.len() > s.len() {
        return false;
    }
    proof {
        assert(s@.subrange(0, prefix@.len() as int) =~= s@.take(prefix@.len() as int));
    }
    same(slice_subrange(s, 0, prefix.len()), prefix)
}

/// Whether a text ends with another.
pub fn ends_with(s: &[char], suffix: &[char]) -> (ended: bool)
    ensures
        ended <==> ends(s@, suffix@),
{
    if suffix.len() > s.len() {
        return false;
    }
    let at: usize = s.len() - suffix.len();
    proof {
        assert(s@.subrange(at as int, s@.len() as int) =~= s@.skip(at as int));
    }
    same(slice_subrange(s, at, s.len()), suffix)
}

/// A text holds another.
pub open spec fn holds(s: Seq<char>, part: Seq<char>) -> bool {
    exists|i: int| 0 <= i <= s.len() - part.len() && #[trigger] s.subrange(i, i + part.len()) == part
}

/// Whether a text holds another.
pub fn contains(s: &[char], part: &[char]) -> (found: bool)
    ensures
        found <==> holds(s@, part@),
{
    if part.len() > s.len() {
        return false;
    }
    let size: usize = s.len();
    let last: usize = size - part.len();
    let mut i: usize = 0;
    loop
        invariant
            i <= last,
            size == s@.len(),
            last + part@.len() == size,
            forall|k: int| 0 <= k < i ==> #[trigger] s@.subrange(k, k + part@.len()) != part@,
        decreases last - i,
    {
        if same(slice_subrange(s, i, i + part.len()), part) {
            return true;
        }
        if i == last {
            return false;
        }
        i += 1;
    }
}

/// Whether a text comes before another: characters decide in their order, and a text comes
/// before its continuations.
pub open spec fn before(a: Seq<char>, b: Seq<char>) -> bool
    decreases a.len(),
{
    if b.len() == 0 {
        false
    } else if a.len() == 0 {
        true
    } else if a[0] != b[0] {
        (a[0] as int) < (b[0] as int)
    } else {
        before(a.drop_first(), b.drop_first())
    }
}

/// Whether a text comes before another.
pub fn comes_before(a: &[char], b: &[char]) -> (less: bool)
    ensures
        less == before(a@, b@),
{
    let mut i: usize = 0;
    proof {
        assert(a@.skip(0) =~= a@);
        assert(b@.skip(0) =~= b@);
    }
    loop
        invariant
            i <= a@.len(),
            i <= b@.len(),
            before(a@.skip(i as int), b@.skip(i as int)) == before(a@, b@),
        decreases a@.len() - i,
    {
        if i == b.len() {
            return false;
        }
        if i == a.len() {
            return true;
        }
        proof {
            assert(a@.skip(i as int).drop_first() =~= a@.skip(i + 1));
            assert(b@.skip(i as int).drop_first() =~= b@.skip(i + 1));
        }
        if a[i] != b[i] {
            return a[i] < b[i];
        }
        i += 1;
    }
}

/// A text does not come before itself.
pub proof fn lemma_before_irreflexive(a: Seq<char>)
    ensures
        !before(a, a),
    decreases a.len(),
{
    if a.len() > 0 {
        lemma_before_irreflexive(a.drop_first());
    }
}

/// Of two different texts one comes before the other.
pub proof fn lemma_before_total(a: Seq<char>, b: Seq<char>)
    ensures
        before(a, b) || before(b, a) || a == b,
        !(before(a, b) && before(b, a)),
    decreases a.len(),
{
    if a.len() == 0 {
        if b.len() == 0 {
            assert(a =~= b);
        }
    } else if b.len() > 0 {
        if a[0] == b[0] {
            lemma_before_total(a.drop_first(), b.drop_first());
            if a.drop_first() == b.drop_first() {
                assert(a =~= seq![a[0]] + a.drop_first());
                assert(b =~= seq![b[0]] + b.drop_first());
            }
        } else {
            assert(a[0] as int != b[0] as int);
        }
    }
}

/// Coming before is transitive.
pub proof fn lemma_before_transitive(a: Seq<char>, b: Seq<char>, c: Seq<char>)
    requires
        before(a, b),
        before(b, c),
    ensures
        before(a, c),
    decreases a.len(),
{
    if a.len() > 0 && a[0] == b[0] && b[0] == c[0] {
        lemma_before_transitive(a.drop_first(), b.drop_first(), c.drop_first());
    }
}

/// The value of a decimal digit.
pub open spec fn digit(c: char) -> Option<int> {
    if '0' <= c <= '9' {
        Some(c as int - '0' as int)
    } else {
        None
    }
}

/// The value of decimal digits.
pub open spec fn decimal(s: Seq<char>) -> Option<int>
    decreases s.len(),
{
    if s.len() == 0 {
        Some(0)
    } else {
        match (decimal(s.drop_last()), digit(s.last())) {
            (Some(high), Some(low)) => Some(high * 10 + low),
            _ => None,
        }
    }
}

/// A text without a leading plus sign.
pub open spec fn without_plus(s: Seq<char>) -> Seq<char> {
    if s.len() > 0 && s[0] == '+' {
        s.drop_first()
    } else {
        s
    }
}

/// The number that a text stands for: decimal digits, possibly after a plus sign, that fit
/// 64 bits.
pub open spec fn number_of(s: Seq<char>) -> Option<u64> {
    let digits = without_plus(s);
    if digits.len() == 0 {
        None
    } else {
        match decimal(digits) {
            Some(n) => if n <= u64::MAX {
                Some(n as u64)
            } else {
                None
            },
            None => None,
        }
    }
}

proof fn lemma_decimal_prefix(s: Seq<char>, n: int)
    requires
        0 <= n <= s.len(),
    ensures
        decimal(s.take(n)) is None ==> decimal(s) is None,
        decimal(s) is Some ==> decimal(s.take(n)) is Some && 0 <= decimal(s.take(n))->0
            <= decimal(s)->0,
    decreases s.len() - n,
{
    if n < s.len() {
        assert(s.take(n + 1).drop_last() =~= s.take(n));
        lemma_decimal_prefix(s, n + 1);
        lemma_decimal_nonneg(s.take(n));
    } else {
        assert(s.take(n) =~= s);
        lemma_decimal_nonneg(s);
    }
}

proof fn lemma_decimal_nonneg(s: Seq<char>)
    ensures
        decimal(s) matches Some(n) ==> n >= 0,
    decreases s.len(),
{
    if s.len() > 0 {
        lemma_decimal_nonneg(s.drop_last());
    }
}

/// Read a number.
pub fn parse_number(s: &[char]) -> (number: Option<u64>)
    ensures
        number == number_of(s@),
{
    let start: usize = if s.len() > 0 && s[0] == '+' {
        1
    } else {
        0
    };
    let ghost digits = s@.skip(start as int);
    proof {
        assert(digits =~= without_plus(s@));
        assert(digits.take(0) =~= Seq::<char>::empty());
    }
    if s.len() == start {
        return None;
    }
    let mut value: u64 = 0;
    let mut i: usize = start;
    while i < s.len()
        invariant
            start <= i <= s@.len(),
            digits == s@.skip(start as int),
            digits == without_plus(s@),
            decimal(digits.take(i - start)) == Some(value as int),
        decreases s@.len() - i,
    {
        let c = s[i];
        proof {
            assert(digits.take(i + 1 - start).drop_last() =~= digits.take(i - start));
            assert(digits.take(i + 1 - start).last() == c);
            lemma_decimal_prefix(digits, i + 1 - start);
        }
        if !('0' <= c && c <= '9') {
            return None;
        }
        let low: u64 = (c as u32 - '0' as u32) as u64;
        value = match value.checked_mul(10) {
            Some(high) => match high.checked_add(low) {
                Some(value) => value,
                None => return None,
            },
            None => return None,
        };
        i += 1;
    }
    proof {
        assert(digits.take(digits.len() as int) =~= digits);
    }
    Some(value)
}

/// A decimal digit as a text.
pub open spec fn digit_text(d: int) -> Seq<char> {
    seq![('0' as int + d) as char]
}

/// A number as a text.
pub open spec fn number_text_of(n: nat) -> Seq<char>
    decreases n,
{
    if n < 10 {
        digit_text(n as int)
    } else {
        number_text_of(n / 10) + digit_text((n % 10) as int)
    }
}

/// A number as characters.
fn number_chars(n: u64) -> (chars: Vec<char>)
    ensures
        chars@ == number_text_of(n as nat),
    decreases n,
{
    let digits: [char; 10] = ['0', '1', '2', '3', '4', '5', '6', '7', '8', '9'];
    if n < 10 {
        let mut chars: Vec<char> = Vec::new();
        chars.push(digits[n as usize]);
        proof {
            assert(chars@ =~= digit_text(n as int));
        }
        chars
    } else {
        let mut chars = number_chars(n / 10);
        let ghost high = chars@;
        chars.push(digits[(n % 10) as usize]);
        proof {
            assert(chars@ =~= high + digit_text((n % 10) as int));
        }
        chars
    }
}

/// A number as a text.
pub fn number_text(n: u64) -> (s: String)
    ensures
        s@ == number_text_of(n as nat),
{
    let chars = number_chars(n);
    text_of(chars.as_slice())
}

/// A number reads back from its text.
pub proof fn law_number_round_trip(n: u64)
    ensures
        number_of(number_text_of(n as nat)) == Some(n),
{
    lemma_number_text(n as nat);
    let s = number_text_of(n as nat);
    assert(s[0] != '+');
}

proof fn lemma_number_text(n: nat)
    ensures
        number_text_of(n).len() > 0,
        decimal(number_text_of(n)) == Some(n as int),
        digit(number_text_of(n)[0]) is Some,
    decreases n,
{
    let s = number_text_of(n);
    let low = (n % 10) as int;
    assert(('0' as int + low) as char as int == '0' as int + low);
    reveal_with_fuel(decimal, 2);
    if n < 10 {
        assert(s.drop_last() =~= Seq::<char>::empty());
    } else {
        lemma_number_text(n / 10);
        assert(s.drop_last() =~= number_text_of(n / 10));
        assert(n == n / 10 * 10 + n % 10);
    }
}

/// The parts of a text that is split once, with the character between them, are the text.
/// The first part of a split at the first occurrence does not hold the character, nor does
/// the second part of a split at the last; a text without it is not split.
pub proof fn law_split_parts_make_up_the_text(s: Seq<char>, c: char)
    ensures
        match split_once_of(s, c) {
            Some((a, b)) => s == a.push(c) + b && !a.contains(c),
            None => !s.contains(c),
        },
        match rsplit_once_of(s, c) {
            Some((a, b)) => s == a.push(c) + b && !b.contains(c),
            None => !s.contains(c),
        },
{
    s.index_of_first_ensures(c);
    s.index_of_last_ensures(c);
    if let Some((a, b)) = split_once_of(s, c) {
        assert(s =~= a.push(c) + b);
    }
    if let Some((a, b)) = rsplit_once_of(s, c) {
        let i = s.index_of_last(c)->0;
        assert(s =~= a.push(c) + b);
        if b.contains(c) {
            let k = choose|k: int| 0 <= k < b.len() && b[k] == c;
            assert(s[i + 1 + k] == c);
        }
    }
}

/// What is trimmed from the end of a text are characters of the kind, and all of them.
pub proof fn law_end_is_trimmed_of_all_of_a_kind(s: Seq<char>, drop: spec_fn(char) -> bool)
    ensures
        ({
            let left = trim_end_of(s, drop);
            &&& left.len() <= s.len()
            &&& left == s.take(left.len() as int)
            &&& forall|k: int| left.len() <= k < s.len() ==> drop(#[trigger] s[k])
            &&& left.len() > 0 ==> !drop(left.last())
        }),
    decreases s.len(),
{
    if s.len() > 0 && drop(s.last()) {
        law_end_is_trimmed_of_all_of_a_kind(s.drop_last(), drop);
        let left = trim_end_of(s, drop);
        assert(s.drop_last().take(left.len() as int) =~= s.take(left.len() as int));
        assert forall|k: int| left.len() <= k < s.len() implies drop(#[trigger] s[k]) by {
            if k < s.len() - 1 {
                assert(s.drop_last()[k] == s[k]);
            }
        }
    } else {
        assert(s.take(s.len() as int) =~= s);
    }
}

/// What is trimmed from the start of a text is white space, and all of it.
proof fn lemma_start_is_trimmed(s: Seq<char>)
    ensures
        ({
            let left = trim_start_of(s);
            &&& left.len() <= s.len()
            &&& left == s.skip(s.len() - left.len())
            &&& forall|k: int| 0 <= k < s.len() - left.len() ==> is_space(#[trigger] s[k])
            &&& left.len() > 0 ==> !is_space(left.first())
        }),
    decreases s.len(),
{
    if s.len() > 0 && is_space(s.first()) {
        let rest = s.drop_first();
        lemma_start_is_trimmed(rest);
        let left = trim_start_of(s);
        assert(rest.skip(rest.len() - left.len()) =~= s.skip(s.len() - left.len()));
        assert forall|k: int| 0 <= k < s.len() - left.len() implies is_space(#[trigger] s[k]) by {
            if k > 0 {
                assert(rest[k - 1] == s[k]);
            }
        }
    } else {
        assert(s.skip(0) =~= s);
    }
}

/// Trimming a text takes the white space around it away, all of it and nothing else.
pub proof fn law_trimmed_text_has_no_space_around_it(s: Seq<char>)
    ensures
        exists|i: int, j: int|
            {
                &&& 0 <= i <= j <= s.len()
                &&& trim_of(s) == #[trigger] s.subrange(i, j)
                &&& forall|k: int| 0 <= k < i || j <= k < s.len() ==> is_space(#[trigger] s[k])
            },
        trim_of(s).len() > 0 ==> !is_space(trim_of(s).first()) && !is_space(trim_of(s).last()),
{
    let rest = trim_start_of(s);
    lemma_start_is_trimmed(s);
    law_end_is_trimmed_of_all_of_a_kind(rest, |c: char| is_space(c));
    let left = trim_of(s);
    let i = s.len() - rest.len();
    let j = i + left.len();
    assert(left =~= s.subrange(i, j));
    assert forall|k: int| 0 <= k < i || j <= k < s.len() implies is_space(#[trigger] s[k]) by {
        if k >= j {
            assert(rest[k - i] == s[k]);
        }
    }
    if left.len() > 0 {
        assert(left[0] == rest[0]);
    }
}

/// A text without white space at its ends is left as it is.
pub proof fn law_text_without_space_around_it_is_kept(s: Seq<char>)
    requires
        s.len() > 0 ==> !is_space(s.first()) && !is_space(s.last()),
    ensures
        trim_of(s) == s,
{
}

/// Texts are ordered by the first character in which they differ; a text comes before those
/// that go on from it.
pub proof fn law_first_difference_decides_the_order(
    start: Seq<char>,
    a: Seq<char>,
    b: Seq<char>,
)
    requires
        b.len() > 0,
        a.len() > 0 ==> a[0] != b[0],
    ensures
        before(start + a, start + b) <==> a.len() == 0 || (a[0] as int) < (b[0] as int),
    decreases start.len(),
{
    if start.len() == 0 {
        assert(start + a =~= a);
        assert(start + b =~= b);
    } else {
        law_first_difference_decides_the_order(start.drop_first(), a, b);
        assert((start + a).drop_first() =~= start.drop_first() + a);
        assert((start + b).drop_first() =~= start.drop_first() + b);
    }
}

/// A text begins with, ends with or holds another exactly where the other and what is around
/// it make up the text.
pub proof fn law_parts_of_a_text(front: Seq<char>, part: Seq<char>, rest: Seq<char>)
    ensures
        begins(part + rest, part),
        ends(front + part, part),
        holds(front + part + rest, part),
{
    assert((part + rest).take(part.len() as int) =~= part);
    assert((front + part).skip(front.len() as int) =~= part);
    let s = front + part + rest;
    assert(s.subrange(front.len() as int, (front.len() + part.len()) as int) =~= part);
    assert(s.subrange(front.len() as int, front.len() as int + part.len()) == part);
}

/// What a text begins with, ends with or holds is found in it.
pub proof fn law_found_part_is_there(s: Seq<char>, part: Seq<char>)
    ensures
        begins(s, part) ==> s == part + s.skip(part.len() as int),
        ends(s, part) ==> s == s.take(s.len() - part.len()) + part,
        holds(s, part) ==> exists|i: int|
            0 <= i <= s.len() - part.len() && s == #[trigger] s.take(i) + part + s.skip(
                i + part.len(),
            ),
{
    if begins(s, part) {
        assert(s =~= s.take(part.len() as int) + s.skip(part.len() as int));
    }
    if ends(s, part) {
        assert(s =~= s.take(s.len() - part.len()) + s.skip(s.len() - part.len()));
    }
    if holds(s, part) {
        let i = choose|i: int|
            0 <= i <= s.len() - part.len() && #[trigger] s.subrange(i, i + part.len()) == part;
        assert(s =~= s.take(i) + s.subrange(i, i + part.len()) + s.skip(i + part.len()));
        assert(s == s.take(i) + part + s.skip(i + part.len()));
    }
}

/// A text that reads as a number consists of digits, possibly behind one plus sign, which
/// makes no difference; a text without digits is no number.
pub proof fn law_numbers_are_digits(s: Seq<char>)
    ensures
        number_of(s) is Some ==> without_plus(s).len() > 0 && forall|i: int|
            0 <= i < without_plus(s).len() ==> '0' <= #[trigger] without_plus(s)[i] <= '9',
        s.len() > 0 && s[0] != '+' ==> number_of(seq!['+'] + s) == number_of(s),
        number_of(Seq::empty()) is None,
        number_of(seq!['+']) is None,
{
    if number_of(s) is Some {
        lemma_decimal_digits(without_plus(s));
    }
    if s.len() > 0 && s[0] != '+' {
        assert((seq!['+'] + s).drop_first() =~= s);
    }
}

proof fn lemma_decimal_digits(s: Seq<char>)
    requires
        decimal(s) is Some,
    ensures
        forall|i: int| 0 <= i < s.len() ==> '0' <= #[trigger] s[i] <= '9',
    decreases s.len(),
{
    if s.len() > 0 {
        lemma_decimal_digits(s.drop_last());
        assert forall|i: int| 0 <= i < s.len() implies '0' <= #[trigger] s[i] <= '9' by {
            if i < s.len() - 1 {
                assert(s.drop_last()[i] == s[i]);
            }
        }
    }
}

/// A digit more makes a number ten times as great and adds the digit, as far as the number
/// fits; leading zeros make no difference.
pub proof fn law_digits_count_by_tens(s: Seq<char>, d: char)
    requires
        number_of(s) is Some,
        s[0] != '+',
        '0' <= d <= '9',
    ensures
        ({
            let value = number_of(s)->0 * 10 + (d as int - '0' as int);
            number_of(s.push(d)) == if value <= u64::MAX {
                Some(value as u64)
            } else {
                None
            }
        }),
        number_of(seq![d]) == Some((d as int - '0' as int) as u64),
{
    lemma_decimal_nonneg(s);
    assert(without_plus(s) == s);
    assert(s.push(d)[0] == s[0]);
    assert(s.push(d).drop_last() =~= s);
    assert(decimal(s.push(d)) == Some(decimal(s)->0 * 10 + digit(d)->0));
    reveal_with_fuel(decimal, 2);
    assert(seq![d].drop_last() =~= Seq::<char>::empty());
}

/// A number is written without leading zeros, and with digits only.
pub proof fn law_numbers_have_no_leading_zero(n: nat)
    ensures
        number_text_of(n).len() > 0,
        n > 0 ==> number_text_of(n)[0] != '0',
        n == 0 ==> number_text_of(n) == seq!['0'],
        forall|i: int|
            0 <= i < number_text_of(n).len() ==> '0' <= #[trigger] number_text_of(n)[i] <= '9',
    decreases n,
{
    if n >= 10 {
        law_numbers_have_no_leading_zero(n / 10);
        let front = number_text_of(n / 10);
        let last = digit_text((n % 10) as int);
        assert forall|i: int| 0 <= i < number_text_of(n).len() implies '0'
            <= #[trigger] number_text_of(n)[i] <= '9' by {
            if i < front.len() {
                assert(number_text_of(n)[i] == front[i]);
            } else {
                assert(number_text_of(n)[i] == last[0]);
            }
        }
        assert(number_text_of(n)[0] == front[0]);
    }
}

} // verus!
