//! Text as sequences of characters: decimal numbers, prefixes, white space and
//! separators.
use vstd::arithmetic::power::pow;
use vstd::prelude::*;

verus! {

/// The decimal digit that stands for `d`.
pub open spec fn digit(d: nat) -> char {
    ('0' as int + d) as char
}

/// Whether `c` is one of the ten ASCII digits.
pub open spec fn is_digit(c: char) -> bool {
    '0' as int <= c as int <= '9' as int
}

/// Whether `s` holds ASCII digits only.
pub open spec fn all_digits(s: Seq<char>) -> bool {
    forall|i: int| 0 <= i < s.len() ==> is_digit(#[trigger] s[i])
}

/// The number that a run of digits writes, most significant digit first.
pub open spec fn value(s: Seq<char>) -> nat
    decreases s.len(),
{
    if s.len() == 0 {
        0
    } else {
        value(s.drop_last()) * 10 + (s.last() as int - '0' as int) as nat
    }
}

/// How `n` is written in decimal, without leading zeros.
pub open spec fn decimal(n: nat) -> Seq<char>
    decreases n,
{
    if n < 10 {
        seq![digit(n)]
    } else {
        decimal(n / 10).push(digit(n % 10))
    }
}

/// How an integer is written in decimal: a minus sign where it is negative.
pub open spec fn decimal_int(n: int) -> Seq<char> {
    if n < 0 {
        seq!['-'] + decimal((-n) as nat)
    } else {
        decimal(n as nat)
    }
}

/// Whether `s` starts with a plus or a minus sign.
pub open spec fn has_sign(s: Seq<char>) -> bool {
    s.len() > 0 && (s[0] == '-' || s[0] == '+')
}

/// The part of `s` behind its sign, where it has one.
pub open spec fn unsigned_part(s: Seq<char>) -> Seq<char> {
    if has_sign(s) {
        s.skip(1)
    } else {
        s
    }
}

/// Whether `s` is an optional sign followed by at least one digit.
pub open spec fn is_number(s: Seq<char>) -> bool {
    unsigned_part(s).len() > 0 && all_digits(unsigned_part(s))
}

/// The integer that a number writes.
pub open spec fn number(s: Seq<char>) -> int {
    if s.len() > 0 && s[0] == '-' {
        -(value(unsigned_part(s)) as int)
    } else {
        value(unsigned_part(s)) as int
    }
}

/// The `i32` that `s` writes, where it is a number that fits.
pub open spec fn parsed_i32(s: Seq<char>) -> Option<i32> {
    if is_number(s) && i32::MIN <= number(s) <= i32::MAX {
        Some(number(s) as i32)
    } else {
        None
    }
}

/// The characters of a string slice.
pub fn chars_of(s: &str) -> (r: Vec<char>)
    ensures
        r@ == s@,
{
    let mut out: Vec<char> = Vec::new();
    for c in it: s.chars()
        invariant
            it.seq() == s@,
            out@ == it.seq().take(it.index() as int),
    {
        out.push(c);
    }
    proof {
        assert(s@.take(s@.len() as int) =~= s@);
    }
    out
}

/// Whether two slices hold the same text.
pub fn same_text(a: &str, b: &str) -> (r: bool)
    ensures
        r == (a@ == b@),
{
    a.to_owned() == b.to_owned()
}

/// A longer run of digits does not write a smaller number.
proof fn lemma_value_grows(s: Seq<char>, n: int)
    requires
        all_digits(s),
        0 <= n <= s.len(),
    ensures
        value(s.take(n)) <= value(s),
    decreases s.len() - n,
{
    if n < s.len() {
        lemma_value_grows(s, n + 1);
        assert(s.take(n + 1).drop_last() =~= s.take(n));
        assert(is_digit(s[n]));
        assert(value(s.take(n + 1)) == value(s.take(n)) * 10 + (s[n] as int - '0' as int) as nat);
    } else {
        assert(s.take(n) =~= s);
    }
}

/// Reads a decimal `i32`: an optional sign, then digits and nothing else.
pub fn parse_i32(text: &str) -> (r: Option<i32>)
    ensures
        r == parsed_i32(text@),
{
    let chars: Vec<char> = chars_of(text);
    let negative: bool = chars.len() > 0 && chars[0] == '-';
    let signed: bool = chars.len() > 0 && (chars[0] == '-' || chars[0] == '+');
    let start: usize = if signed {
        1
    } else {
        0
    };
    let ghost digits: Seq<char> = unsigned_part(text@);
    assert(digits =~= chars@.skip(start as int));
    if chars.len() == start {
        return None;
    }
    let mut total: i64 = 0;
    let mut i: usize = start;
    while i < chars.len()
        invariant
            start <= i <= chars.len(),
            digits == chars@.skip(start as int),
            digits == unsigned_part(text@),
            all_digits(digits.take(i - start)),
            total == value(digits.take(i - start)),
            0 <= total <= 0x8000_0000,
        decreases chars.len() - i,
    {
        let c: char = chars[i];
        assert(digits[i - start] == c);
        if c < '0' || c > '9' {
            assert(!is_digit(digits[i - start]));
            return None;
        }
        let d: i64 = (c as u32 - '0' as u32) as i64;
        total = total * 10 + d;
        i = i + 1;
        proof {
            assert(digits.take(i - start).drop_last() =~= digits.take(i - start - 1));
            assert(all_digits(digits.take(i - start)));
        }
        if total > 0x8000_0000 {
            proof {
                if all_digits(digits) {
                    lemma_value_grows(digits, i - start);
                }
            }
            return None;
        }
    }
    proof {
        assert(digits.take(i - start) =~= digits);
    }
    if negative {
        Some((-total) as i32)
    } else if total <= 0x7fff_ffff {
        Some(total as i32)
    } else {
        None
    }
}

/// What decimal writing gives: at least one digit, digits only, and the value
/// that was written.
pub proof fn lemma_decimal(n: nat)
    ensures
        decimal(n).len() > 0,
        all_digits(decimal(n)),
        value(decimal(n)) == n,
    decreases n,
{
    if n < 10 {
        assert(decimal(n).drop_last() =~= Seq::<char>::empty());
        assert(value(decimal(n).drop_last()) == 0);
    } else {
        lemma_decimal(n / 10);
        assert(decimal(n).drop_last() =~= decimal(n / 10));
    }
}

/// Reading back what was written in decimal gives the number that was written.
pub proof fn law_decimal_reads_back(n: i32)
    ensures
        parsed_i32(decimal_int(n as int)) == Some(n),
{
    let s = decimal_int(n as int);
    if n < 0 {
        lemma_decimal((-n) as nat);
        assert(s.skip(1) =~= decimal((-n) as nat));
    } else {
        lemma_decimal(n as nat);
        assert(is_digit(s[0]));
    }
}

/// Two numbers that are written alike are the same number.
pub proof fn lemma_decimal_injective(m: nat, n: nat)
    requires
        decimal(m) == decimal(n),
    ensures
        m == n,
{
    lemma_decimal(m);
    lemma_decimal(n);
}

/// Appends `n` in decimal.
pub fn push_decimal(out: &mut String, n: u64)
    ensures
        final(out)@ == old(out)@ + decimal(n as nat),
    decreases n,
{
    let d: usize = (n % 10) as usize;
    if n >= 10 {
        push_decimal(out, n / 10);
    }
    let digits: &str = "0123456789";
    proof {
        reveal_strlit("0123456789");
    }
    out.append(digits.substring_char(d, d + 1));
    proof {
        assert(digits@.subrange(d as int, d as int + 1) =~= seq![digit((n % 10) as nat)]);
        assert(out@ =~= old(out)@ + decimal(n as nat));
    }
}

/// Appends `n` in decimal, with a minus sign where it is negative.
pub fn push_decimal_i32(out: &mut String, n: i32)
    ensures
        final(out)@ == old(out)@ + decimal_int(n as int),
{
    if n < 0 {
        proof {
            reveal_strlit("-");
        }
        out.append("-");
        push_decimal(out, (-(n as i64)) as u64);
        proof {
            assert("-"@ =~= seq!['-']);
            assert(out@ =~= old(out)@ + decimal_int(n as int));
        }
    } else {
        push_decimal(out, n as u64);
    }
}

/// Whether `s` starts with `prefix`.
pub open spec fn has_prefix(s: Seq<char>, prefix: Seq<char>) -> bool {
    prefix.len() <= s.len() && s.take(prefix.len() as int) == prefix
}

/// Whether `s` ends with `suffix`.
pub open spec fn has_suffix(s: Seq<char>, suffix: Seq<char>) -> bool {
    suffix.len() <= s.len() && s.skip(s.len() - suffix.len()) == suffix
}

/// Whether `text` starts with `prefix`.
pub fn starts_with(text: &str, prefix: &str) -> (r: bool)
    ensures
        r == has_prefix(text@, prefix@),
{
    let n: usize = prefix.unicode_len();
    if n <= text.unicode_len() {
        let head: &str = text.substring_char(0, n);
        assert(head@ =~= text@.take(n as int));
        same_text(head, prefix)
    } else {
        false
    }
}

/// What stands before `suffix` in `text`, where `text` ends with it.
pub fn strip_suffix(text: &str, suffix: &str) -> (r: Option<String>)
    ensures
        match r {
            Some(front) => has_suffix(text@, suffix@) && front@ + suffix@ == text@,
            None => !has_suffix(text@, suffix@),
        },
{
    let n: usize = suffix.unicode_len();
    let total: usize = text.unicode_len();
    if n <= total {
        let tail: &str = text.substring_char(total - n, total);
        assert(tail@ =~= text@.skip(total - n));
        if same_text(tail, suffix) {
            let front: &str = text.substring_char(0, total - n);
            assert(front@ + suffix@ =~= text@);
            return Some(front.to_owned());
        }
    }
    None
}

/// Whether `c` has the Unicode property `White_Space`.
pub open spec fn is_white_space(c: char) -> bool {
    let n = c as u32;
    ||| 0x9 <= n <= 0xd
    ||| n == 0x20
    ||| n == 0x85
    ||| n == 0xa0
    ||| n == 0x1680
    ||| 0x2000 <= n <= 0x200a
    ||| n == 0x2028
    ||| n == 0x2029
    ||| n == 0x202f
    ||| n == 0x205f
    ||| n == 0x3000
}

/// `s` without the white space at its front.
pub open spec fn trimmed_front(s: Seq<char>) -> Seq<char>
    decreases s.len(),
{
    if s.len() > 0 && is_white_space(s[0]) {
        trimmed_front(s.skip(1))
    } else {
        s
    }
}

/// `s` without the white space at its end.
pub open spec fn trimmed_back(s: Seq<char>) -> Seq<char>
    decreases s.len(),
{
    if s.len() > 0 && is_white_space(s.last()) {
        trimmed_back(s.drop_last())
    } else {
        s
    }
}

/// `s` without the white space at its two ends.
pub open spec fn trimmed(s: Seq<char>) -> Seq<char> {
    trimmed_back(trimmed_front(s))
}

fn white_space(c: char) -> (r: bool)
    ensures
        r == is_white_space(c),
{
    let n: u32 = c as u32;
    (0x9 <= n && n <= 0xd) || n == 0x20 || n == 0x85 || n == 0xa0 || n == 0x1680 || (0x2000 <= n
        && n <= 0x200a) || n == 0x2028 || n == 0x2029 || n == 0x202f || n == 0x205f || n == 0x3000
}

/// `text` without the white space at its two ends.
pub fn trim(text: &str) -> (r: &str)
    ensures
        r@ == trimmed(text@),
{
    let chars: Vec<char> = chars_of(text);
    let mut from: usize = 0;
    assert(text@.skip(0) =~= text@);
    while from < chars.len() && white_space(chars[from])
        invariant
            from <= chars.len(),
            chars@ == text@,
            trimmed_front(text@) == trimmed_front(text@.skip(from as int)),
        decreases chars.len() - from,
    {
        assert(text@.skip(from as int).skip(1) =~= text@.skip(from as int + 1));
        from = from + 1;
    }
    let ghost front: Seq<char> = text@.skip(from as int);
    assert(trimmed_front(text@) == front);
    let mut to: usize = chars.len();
    assert(text@.subrange(from as int, to as int) =~= front);
    while to > from && white_space(chars[to - 1])
        invariant
            from <= to <= chars.len(),
            chars@ == text@,
            trimmed_back(front) == trimmed_back(text@.subrange(from as int, to as int)),
        decreases to,
    {
        assert(text@.subrange(from as int, to as int).drop_last() =~= text@.subrange(
            from as int,
            to as int - 1,
        ));
        to = to - 1;
    }
    assert(to > from ==> text@.subrange(from as int, to as int).last() == text@[to - 1]);
    text.substring_char(from, to)
}

/// Whether `c` does not occur in `s`.
pub open spec fn is_free_of(s: Seq<char>, c: char) -> bool {
    forall|i: int| 0 <= i < s.len() ==> #[trigger] s[i] != c
}

/// The parts one after the other, each of them followed by `sep`.
pub open spec fn each_ended(parts: Seq<Seq<char>>, sep: char) -> Seq<char>
    decreases parts.len(),
{
    if parts.len() == 0 {
        Seq::empty()
    } else {
        each_ended(parts.drop_last(), sep) + parts.last().push(sep)
    }
}

/// The parts one after the other, with `sep` between two of them.
pub open spec fn joined(parts: Seq<Seq<char>>, sep: char) -> Seq<char> {
    if parts.len() == 0 {
        Seq::empty()
    } else {
        each_ended(parts.drop_last(), sep) + parts.last()
    }
}

/// Whether `parts` is `s` split at its first `limit - 1` separators.
pub open spec fn is_split(parts: Seq<Seq<char>>, s: Seq<char>, limit: nat, sep: char) -> bool {
    &&& 1 <= parts.len() <= limit
    &&& joined(parts, sep) == s
    &&& forall|i: int| 0 <= i < parts.len() - 1 ==> is_free_of(#[trigger] parts[i], sep)
    &&& parts.len() < limit ==> is_free_of(parts.last(), sep)
}

/// What `each_ended` gives, taken from the front.
pub proof fn lemma_each_ended_front(parts: Seq<Seq<char>>, sep: char)
    requires
        parts.len() > 0,
    ensures
        each_ended(parts, sep) == parts[0].push(sep) + each_ended(parts.skip(1), sep),
    decreases parts.len(),
{
    if parts.len() == 1 {
        assert(parts.drop_last() =~= Seq::<Seq<char>>::empty());
        assert(parts.skip(1) =~= Seq::<Seq<char>>::empty());
        assert(each_ended(parts, sep) =~= parts[0].push(sep) + each_ended(parts.skip(1), sep));
    } else {
        lemma_each_ended_front(parts.drop_last(), sep);
        assert(parts.drop_last().skip(1) =~= parts.skip(1).drop_last());
        assert(each_ended(parts, sep) =~= parts[0].push(sep) + each_ended(parts.skip(1), sep));
    }
}

/// What `joined` gives, taken from the front.
pub proof fn lemma_joined_front(parts: Seq<Seq<char>>, sep: char)
    requires
        parts.len() > 1,
    ensures
        joined(parts, sep) == parts[0].push(sep) + joined(parts.skip(1), sep),
{
    lemma_each_ended_front(parts.drop_last(), sep);
    assert(parts.drop_last().skip(1) =~= parts.skip(1).drop_last());
    assert(joined(parts, sep) =~= parts[0].push(sep) + joined(parts.skip(1), sep));
}

/// A text is split in one way only.
pub proof fn lemma_split_unique(
    p: Seq<Seq<char>>,
    q: Seq<Seq<char>>,
    s: Seq<char>,
    limit: nat,
    sep: char,
)
    requires
        is_split(p, s, limit, sep),
        is_split(q, s, limit, sep),
    ensures
        p == q,
    decreases p.len(),
{
    if p.len() == 1 || q.len() == 1 {
        if p.len() > 1 {
            lemma_joined_front(p, sep);
            assert(q.drop_last() =~= Seq::<Seq<char>>::empty());
            assert(s =~= q.last());
            assert(s[p[0].len() as int] == sep);
        } else if q.len() > 1 {
            lemma_joined_front(q, sep);
            assert(p.drop_last() =~= Seq::<Seq<char>>::empty());
            assert(s =~= p.last());
            assert(s[q[0].len() as int] == sep);
        } else {
            assert(p.drop_last() =~= Seq::<Seq<char>>::empty());
            assert(q.drop_last() =~= Seq::<Seq<char>>::empty());
            assert(s =~= p.last());
            assert(s =~= q.last());
            assert(p =~= q);
        }
    } else {
        lemma_joined_front(p, sep);
        lemma_joined_front(q, sep);
        let m = p[0].len() as int;
        let n = q[0].len() as int;
        assert(s[m] == sep && s[n] == sep);
        assert(m == n) by {
            if m < n {
                assert(q[0][m] == s[m]);
            } else if n < m {
                assert(p[0][n] == s[n]);
            }
        }
        assert(p[0] =~= s.take(m));
        assert(q[0] =~= s.take(m));
        let rest = s.skip(m + 1);
        assert(joined(p.skip(1), sep) =~= rest);
        assert(joined(q.skip(1), sep) =~= rest);
        assert forall|i: int| 0 <= i < p.skip(1).len() - 1 implies is_free_of(
            #[trigger] p.skip(1)[i],
            sep,
        ) by {
            assert(p.skip(1)[i] == p[i + 1]);
        }
        assert forall|i: int| 0 <= i < q.skip(1).len() - 1 implies is_free_of(
            #[trigger] q.skip(1)[i],
            sep,
        ) by {
            assert(q.skip(1)[i] == q[i + 1]);
        }
        assert(p.skip(1).last() == p.last());
        assert(q.skip(1).last() == q.last());
        lemma_split_unique(p.skip(1), q.skip(1), rest, (limit - 1) as nat, sep);
        assert forall|i: int| 0 <= i < p.len() implies p[i] == q[i] by {
            if i > 0 {
                assert(p.skip(1)[i - 1] == q.skip(1)[i - 1]);
            }
        }
        assert(p =~= q);
    }
}

/// Splits `text` at its first `limit - 1` separators.
pub fn splitn(text: &str, limit: usize, sep: char) -> (parts: Vec<String>)
    requires
        limit > 0,
    ensures
        is_split(parts.deep_view(), text@, limit as nat, sep),
{
    let chars: Vec<char> = chars_of(text);
    let mut parts: Vec<String> = Vec::new();
    let mut from: usize = 0;
    let mut at: usize = 0;
    assert(text@ =~= each_ended(parts.deep_view(), sep) + text@.skip(0));
    while at < chars.len() && parts.len() + 1 < limit
        invariant
            from <= at <= chars.len(),
            chars@ == text@,
            parts.len() < limit,
            text@ == each_ended(parts.deep_view(), sep) + text@.skip(from as int),
            forall|i: int| 0 <= i < parts.len() ==> is_free_of(#[trigger] parts.deep_view()[i], sep),
            forall|i: int| from <= i < at ==> #[trigger] text@[i] != sep,
        decreases chars.len() - at,
    {
        if chars[at] == sep {
            let ghost before: Seq<Seq<char>> = parts.deep_view();
            let part: &str = text.substring_char(from, at);
            parts.push(part.to_owned());
            proof {
                assert(parts.deep_view() =~= before.push(part@));
                assert(parts.deep_view().drop_last() =~= before);
                assert(is_free_of(part@, sep));
                assert(text@ =~= each_ended(parts.deep_view(), sep) + text@.skip(at as int + 1));
            }
            from = at + 1;
        }
        at = at + 1;
    }
    let ghost before: Seq<Seq<char>> = parts.deep_view();
    let rest: &str = text.substring_char(from, chars.len());
    parts.push(rest.to_owned());
    proof {
        assert(rest@ =~= text@.skip(from as int));
        assert(parts.deep_view() =~= before.push(rest@));
        assert(parts.deep_view().drop_last() =~= before);
    }
    parts
}

/// A run of digits writes what its front writes, moved by the places behind it, and
/// what its rest writes; a single digit writes itself.
pub proof fn law_digits_count_by_their_places(a: Seq<char>, b: Seq<char>)
    requires
        all_digits(a),
        all_digits(b),
    ensures
        value(a + b) == value(a) * pow(10, b.len()) + value(b),
        b.len() == 1 ==> value(b) == b[0] as int - 0x30,
        b.len() == 0 ==> value(b) == 0,
    decreases b.len(),
{
    reveal(pow);
    if b.len() == 0 {
        assert(a + b =~= a);
    } else {
        let front = b.drop_last();
        assert forall|i: int| 0 <= i < front.len() implies is_digit(#[trigger] front[i]) by {
            assert(front[i] == b[i]);
        }
        law_digits_count_by_their_places(a, front);
        assert((a + b).drop_last() =~= a + front);
        assert(is_digit(b[b.len() - 1]));
        let d = b.last() as int - 0x30;
        let p = pow(10, front.len());
        assert(pow(10, b.len()) == 10 * p);
        let v = value(a) as int;
        let w = value(front) as int;
        assert((v * p + w) * 10 + d == v * (10 * p) + (w * 10 + d)) by (nonlinear_arith);
        if b.len() == 1 {
            assert(front.len() == 0);
            assert(value(front) == 0);
        }
    }
}

/// A number is written without zeros at its front.
pub proof fn law_decimal_has_no_leading_zero(n: nat)
    ensures
        decimal(n).len() > 0,
        decimal(n)[0] == '0' ==> n == 0 && decimal(n).len() == 1,
    decreases n,
{
    if n >= 10 {
        law_decimal_has_no_leading_zero(n / 10);
        assert(decimal(n)[0] == decimal(n / 10)[0]);
    }
}

/// What is read as a number: digits, of which zeros at the front do not matter, with
/// a sign before them or none, if the number fits; and nothing else.
pub proof fn law_numbers_are_read(digits: Seq<char>)
    requires
        digits.len() > 0,
        forall|i: int| 0 <= i < digits.len() ==> 0x30 <= #[trigger] digits[i] as int <= 0x39,
    ensures
        value(digits) <= 0x7fff_ffff ==> parsed_i32(digits) == Some(value(digits) as i32)
            && parsed_i32(seq!['+'] + digits) == Some(value(digits) as i32),
        value(digits) > 0x7fff_ffff ==> parsed_i32(digits) is None && parsed_i32(
            seq!['+'] + digits,
        ) is None,
        value(digits) <= 0x8000_0000 ==> parsed_i32(seq!['-'] + digits) == Some(
            (-value(digits)) as i32,
        ),
        value(digits) > 0x8000_0000 ==> parsed_i32(seq!['-'] + digits) is None,
        parsed_i32(seq!['0'] + digits) == parsed_i32(digits),
{
    assert(all_digits(digits));
    assert(is_digit(digits[0]));
    assert((seq!['+'] + digits).skip(1) =~= digits);
    assert((seq!['-'] + digits).skip(1) =~= digits);
    let zero = seq!['0'];
    assert(all_digits(zero));
    law_digits_count_by_their_places(zero, digits);
    law_digits_count_by_their_places(Seq::empty(), zero);
    assert(value(zero) == 0);
    assert(all_digits(zero + digits));
    let p = pow(10, digits.len());
    assert(0 * p == 0) by (nonlinear_arith);
}

/// Whether a text is made of digits, with a sign before them or none.
pub open spec fn looks_like_a_number(s: Seq<char>) -> bool {
    let n = s.len() as int;
    let from = if n > 0 && (s[0] == '+' || s[0] == '-') {
        1int
    } else {
        0
    };
    from < n && forall|i: int| from <= i < n ==> 0x30 <= #[trigger] s[i] as int <= 0x39
}

/// A text that is not made of digits, with a sign before them or none, is no number.
pub proof fn law_only_numbers_are_read(s: Seq<char>)
    ensures
        !looks_like_a_number(s) ==> parsed_i32(s) is None,
{
    if is_number(s) {
        let d = unsigned_part(s);
        assert forall|i: int| s.len() - d.len() <= i < s.len() implies 0x30 <= #[trigger] s[i] as int
            <= 0x39 by {
            assert(is_digit(d[i - (s.len() - d.len())]));
        }
    }
}

/// A text has a prefix or a suffix just where it is that and something more.
pub proof fn law_prefixes_and_suffixes(s: Seq<char>, part: Seq<char>, rest: Seq<char>)
    ensures
        has_prefix(part + rest, part),
        has_suffix(rest + part, part),
        has_prefix(s, part) ==> s == part + s.skip(part.len() as int),
        has_suffix(s, part) ==> s == s.take(s.len() - part.len()) + part,
{
    assert((part + rest).take(part.len() as int) =~= part);
    assert((rest + part).skip(rest.len() as int) =~= part);
    if has_prefix(s, part) {
        assert(s =~= s.take(part.len() as int) + s.skip(part.len() as int));
    }
    if has_suffix(s, part) {
        assert(s =~= s.take(s.len() - part.len()) + s.skip(s.len() - part.len()));
    }
}

/// Whether `s` is white space only.
pub open spec fn is_blank(s: Seq<char>) -> bool {
    forall|i: int| 0 <= i < s.len() ==> is_white_space(#[trigger] s[i])
}

/// Trimming takes away white space only, and all of it at the two ends. What is cut
/// off at the front and at the end is what comes back.
pub proof fn law_trim_takes_white_space(s: Seq<char>) -> (ends: (Seq<char>, Seq<char>))
    ensures
        s == ends.0 + trimmed(s) + ends.1,
        is_blank(ends.0),
        is_blank(ends.1),
        trimmed(s).len() > 0 ==> !is_white_space(trimmed(s)[0]) && !is_white_space(
            trimmed(s).last(),
        ),
{
    let front = trimmed_front(s);
    let a = lemma_trimmed_front(s);
    let b = lemma_trimmed_back(front);
    assert(s =~= a + trimmed(s) + b);
    if trimmed(s).len() > 0 {
        assert(trimmed(s)[0] == front[0]);
    }
    (a, b)
}

proof fn lemma_trimmed_front(s: Seq<char>) -> (cut: Seq<char>)
    ensures
        s == cut + trimmed_front(s),
        is_blank(cut),
        trimmed_front(s).len() > 0 ==> !is_white_space(trimmed_front(s)[0]),
    decreases s.len(),
{
    if s.len() > 0 && is_white_space(s[0]) {
        let rest = lemma_trimmed_front(s.skip(1));
        let cut = seq![s[0]] + rest;
        assert(s =~= seq![s[0]] + s.skip(1));
        assert(s =~= cut + trimmed_front(s));
        assert forall|i: int| 0 <= i < cut.len() implies is_white_space(#[trigger] cut[i]) by {
            if i > 0 {
                assert(cut[i] == rest[i - 1]);
            }
        }
        cut
    } else {
        assert(s =~= Seq::<char>::empty() + s);
        Seq::empty()
    }
}

proof fn lemma_trimmed_back(s: Seq<char>) -> (cut: Seq<char>)
    ensures
        s == trimmed_back(s) + cut,
        is_blank(cut),
        trimmed_back(s).len() > 0 ==> !is_white_space(trimmed_back(s).last()),
    decreases s.len(),
{
    if s.len() > 0 && is_white_space(s.last()) {
        let rest = lemma_trimmed_back(s.drop_last());
        let cut = rest.push(s.last());
        assert(s =~= s.drop_last().push(s.last()));
        assert(s =~= trimmed_back(s) + cut);
        assert forall|i: int| 0 <= i < cut.len() implies is_white_space(#[trigger] cut[i]) by {
            if i < rest.len() {
                assert(cut[i] == rest[i]);
            }
        }
        cut
    } else {
        assert(s =~= s + Seq::<char>::empty());
        Seq::empty()
    }
}

/// Parts are joined with one separator between two of them, and ended with one behind
/// each.
pub proof fn law_parts_are_joined(parts: Seq<Seq<char>>, part: Seq<char>, sep: char)
    ensures
        joined(seq![part], sep) == part,
        parts.len() > 0 ==> joined(parts.push(part), sep) == joined(parts, sep) + seq![sep] + part,
        each_ended(Seq::<Seq<char>>::empty(), sep).len() == 0,
        each_ended(parts.push(part), sep) == each_ended(parts, sep) + part + seq![sep],
{
    assert(seq![part].drop_last() =~= Seq::<Seq<char>>::empty());
    assert(joined(seq![part], sep) =~= part);
    assert(parts.push(part).drop_last() =~= parts);
    assert(each_ended(parts.push(part), sep) =~= each_ended(parts, sep) + part + seq![sep]);
    if parts.len() > 0 {
        assert(joined(parts.push(part), sep) =~= joined(parts, sep) + seq![sep] + part);
    }
}

/// A number below zero is written with a minus sign before its digits, any other
/// without a sign.
pub proof fn law_sign_is_written(n: nat)
    ensures
        decimal_int(n as int) == decimal(n),
        n > 0 ==> decimal_int(-n) == seq!['-'] + decimal(n),
{
}

/// A text is free of a character just where it does not hold it at any place.
pub proof fn law_free_of(s: Seq<char>, c: char)
    ensures
        is_free_of(s, c) <==> !s.contains(c),
{
    if !is_free_of(s, c) {
        let i = choose|i: int| 0 <= i < s.len() && s[i] == c;
        assert(s.contains(s[i]));
    }
}

} // verus!
