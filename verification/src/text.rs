//! String operations on paths and numbers, stated over sequences of characters.
use vstd::prelude::*;
use vstd::string::*;
use vstd::utf8::*;

verus! {

/// The UTF-8 encoding of a concatenation is the concatenation of the encodings.
proof fn lemma_encode_concat(a: Seq<char>, b: Seq<char>)
    ensures
        encode_utf8(a + b) == encode_utf8(a) + encode_utf8(b),
    decreases a.len(),
{
    if a.len() == 0 {
        assert(a + b =~= b);
    } else {
        lemma_encode_concat(a.drop_first(), b);
        assert((a + b).drop_first() =~= a.drop_first() + b);
    }
}

/// The end of a prefix's encoding is a character boundary of the whole encoding.
proof fn lemma_prefix_boundary(a: Seq<char>, b: Seq<char>)
    ensures
        is_char_boundary(encode_utf8(a + b), encode_utf8(a).len() as int),
    decreases a.len(),
{
    encode_utf8_valid_utf8(a + b);
    if a.len() > 0 {
        let whole = a + b;
        encode_utf8_first_scalar(whole);
        encode_utf8_valid_utf8(whole);
        lemma_encode_concat(a, b);
        lemma_prefix_boundary(a.drop_first(), b);
        assert(whole.drop_first() =~= a.drop_first() + b);
        assert(pop_first_scalar(encode_utf8(whole)) =~= encode_utf8(whole.drop_first()));
    }
}

/// Character sequences with the same encoding are the same.
proof fn lemma_encode_injective(a: Seq<char>, b: Seq<char>)
    requires
        encode_utf8(a) == encode_utf8(b),
    ensures
        a == b,
{
    encode_utf8_decode_utf8(a);
    encode_utf8_decode_utf8(b);
}

/// The encoding of a character ends in the byte of `/` exactly if it is `/`.
proof fn lemma_scalar_ends_in_slash(c: char)
    ensures
        encode_scalar(c as u32).len() > 0,
        encode_scalar(c as u32).last() == 0x2f <==> c == '/',
        c == '/' ==> encode_scalar(c as u32).len() == 1,
{
    char_is_scalar(c);
    let s = c as u32;
    if has_width_1_encoding(s) {
        assert(leading_byte_width_1(s) == 0x2f <==> s == 0x2f) by (bit_vector)
            requires
                has_width_1_encoding(s),
        ;
    } else {
        assert(last_continuation_byte(s) != 0x2f) by (bit_vector);
    }
}

/// `s` without the slashes at its end.
pub open spec fn trimmed(s: Seq<char>) -> Seq<char>
    decreases s.len(),
{
    if s.len() > 0 && s.last() == '/' {
        trimmed(s.drop_last())
    } else {
        s
    }
}

/// Cuts the slashes off the end of `s`.
pub fn trim_end_slashes(s: &str) -> (r: &str)
    ensures
        r@ == trimmed(s@),
{
    let bytes: &[u8] = s.as_bytes();
    let mut n: usize = bytes.len();
    let ghost mut k: int = s@.len() as int;
    assert(s@.take(k) =~= s@);
    assert(bytes@.subrange(0, n as int) =~= bytes@);
    while n > 0 && bytes[n - 1] == 0x2f
        invariant
            bytes@ == encode_utf8(s@),
            n <= bytes@.len(),
            0 <= k <= s@.len(),
            bytes@.subrange(0, n as int) == encode_utf8(s@.take(k)),
            trimmed(s@.take(k)) == trimmed(s@),
        decreases n,
    {
        proof {
            lemma_last_scalar(s@.take(k));
            let rest = s@.take(k).drop_last();
            assert(rest =~= s@.take(k - 1));
            assert(bytes@.subrange(0, n - 1) =~= bytes@.subrange(0, n as int).drop_last());
            k = k - 1;
        }
        n = n - 1;
    }
    proof {
        if k > 0 {
            lemma_last_scalar(s@.take(k));
        }
        lemma_prefix_boundary(s@.take(k), s@.skip(k));
        assert(s@.take(k) + s@.skip(k) =~= s@);
    }
    let (head, _tail) = s.split_at(n);
    proof {
        lemma_encode_injective(head@, s@.take(k));
    }
    head
}

/// What the last byte of an encoding says of the last character.
proof fn lemma_last_scalar(s: Seq<char>)
    ensures
        s.len() == 0 <==> encode_utf8(s).len() == 0,
        s.len() > 0 ==> (encode_utf8(s).last() == 0x2f <==> s.last() == '/'),
        s.len() > 0 && s.last() == '/' ==> encode_utf8(s.drop_last()) == encode_utf8(s).drop_last(),
{
    if s.len() > 0 {
        lemma_encode_concat(s.drop_last(), seq![s.last()]);
        assert(s.drop_last() + seq![s.last()] =~= s);
        reveal_with_fuel(encode_utf8, 2);
        assert(seq![s.last()].drop_first() =~= Seq::<char>::empty());
        assert(encode_utf8(seq![s.last()]) =~= encode_scalar(s.last() as u32));
        lemma_scalar_ends_in_slash(s.last());
        assert(encode_utf8(s).last() == encode_scalar(s.last() as u32).last());
        if s.last() == '/' {
            assert(encode_utf8(s).drop_last() =~= encode_utf8(s.drop_last()));
        }
    }
}

/// Whether `prefix` stands at the start of `s`.
pub open spec fn has_prefix(s: Seq<char>, prefix: Seq<char>) -> bool {
    prefix.len() <= s.len() && s.take(prefix.len() as int) == prefix
}

/// Tells whether `s` starts with `prefix`.
pub fn starts_with(s: &str, prefix: &str) -> (r: bool)
    ensures
        r == has_prefix(s@, prefix@),
{
    let mut rest = s.chars();
    for c in it: prefix.chars()
        invariant
            it.seq() == prefix@,
            vstd::std_specs::iter::IteratorSpec::remaining(&rest) == s@.skip(it.index() as int),
            it.index() <= s@.len(),
            s@.take(it.index() as int) == prefix@.take(it.index() as int),
    {
        match rest.next() {
            Some(d) => {
                if c != d {
                    return false;
                }
            }
            None => {
                return false;
            }
        }
    }
    assert(prefix@.take(prefix@.len() as int) =~= prefix@);
    true
}

/// What follows `prefix` in `s`, where `s` starts with it.
pub fn strip_prefix<'a>(s: &'a str, prefix: &str) -> (r: Option<&'a str>)
    ensures
        r is Some <==> has_prefix(s@, prefix@),
        r matches Some(rest) ==> rest@ == s@.skip(prefix@.len() as int),
{
    if !starts_with(s, prefix) {
        return None;
    }
    let bytes: &[u8] = prefix.as_bytes();
    let n: usize = bytes.len();
    proof {
        let rest = s@.skip(prefix@.len() as int);
        assert(s@ =~= prefix@ + rest);
        lemma_encode_concat(prefix@, rest);
        lemma_prefix_boundary(prefix@, rest);
        assert(encode_utf8(s@).subrange(n as int, encode_utf8(s@).len() as int) =~= encode_utf8(
            rest,
        ));
    }
    let (_head, tail) = s.split_at(n);
    proof {
        lemma_encode_injective(tail@, s@.skip(prefix@.len() as int));
    }
    Some(tail)
}

/// The decimal digit `d`, for `d` below ten.
pub open spec fn digit_char(d: nat) -> char {
    ('0' as nat + d) as char
}

/// `n` in decimal, without leading zeros.
pub open spec fn decimal(n: nat) -> Seq<char>
    decreases n,
{
    if n < 10 {
        seq![digit_char(n)]
    } else {
        decimal(n / 10).push(digit_char(n % 10))
    }
}

/// `n` in decimal, with zeros before it where it has fewer than `width` digits.
pub open spec fn padded(n: nat, width: nat) -> Seq<char>
    decreases width,
{
    if width <= 1 {
        decimal(n)
    } else {
        padded(n / 10, (width - 1) as nat).push(digit_char(n % 10))
    }
}

/// The decimal digit `d` as a string.
fn digit_str(d: u64) -> (r: &'static str)
    requires
        d < 10,
    ensures
        r@ == seq![digit_char(d as nat)],
{
    proof {
        reveal_strlit("0");
        reveal_strlit("1");
        reveal_strlit("2");
        reveal_strlit("3");
        reveal_strlit("4");
        reveal_strlit("5");
        reveal_strlit("6");
        reveal_strlit("7");
        reveal_strlit("8");
        reveal_strlit("9");
    }
    let r = if d == 0 {
        "0"
    } else if d == 1 {
        "1"
    } else if d == 2 {
        "2"
    } else if d == 3 {
        "3"
    } else if d == 4 {
        "4"
    } else if d == 5 {
        "5"
    } else if d == 6 {
        "6"
    } else if d == 7 {
        "7"
    } else if d == 8 {
        "8"
    } else {
        "9"
    };
    assert(r@ =~= seq![digit_char(d as nat)]);
    r
}

/// Writes `n` in decimal at the end of `out`.
pub fn push_decimal(out: &mut String, n: u64)
    ensures
        final(out)@ == old(out)@ + decimal(n as nat),
    decreases n,
{
    if n >= 10 {
        push_decimal(out, n / 10);
    }
    out.append(digit_str(n % 10));
    assert(out@ =~= old(out)@ + decimal(n as nat));
}

/// Writes `n` in decimal at the end of `out`, with zeros before it up to `width` digits.
pub fn push_padded(out: &mut String, n: u64, width: u32)
    ensures
        final(out)@ == old(out)@ + padded(n as nat, width as nat),
    decreases width,
{
    if width <= 1 {
        push_decimal(out, n);
    } else {
        push_padded(out, n / 10, width - 1);
        out.append(digit_str(n % 10));
    }
    assert(out@ =~= old(out)@ + padded(n as nat, width as nat));
}

/// Whether `c` is one of the ten decimal digits.
pub open spec fn is_digit(c: char) -> bool {
    '0' <= c <= '9'
}

/// Whether `s` holds decimal digits and nothing else.
pub open spec fn all_digits(s: Seq<char>) -> bool {
    forall|i: int| 0 <= i < s.len() ==> is_digit(#[trigger] s[i])
}

/// The number that the digits of `s` write.
pub open spec fn digits_value(s: Seq<char>) -> nat
    decreases s.len(),
{
    if s.len() == 0 {
        0
    } else {
        digits_value(s.drop_last()) * 10 + (s.last() as nat - '0' as nat) as nat
    }
}

/// Whether `s` starts with a sign.
pub open spec fn signed(s: Seq<char>) -> bool {
    s.len() > 0 && (s[0] == '+' || s[0] == '-')
}

/// What stands behind the sign of `s`, if it has one.
pub open spec fn magnitude(s: Seq<char>) -> Seq<char> {
    if signed(s) {
        s.skip(1)
    } else {
        s
    }
}

/// The 64-bit integer that `s` writes in decimal: an optional sign, then digits. `None` for any
/// other text and for a number outside the range.
pub open spec fn integer_of(s: Seq<char>) -> Option<int> {
    let digits = magnitude(s);
    let value: int = if signed(s) && s[0] == '-' {
        -digits_value(digits)
    } else {
        digits_value(digits) as int
    };
    if digits.len() > 0 && all_digits(digits) && i64::MIN <= value <= i64::MAX {
        Some(value)
    } else {
        None
    }
}

/// Leading digits never make the number smaller.
proof fn lemma_digits_value_grows(s: Seq<char>, k: int)
    requires
        0 <= k <= s.len(),
    ensures
        digits_value(s.take(k)) <= digits_value(s),
    decreases s.len(),
{
    if k == s.len() {
        assert(s.take(k) =~= s);
    } else {
        lemma_digits_value_grows(s.drop_last(), k);
        assert(s.drop_last().take(k) =~= s.take(k));
    }
}

/// Reads a decimal integer.
pub fn parse_i64(s: &str) -> (r: Option<i64>)
    ensures
        match r {
            Some(v) => integer_of(s@) == Some(v as int),
            None => integer_of(s@) is None,
        },
{
    let mut value: u128 = 0;
    let mut negative = false;
    let mut overflow = false;
    let mut any = false;
    let mut first = true;
    let ghost digits = magnitude(s@);
    let ghost lead: int = if signed(s@) {
        1
    } else {
        0
    };
    for c in it: s.chars()
        invariant
            it.seq() == s@,
            digits == magnitude(s@),
            lead == (if signed(s@) {
                1int
            } else {
                0int
            }),
            first == (it.index() == 0),
            it.index() > 0 ==> negative == (signed(s@) && s@[0] == '-'),
            it.index() == 0 ==> !negative,
            any == (it.index() > lead),
            it.index() > lead ==> all_digits(digits.take(it.index() - lead)),
            it.index() <= lead ==> value == 0 && !overflow,
            !overflow && it.index() > lead ==> value == digits_value(digits.take(it.index() - lead)),
            overflow ==> digits_value(digits) > 0x8000_0000_0000_0000,
            value <= 0x8000_0000_0000_0000,
    {
        let ghost i = it.index();
        if first && (c == '+' || c == '-') {
            negative = c == '-';
        } else {
            if !('0' <= c && c <= '9') {
                assert(digits[i - lead] == c);
                return None;
            }
            proof {
                assert(digits[i - lead] == c);
                let t = digits.take(i - lead + 1);
                assert(t.drop_last() =~= digits.take(i - lead));
                assert(t.last() == c);
                lemma_digits_value_grows(digits, i - lead + 1);
                assert(digits_value(digits.take(0)) == 0);
                assert(digits_value(t) == digits_value(digits.take(i - lead)) * 10 + (c as nat
                    - '0' as nat));
                assert forall|j: int| 0 <= j < t.len() implies is_digit(#[trigger] t[j]) by {
                    if j < i - lead {
                        assert(t[j] == digits.take(i - lead)[j]);
                    }
                }
            }
            any = true;
            if !overflow {
                let next: u128 = value * 10 + (c as u32 - '0' as u32) as u128;
                if next > 0x8000_0000_0000_0000 {
                    overflow = true;
                } else {
                    value = next;
                }
            }
        }
        first = false;
    }
    assert(digits.take(digits.len() as int) =~= digits);
    if !any || overflow {
        return None;
    }
    if negative {
        if value == 0x8000_0000_0000_0000 {
            Some(i64::MIN)
        } else {
            Some(-(value as i64))
        }
    } else if value == 0x8000_0000_0000_0000 {
        None
    } else {
        Some(value as i64)
    }
}

/// A number written in decimal holds digits only, and reads back as itself.
pub proof fn a_written_number_reads_back(n: nat)
    ensures
        decimal(n).len() >= 1,
        all_digits(decimal(n)),
        digits_value(decimal(n)) == n,
        n <= i64::MAX ==> integer_of(decimal(n)) == Some(n as int),
    decreases n,
{
    assert(digit_char(n % 10) as nat - '0' as nat == n % 10);
    assert(decimal(n).last() == digit_char(n % 10));
    if n < 10 {
        assert(decimal(n).drop_last() =~= Seq::<char>::empty());
        assert(digits_value(Seq::<char>::empty()) == 0);
    } else {
        a_written_number_reads_back(n / 10);
        assert(decimal(n).drop_last() =~= decimal(n / 10));
    }
    assert(is_digit(decimal(n)[0]));
}

/// `c` in lower case, if it is an ASCII letter.
pub open spec fn ascii_lower(c: char) -> char {
    if 'A' <= c <= 'Z' {
        (c as u32 + 32) as char
    } else {
        c
    }
}

/// Whether two texts differ at most in the case of ASCII letters.
pub open spec fn same_ignoring_case(a: Seq<char>, b: Seq<char>) -> bool {
    a.len() == b.len() && forall|i: int|
        0 <= i < a.len() ==> ascii_lower(#[trigger] a[i]) == ascii_lower(b[i])
}

/// `c` in lower case, if it is an ASCII letter.
fn to_ascii_lower(c: char) -> (r: char)
    ensures
        r == ascii_lower(c),
{
    if 'A' <= c && c <= 'Z' {
        (c as u8 + 32) as char
    } else {
        c
    }
}

/// Compares two texts, taking upper and lower case ASCII letters as equal.
pub fn eq_ignore_ascii_case(a: &str, b: &str) -> (r: bool)
    ensures
        r == same_ignoring_case(a@, b@),
{
    let mut rest = b.chars();
    for c in it: a.chars()
        invariant
            it.seq() == a@,
            it.index() <= b@.len(),
            vstd::std_specs::iter::IteratorSpec::remaining(&rest) == b@.skip(it.index() as int),
            forall|i: int|
                0 <= i < it.index() ==> ascii_lower(#[trigger] a@[i]) == ascii_lower(b@[i]),
    {
        match rest.next() {
            Some(d) => {
                if to_ascii_lower(c) != to_ascii_lower(d) {
                    assert(ascii_lower(a@[it.index() as int]) != ascii_lower(b@[it.index() as int]));
                    return false;
                }
            }
            None => {
                return false;
            }
        }
    }
    rest.next().is_none()
}

/// Whether `a` comes before `b` in the order of strings: at the first place where they differ it
/// has the smaller character, or it is the start of `b`.
pub open spec fn before(a: Seq<char>, b: Seq<char>) -> bool {
    ||| exists|i: int|
        0 <= i < a.len() && i < b.len() && #[trigger] a.take(i) == b.take(i) && a[i] < b[i]
    ||| a.len() < b.len() && a == b.take(a.len() as int)
}

/// What follows two texts of the same length that are in order does not matter.
pub(crate) proof fn lemma_before_extends(a: Seq<char>, b: Seq<char>, x: Seq<char>, y: Seq<char>)
    requires
        a.len() == b.len(),
        before(a, b),
    ensures
        before(a + x, b + y),
{
    let i = choose|i: int|
        0 <= i < a.len() && i < b.len() && #[trigger] a.take(i) == b.take(i) && a[i] < b[i];
    assert((a + x).take(i) =~= a.take(i));
    assert((b + y).take(i) =~= b.take(i));
}

/// The same text in front of two others leaves their order as it is.
pub(crate) proof fn lemma_before_behind(front: Seq<char>, a: Seq<char>, b: Seq<char>)
    requires
        a.len() == b.len(),
        before(a, b),
    ensures
        before(front + a, front + b),
{
    let i = choose|i: int|
        0 <= i < a.len() && i < b.len() && #[trigger] a.take(i) == b.take(i) && a[i] < b[i];
    let k = front.len() + i;
    assert((front + a).take(k) =~= front + a.take(i));
    assert((front + b).take(k) =~= front + b.take(i));
}

/// Of two texts at most one comes before the other.
pub(crate) proof fn lemma_before_is_one_way(a: Seq<char>, b: Seq<char>)
    requires
        before(a, b),
    ensures
        !before(b, a),
{
    if before(b, a) {
        if exists|i: int|
            0 <= i < a.len() && i < b.len() && #[trigger] a.take(i) == b.take(i) && a[i] < b[i] {
            let i = choose|i: int|
                0 <= i < a.len() && i < b.len() && #[trigger] a.take(i) == b.take(i) && a[i] < b[i];
            lemma_first_difference(a, b, i);
        } else {
            let j = choose|j: int|
                0 <= j < b.len() && j < a.len() && #[trigger] b.take(j) == a.take(j) && b[j] < a[j];
            assert(a[j] == b.take(a.len() as int)[j]);
        }
    }
}

/// A text that is larger at the first difference does not come before the other.
proof fn lemma_first_difference(a: Seq<char>, b: Seq<char>, i: int)
    requires
        0 <= i < a.len(),
        i < b.len(),
        a.take(i) == b.take(i),
        a[i] < b[i],
    ensures
        !before(b, a),
{
    assert forall|j: int|
        0 <= j < b.len() && j < a.len() && #[trigger] b.take(j) == a.take(j) implies !(b[j]
        < a[j]) by {
        if j < i {
            assert(a.take(i)[j] == a[j] && b.take(i)[j] == b[j]);
        } else if j > i {
            assert(a.take(j)[i] == a[i] && b.take(j)[i] == b[i]);
        }
    }
    if b.len() < a.len() && b == a.take(b.len() as int) {
        assert(b[i] == a.take(b.len() as int)[i]);
    }
}

/// Cutting the slashes off the end takes all of them and nothing else: what is left stands in
/// front, slashes alone stood behind it, and it does not end in one.
pub proof fn trimming_cuts_exactly_the_slashes(s: Seq<char>)
    ensures
        trimmed(s).len() <= s.len(),
        forall|i: int| 0 <= i < trimmed(s).len() ==> #[trigger] trimmed(s)[i] == s[i],
        forall|i: int| trimmed(s).len() <= i < s.len() ==> #[trigger] s[i] == '/',
        trimmed(s).len() > 0 ==> trimmed(s).last() != '/',
    decreases s.len(),
{
    if s.len() > 0 && s.last() == '/' {
        trimming_cuts_exactly_the_slashes(s.drop_last());
        assert forall|i: int| trimmed(s).len() <= i < s.len() implies #[trigger] s[i] == '/' by {
            if i < s.len() - 1 {
                assert(s.drop_last()[i] == s[i]);
            }
        }
        assert forall|i: int| 0 <= i < trimmed(s).len() implies #[trigger] trimmed(s)[i]
            == s[i] by {
            assert(s.drop_last()[i] == s[i]);
        }
    }
}

/// What stands in front of a text is a prefix of it, and nothing else is.
pub proof fn a_prefix_stands_in_front(s: Seq<char>, prefix: Seq<char>, rest: Seq<char>)
    ensures
        has_prefix(prefix + rest, prefix),
        has_prefix(s, prefix) ==> s == prefix + s.skip(prefix.len() as int),
{
    assert((prefix + rest).take(prefix.len() as int) =~= prefix);
    if has_prefix(s, prefix) {
        assert(s =~= s.take(prefix.len() as int) + s.skip(prefix.len() as int));
    }
}

/// The ten digits, in their order, and no other character is one.
pub proof fn the_digits()
    ensures
        digit_char(0) == '0' && digit_char(1) == '1' && digit_char(2) == '2' && digit_char(3) == '3'
            && digit_char(4) == '4' && digit_char(5) == '5' && digit_char(6) == '6' && digit_char(7)
            == '7' && digit_char(8) == '8' && digit_char(9) == '9',
        forall|c: char| #[trigger] is_digit(c) <==> exists|d: nat| d < 10 && c == digit_char(d),
{
    assert forall|c: char| #[trigger] is_digit(c) implies exists|d: nat|
        d < 10 && c == digit_char(d) by {
        let d = (c as nat - '0' as nat) as nat;
        assert(c == digit_char(d));
    }
}

/// The digits of a number count by their place: those behind others count what they are, those in
/// front ten times as much for each that follows.
pub proof fn digits_count_by_place(front: Seq<char>, back: Seq<char>)
    ensures
        digits_value(front + back) == digits_value(front) * vstd::arithmetic::power::pow(
            10,
            back.len(),
        ) + digits_value(back),
        forall|d: nat| d < 10 ==> digits_value(seq![#[trigger] digit_char(d)]) == d,
    decreases back.len(),
{
    let pow = |n: nat| vstd::arithmetic::power::pow(10, n);
    assert forall|d: nat| d < 10 implies digits_value(seq![#[trigger] digit_char(d)]) == d by {
        let one = seq![digit_char(d)];
        assert(one.drop_last() =~= Seq::<char>::empty());
        assert(digits_value(Seq::<char>::empty()) == 0);
        assert(digit_char(d) as nat - '0' as nat == d);
    }
    if back.len() == 0 {
        assert(front + back =~= front);
        vstd::arithmetic::power::lemma_pow0(10);
    } else {
        digits_count_by_place(front, back.drop_last());
        assert((front + back).drop_last() =~= front + back.drop_last());
        let n = back.drop_last().len();
        assert(pow(back.len()) == 10 * pow(n)) by {
            reveal(vstd::arithmetic::power::pow);
        }
        let f = digits_value(front) as int;
        let p = pow(n);
        assert(f * p * 10 == f * (10 * p)) by (nonlinear_arith);
    }
}

/// A number with zeros before it is as many zeros as are missing to the width, then the number,
/// which has no zero in front of its own.
pub proof fn a_padded_number_stands_behind_zeros(n: nat, width: nat)
    ensures
        n > 0 ==> decimal(n)[0] != '0',
        padded(n, width) == Seq::new(
            (if decimal(n).len() < width {
                width - decimal(n).len()
            } else {
                0
            }) as nat,
            |i: int| '0',
        ) + decimal(n),
    decreases n, width,
{
    a_written_number_reads_back(n);
    if n >= 10 {
        a_padded_number_stands_behind_zeros(n / 10, (width - 1) as nat);
        a_written_number_reads_back(n / 10);
    } else if n > 0 {
        assert(decimal(n)[0] == digit_char(n));
    }
    lemma_zeros(n, width);
}

/// What stands before a padded number are the missing zeros.
proof fn lemma_zeros(n: nat, width: nat)
    ensures
        padded(n, width) == Seq::new(
            (if decimal(n).len() < width {
                width - decimal(n).len()
            } else {
                0
            }) as nat,
            |i: int| '0',
        ) + decimal(n),
    decreases width,
{
    a_written_number_reads_back(n);
    let z = (if decimal(n).len() < width {
        width - decimal(n).len()
    } else {
        0
    }) as nat;
    let whole = Seq::new(z, |i: int| '0') + decimal(n);
    if width <= 1 {
        assert(padded(n, width) =~= whole);
    } else {
        lemma_zeros(n / 10, (width - 1) as nat);
        if n < 10 {
            assert(n / 10 == 0);
            assert(decimal(0) == seq![digit_char(0)]);
            assert(decimal(n) == seq![digit_char(n)]);
        }
        assert(padded(n, width) =~= whole);
    }
}

/// An integer is read from digits, with or without a sign, if it fits in 64 bits, and from nothing
/// else.
pub proof fn integers_are_read_from_signs_and_digits(s: Seq<char>, digits: Seq<char>)
    requires
        digits.len() > 0,
        all_digits(digits),
    ensures
        integer_of(digits) == if digits_value(digits) <= 0x7fff_ffff_ffff_ffff {
            Some(digits_value(digits) as int)
        } else {
            None
        },
        integer_of(seq!['+'] + digits) == integer_of(digits),
        integer_of(seq!['-'] + digits) == if digits_value(digits) <= 0x8000_0000_0000_0000 {
            Some(-digits_value(digits))
        } else {
            None
        },
        integer_of(s) is Some ==> exists|d: Seq<char>|
            d.len() > 0 && #[trigger] all_digits(d) && (s == d || s == seq!['+'] + d || s
                == seq!['-'] + d),
{
    assert(is_digit(digits[0]));
    assert((seq!['+'] + digits).skip(1) =~= digits);
    assert((seq!['-'] + digits).skip(1) =~= digits);
    if integer_of(s) is Some {
        let d = magnitude(s);
        assert(all_digits(d));
        if signed(s) {
            assert(s =~= seq![s[0]] + d);
        }
    }
}

/// Two texts are the same but for case exactly if at every place the characters are the same or
/// an ASCII letter and its other case.
pub proof fn case_is_that_of_ascii_letters(a: Seq<char>, b: Seq<char>)
    ensures
        same_ignoring_case(a, b) <==> a.len() == b.len() && forall|i: int|
            #![trigger a[i]]
            0 <= i < a.len() ==> a[i] == b[i] || ('a' <= a[i] <= 'z' && b[i] as int + 32
                == a[i] as int) || ('a' <= b[i] <= 'z' && a[i] as int + 32 == b[i] as int),
{
}

} // verus!
