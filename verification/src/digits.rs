use vstd::prelude::*;

verus! {

/// A decimal digit character.
pub open spec fn is_dec_digit(c: char) -> bool {
    48 <= c as u32 && c as u32 <= 57
}

/// Numeric value of one decimal digit character.
pub open spec fn dec_digit_val(c: char) -> nat {
    if is_dec_digit(c) {
        (c as u32 - 48) as nat
    } else {
        0
    }
}

/// The digit character for a value below ten.
pub open spec fn digit_char(d: nat) -> char {
    if d == 0 {
        '0'
    } else if d == 1 {
        '1'
    } else if d == 2 {
        '2'
    } else if d == 3 {
        '3'
    } else if d == 4 {
        '4'
    } else if d == 5 {
        '5'
    } else if d == 6 {
        '6'
    } else if d == 7 {
        '7'
    } else if d == 8 {
        '8'
    } else {
        '9'
    }
}

/// Numeric value of a digit string, most significant digit first.
pub open spec fn dec_value(s: Seq<char>) -> nat
    decreases s.len(),
{
    if s.len() == 0 {
        0
    } else {
        dec_value(s.drop_last()) * 10 + dec_digit_val(s.last())
    }
}

/// Canonical decimal rendering of a number: no leading zeros, `0` for zero.
pub open spec fn dec_chars(n: nat) -> Seq<char>
    decreases n,
{
    if n < 10 {
        seq![digit_char(n)]
    } else {
        dec_chars(n / 10) + seq![digit_char(n % 10)]
    }
}

/// Appends one digit character.
fn push_digit(s: &mut String, d: u8)
    requires
        d < 10,
    ensures
        final(s)@ == old(s)@ + seq![digit_char(d as nat)],
{
    proof {
        reveal_strlit("0");
        reveal_strlit("1");
        reveal_strlit("2");
        reveal_strlit("3");
        reveal_strlit("4");
        reveal_strlit("5");
        reveal_strlit("6");
        reveal_strlit("7");
        reveal_strlit("8");
        reveal_strlit("9");
    }
    match d {
        0 => s.append("0"),
        1 => s.append("1"),
        2 => s.append("2"),
        3 => s.append("3"),
        4 => s.append("4"),
        5 => s.append("5"),
        6 => s.append("6"),
        7 => s.append("7"),
        8 => s.append("8"),
        _ => s.append("9"),
    }
}

/// The digit characters of `digits` read back to front.
pub open spec fn rev_digit_chars(digits: Seq<u8>) -> Seq<char> {
    Seq::new(digits.len(), |i: int| digit_char(digits[digits.len() - 1 - i] as nat))
}

/// Renders a number in decimal.
pub fn u64_to_text(n: u64) -> (r: String)
    ensures
        r@ == dec_chars(n as nat),
{
    let mut digits: Vec<u8> = Vec::new();
    let d0 = (n % 10) as u8;
    digits.push(d0);
    let mut m: u64 = n / 10;
    proof {
        assert(rev_digit_chars(digits@) =~= seq![digit_char((n % 10) as nat)]);
        if m > 0 {
            assert(dec_chars(n as nat) == dec_chars((n / 10) as nat) + seq![
                digit_char((n % 10) as nat),
            ]);
        } else {
            assert(n % 10 == n);
        }
    }
    while m > 0
        invariant
            digits@.len() >= 1,
            forall|i: int| 0 <= i < digits@.len() ==> digits@[i] < 10,
            ({
                if m > 0 {
                    dec_chars(n as nat) == dec_chars(m as nat) + rev_digit_chars(digits@)
                } else {
                    dec_chars(n as nat) == rev_digit_chars(digits@)
                }
            }),
        decreases m,
    {
        let ghost old_digits = digits@;
        let ghost old_m = m;
        let d = (m % 10) as u8;
        digits.push(d);
        m = m / 10;
        proof {
            assert(rev_digit_chars(digits@) =~= seq![digit_char((old_m % 10) as nat)]
                + rev_digit_chars(old_digits));
            if m > 0 {
                assert(old_m >= 10);
                assert(dec_chars(old_m as nat) == dec_chars(m as nat) + seq![
                    digit_char((old_m % 10) as nat),
                ]);
                assert(dec_chars(n as nat) =~= dec_chars(m as nat) + rev_digit_chars(digits@));
            } else {
                assert(old_m < 10);
                assert(old_m % 10 == old_m);
                assert(dec_chars(old_m as nat) =~= seq![digit_char((old_m % 10) as nat)]);
                assert(dec_chars(n as nat) =~= rev_digit_chars(digits@));
            }
        }
    }
    let mut out = String::new();
    let mut j: usize = digits.len();
    while j > 0
        invariant
            j <= digits@.len(),
            out@ == rev_digit_chars(digits@).take(digits@.len() - j),
            forall|i: int| 0 <= i < digits@.len() ==> digits@[i] < 10,
            dec_chars(n as nat) == rev_digit_chars(digits@),
        decreases j,
    {
        j = j - 1;
        push_digit(&mut out, digits[j]);
        proof {
            assert(out@ =~= rev_digit_chars(digits@).take(digits@.len() - j));
        }
    }
    proof {
        assert(out@ =~= dec_chars(n as nat));
    }
    out
}

/// The digits of an integer literal, the sign stripped.
pub open spec fn int_body(s: Seq<char>) -> Seq<char> {
    if s.len() > 0 && (s[0] == '-' || s[0] == '+') {
        s.drop_first()
    } else {
        s
    }
}

/// Whether an integer literal carries a minus sign.
pub open spec fn int_negative(s: Seq<char>) -> bool {
    s.len() > 0 && s[0] == '-'
}

/// An integer literal: an optional sign followed by at least one digit.
pub open spec fn is_int_literal(s: Seq<char>) -> bool {
    let b = int_body(s);
    b.len() > 0 && (forall|i: int| 0 <= i < b.len() ==> is_dec_digit(#[trigger] b[i]))
}

/// Every character of `b` is the digit zero.
pub open spec fn all_zeros(b: Seq<char>) -> bool {
    forall|i: int| 0 <= i < b.len() ==> #[trigger] b[i] == '0'
}

/// An integer literal denoting zero.
pub open spec fn is_zero_int(s: Seq<char>) -> bool {
    is_int_literal(s) && all_zeros(int_body(s))
}

/// How many leading zeros canonicalization strips: all but a last lone digit.
pub open spec fn leading_zeros(b: Seq<char>) -> int
    decreases b.len(),
{
    if b.len() <= 1 {
        0
    } else if b[0] == '0' {
        1 + leading_zeros(b.drop_first())
    } else {
        0
    }
}

/// Canonical form of an integer literal: leading zeros stripped, `+` dropped,
/// zero written `0` without a sign.
pub open spec fn canon_int(s: Seq<char>) -> Seq<char> {
    let b = int_body(s);
    let t = b.skip(leading_zeros(b));
    if int_negative(s) && !all_zeros(b) {
        seq!['-'] + t
    } else {
        t
    }
}

/// Whether the text is an integer literal denoting zero.
pub fn is_zero_text(s: &str) -> (r: bool)
    ensures
        r == is_zero_int(s@),
{
    let n = s.unicode_len();
    if n == 0 {
        return false;
    }
    let c0 = s.get_char(0);
    let sign: usize = if c0 == '-' || c0 == '+' {
        1
    } else {
        0
    };
    if n == sign {
        return false;
    }
    let mut i: usize = sign;
    while i < n
        invariant
            n == s@.len(),
            sign <= i <= n,
            sign == 0 || sign == 1,
            sign == 1 ==> (s@[0] == '-' || s@[0] == '+'),
            sign == 0 ==> !(s@[0] == '-' || s@[0] == '+'),
            n > sign,
            forall|j: int| sign <= j < i ==> #[trigger] s@[j] == '0',
        decreases n - i,
    {
        if !(s.get_char(i) == '0') {
            proof {
                assert(int_body(s@)[i - sign] == s@[i as int]);
            }
            return false;
        }
        i = i + 1;
    }
    proof {
        assert(forall|j: int|
            0 <= j < int_body(s@).len() ==> #[trigger] int_body(s@)[j] == s@[j + sign]);
        reveal_strlit("0");
        assert(forall|j: int| 0 <= j < int_body(s@).len() ==> is_dec_digit(#[trigger] int_body(s@)[j]));
    }
    true
}

/// Validates an integer literal and returns its canonical form, or `None`
/// when the text is not an integer literal.
pub fn normalize_int_text(s: &str) -> (r: Option<String>)
    ensures
        r is Some <==> is_int_literal(s@),
        r matches Some(v) ==> v@ == canon_int(s@),
{
    let n = s.unicode_len();
    if n == 0 {
        return None;
    }
    let c0 = s.get_char(0);
    let neg = c0 == '-';
    let sign: usize = if c0 == '-' || c0 == '+' {
        1
    } else {
        0
    };
    if n == sign {
        return None;
    }
    let ghost b = int_body(s@);
    proof {
        assert(b.len() == n - sign);
        assert(forall|j: int| 0 <= j < b.len() ==> #[trigger] b[j] == s@[j + sign]);
    }
    let mut i: usize = sign;
    while i < n
        invariant
            n == s@.len(),
            sign <= i <= n,
            sign == 0 || sign == 1,
            b == int_body(s@),
            b.len() == n - sign,
            forall|j: int| 0 <= j < b.len() ==> #[trigger] b[j] == s@[j + sign],
            forall|j: int| 0 <= j < i - sign ==> is_dec_digit(#[trigger] b[j]),
        decreases n - i,
    {
        let c = s.get_char(i);
        let v = c as u32;
        if !(48 <= v && v <= 57) {
            proof {
                assert(b[i - sign] == s@[i as int]);
            }
            return None;
        }
        i = i + 1;
    }
    // Strip leading zeros, keeping a last lone digit.
    proof {
        assert(b.skip(0) =~= b);
    }
    let mut k: usize = 0;
    while sign + k + 1 < n && s.get_char(sign + k) == '0'
        invariant
            n == s@.len(),
            sign == 0 || sign == 1,
            n > sign,
            b == int_body(s@),
            b.len() == n - sign,
            forall|j: int| 0 <= j < b.len() ==> #[trigger] b[j] == s@[j + sign],
            k < b.len(),
            forall|j: int| 0 <= j < k ==> #[trigger] b[j] == '0',
            leading_zeros(b) == k + leading_zeros(b.skip(k as int)),
        decreases n - k,
    {
        proof {
            let t = b.skip(k as int);
            assert(t[0] == s@[k + sign]);
            assert(t.len() > 1);
            assert(t.drop_first() =~= b.skip(k + 1));
            assert(leading_zeros(t) == 1 + leading_zeros(b.skip(k + 1)));
        }
        k = k + 1;
    }
    proof {
        let t = b.skip(k as int);
        if sign + k + 1 < n {
            assert(t[0] == s@[k + sign]);
            assert(t[0] != '0');
            assert(leading_zeros(t) == 0);
        } else {
            assert(t.len() == 1);
            assert(leading_zeros(t) == 0);
        }
        assert(leading_zeros(b) == k);
    }
    let zero = s.get_char(sign + k) == '0';
    proof {
        if zero {
            assert(sign + k + 1 >= n) by {
                if sign + k + 1 < n {
                }
            };
            assert(forall|j: int| 0 <= j < b.len() ==> #[trigger] b[j] == '0');
            assert(all_zeros(b));
        } else {
            assert(b[k as int] != '0');
            assert(!all_zeros(b));
        }
    }
    let mut out = String::new();
    if neg && !zero {
        proof {
            reveal_strlit("-");
        }
        out.append("-");
    }
    let tail = s.substring_char(sign + k, n);
    out.append(tail);
    proof {
        assert(tail@ =~= int_body(s@).skip(leading_zeros(int_body(s@))));
        assert(out@ =~= canon_int(s@));
    }
    Some(out)
}

/// A value only grows as more digits are appended on the right.
proof fn lemma_dec_value_prefix(s: Seq<char>, i: int)
    requires
        0 <= i <= s.len(),
    ensures
        dec_value(s.take(i)) <= dec_value(s),
    decreases s.len() - i,
{
    if i < s.len() {
        lemma_dec_value_prefix(s.drop_last(), i);
        assert(s.take(i) =~= s.drop_last().take(i));
        assert(dec_value(s.drop_last()) <= dec_value(s.drop_last()) * 10 + dec_digit_val(s.last()))
            by (nonlinear_arith);
    } else {
        assert(s.take(i) =~= s);
    }
}

/// Parses the digit run `s[from..to]` as a number; `None` when a character is
/// not a digit or the value does not fit in a `u64`.
pub fn parse_dec_u64(s: &str, from: usize, to: usize) -> (r: Option<u64>)
    requires
        from <= to <= s@.len(),
    ensures
        ({
            let t = s@.subrange(from as int, to as int);
            &&& r is Some <==> (t.len() > 0 && (forall|i: int|
                0 <= i < t.len() ==> is_dec_digit(#[trigger] t[i])) && dec_value(t) <= u64::MAX)
            &&& r matches Some(v) ==> v == dec_value(t)
        }),
{
    let ghost t = s@.subrange(from as int, to as int);
    if from == to {
        return None;
    }
    let mut acc: u64 = 0;
    let mut i: usize = from;
    while i < to
        invariant
            from <= i <= to <= s@.len(),
            t == s@.subrange(from as int, to as int),
            forall|j: int| 0 <= j < i - from ==> is_dec_digit(#[trigger] t[j]),
            acc == dec_value(t.take(i - from)),
        decreases to - i,
    {
        let c = s.get_char(i);
        let v = c as u32;
        if !(48 <= v && v <= 57) {
            proof {
                assert(t[i - from] == s@[i as int]);
            }
            return None;
        }
        let d = (v - 48) as u64;
        proof {
            assert(t.take(i - from + 1).drop_last() =~= t.take(i - from));
            assert(t.take(i - from + 1).last() == s@[i as int]);
        }
        if acc > (u64::MAX - d) / 10 {
            proof {
                assert(acc * 10 + d > u64::MAX) by (nonlinear_arith)
                    requires
                        acc > (u64::MAX - d) / 10,
                        d <= 9,
                        acc <= u64::MAX,
                ;
                lemma_dec_value_prefix(t, i - from + 1);
            }
            return None;
        }
        proof {
            assert(acc * 10 + d <= u64::MAX) by (nonlinear_arith)
                requires
                    acc <= (u64::MAX - d) / 10,
                    d <= 9,
            ;
        }
        acc = acc * 10 + d;
        i = i + 1;
    }
    proof {
        assert(t.take(to - from) =~= t);
    }
    Some(acc)
}

/// The characters of `s` with every `.` removed.
pub open spec fn strip_dots(s: Seq<char>) -> Seq<char>
    decreases s.len(),
{
    if s.len() == 0 {
        Seq::empty()
    } else if s.last() == '.' {
        strip_dots(s.drop_last())
    } else {
        strip_dots(s.drop_last()) + seq![s.last()]
    }
}

/// Converts a coin amount written with a decimal point into sats: the digits
/// are kept, the point dropped, and the result read as one integer, so text
/// carrying exactly eight fraction digits lands on the smallest unit. `None`
/// when a character is neither digit nor point, no digit is present, or the
/// value does not fit.
pub fn btc_text_to_sats(s: &str) -> (r: Option<u64>)
    ensures
        ({
            let t = strip_dots(s@);
            &&& r is Some <==> (t.len() > 0 && (forall|i: int|
                0 <= i < t.len() ==> is_dec_digit(#[trigger] t[i])) && dec_value(t) <= u64::MAX)
            &&& r matches Some(v) ==> v == dec_value(t)
        }),
{
    let n = s.unicode_len();
    let mut acc: u64 = 0;
    let mut seen: bool = false;
    let mut i: usize = 0;
    while i < n
        invariant
            n == s@.len(),
            0 <= i <= n,
            forall|j: int|
                0 <= j < strip_dots(s@.take(i as int)).len() ==> is_dec_digit(
                    #[trigger] strip_dots(s@.take(i as int))[j],
                ),
            acc == dec_value(strip_dots(s@.take(i as int))),
            seen <==> strip_dots(s@.take(i as int)).len() > 0,
        decreases n - i,
    {
        let c = s.get_char(i);
        proof {
            assert(s@.take(i + 1).drop_last() =~= s@.take(i as int));
            assert(s@.take(i + 1).last() == s@[i as int]);
        }
        if c == '.' {
            i = i + 1;
            continue ;
        }
        let v = c as u32;
        if !(48 <= v && v <= 57) {
            proof {
                let t = strip_dots(s@);
                lemma_strip_dots_prefix_not_digit(s@, i as int);
            }
            return None;
        }
        let d = (v - 48) as u64;
        proof {
            let prev = strip_dots(s@.take(i as int));
            let appended = prev + seq![s@[i as int]];
            assert(strip_dots(s@.take(i + 1)) =~= appended);
            assert(appended.drop_last() =~= prev);
            assert(appended.last() == s@[i as int]);
            assert(dec_value(strip_dots(s@.take(i + 1))) == dec_value(prev) * 10 + dec_digit_val(
                s@[i as int],
            ));
        }
        if acc > (u64::MAX - d) / 10 {
            proof {
                assert(acc * 10 + d > u64::MAX) by (nonlinear_arith)
                    requires
                        acc > (u64::MAX - d) / 10,
                        d <= 9,
                        acc <= u64::MAX,
                ;
                lemma_strip_dots_prefix_value(s@, i + 1);
            }
            return None;
        }
        proof {
            assert(acc * 10 + d <= u64::MAX) by (nonlinear_arith)
                requires
                    acc <= (u64::MAX - d) / 10,
                    d <= 9,
            ;
        }
        acc = acc * 10 + d;
        seen = true;
        i = i + 1;
    }
    proof {
        assert(s@.take(n as int) =~= s@);
    }
    if seen {
        Some(acc)
    } else {
        None
    }
}

/// A non-digit, non-dot character anywhere keeps the stripped text from being
/// all digits.
proof fn lemma_strip_dots_prefix_not_digit(s: Seq<char>, i: int)
    requires
        0 <= i < s.len(),
        s[i] != '.',
        !is_dec_digit(s[i]),
    ensures
        !(forall|j: int|
            0 <= j < strip_dots(s).len() ==> is_dec_digit(#[trigger] strip_dots(s)[j])),
    decreases s.len() - i,
{
    if i == s.len() - 1 {
        let t = strip_dots(s);
        assert(t =~= strip_dots(s.drop_last()) + seq![s[i]]);
        assert(t.len() > 0);
        assert(t[t.len() - 1] == s[i]);
        assert(!is_dec_digit(t[t.len() - 1]));
    } else {
        lemma_strip_dots_prefix_not_digit(s.drop_last(), i);
        assert(s.drop_last()[i] == s[i]);
        let inner = strip_dots(s.drop_last());
        assert(exists|j: int| 0 <= j < inner.len() && !is_dec_digit(#[trigger] inner[j]));
        let w = choose|j: int| 0 <= j < inner.len() && !is_dec_digit(#[trigger] inner[j]);
        if s.last() == '.' {
            assert(strip_dots(s) == inner);
            assert(!is_dec_digit(strip_dots(s)[w]));
        } else {
            assert(strip_dots(s) =~= inner + seq![s.last()]);
            assert(strip_dots(s)[w] == inner[w]);
            assert(!is_dec_digit(strip_dots(s)[w]));
        }
    }
}

/// The stripped value of a prefix never exceeds the stripped value of the
/// whole text.
proof fn lemma_strip_dots_prefix_value(s: Seq<char>, i: int)
    requires
        0 <= i <= s.len(),
    ensures
        dec_value(strip_dots(s.take(i))) <= dec_value(strip_dots(s)),
    decreases s.len() - i,
{
    if i < s.len() {
        lemma_strip_dots_prefix_value(s.drop_last(), i);
        assert(s.take(i) =~= s.drop_last().take(i));
        if s.last() != '.' {
            let inner = strip_dots(s.drop_last());
            let whole = inner + seq![s.last()];
            assert(strip_dots(s) =~= whole);
            assert(whole.drop_last() =~= inner);
            assert(whole.last() == s.last());
            assert(dec_value(whole) == dec_value(inner) * 10 + dec_digit_val(s.last()));
            assert(dec_value(inner) <= dec_value(inner) * 10 + dec_digit_val(s.last()))
                by (nonlinear_arith);
        }
    } else {
        assert(s.take(i) =~= s);
    }
}

/// Whether `n` occurs in `h` as a contiguous run of characters.
pub open spec fn contains_seq(h: Seq<char>, n: Seq<char>) -> bool {
    exists|i: int|
        0 <= i && i + n.len() <= h.len() && #[trigger] h.subrange(i, i + n.len() as int) == n
}

/// Whether `n` matches `h` at position `i`.
fn text_matches_at(h: &str, n: &str, i: usize) -> (r: bool)
    requires
        i + n@.len() <= h@.len(),
        h@.len() <= usize::MAX,
    ensures
        r == (h@.subrange(i as int, i as int + n@.len() as int) == n@),
{
    let nl = n.unicode_len();
    let mut k: usize = 0;
    while k < nl
        invariant
            k <= nl,
            nl == n@.len(),
            i + nl <= h@.len(),
            h@.len() <= usize::MAX,
            forall|t: int| 0 <= t < k ==> h@[i + t] == n@[t],
        decreases nl - k,
    {
        if h.get_char(i + k) != n.get_char(k) {
            proof {
                assert(h@.subrange(i as int, i as int + n@.len() as int)[k as int] == h@[i + k]);
            }
            return false;
        }
        k = k + 1;
    }
    proof {
        assert(h@.subrange(i as int, i as int + n@.len() as int) =~= n@);
    }
    true
}

/// Whether the text `n` occurs anywhere in `h`.
pub fn text_contains(h: &str, n: &str) -> (r: bool)
    ensures
        r == contains_seq(h@, n@),
{
    let hl = h.unicode_len();
    let nl = n.unicode_len();
    if nl > hl {
        return false;
    }
    if nl == 0 {
        proof {
            assert(h@.subrange(0, 0 + n@.len() as int) =~= n@);
            assert(0 <= 0 && 0 + n@.len() <= h@.len() && h@.subrange(0, 0 + n@.len() as int)
                == n@);
        }
        return true;
    }
    let mut i: usize = 0;
    while i <= hl - nl
        invariant
            hl == h@.len(),
            nl == n@.len(),
            1 <= nl <= hl,
            i <= hl - nl + 1,
            forall|j: int| 0 <= j < i ==> #[trigger] h@.subrange(j, j + n@.len() as int) != n@,
        decreases hl + 1 - i,
    {
        if text_matches_at(h, n, i) {
            proof {
                assert(0 <= i as int && i as int + n@.len() <= h@.len() && h@.subrange(
                    i as int,
                    i as int + n@.len() as int,
                ) == n@);
            }
            return true;
        }
        i = i + 1;
    }
    proof {
        if contains_seq(h@, n@) {
            let w = choose|j: int|
                0 <= j && j + n@.len() <= h@.len() && #[trigger] h@.subrange(
                    j,
                    j + n@.len() as int,
                ) == n@;
            assert(w < i);
        }
    }
    false
}

/// Whether two texts hold the same characters.
pub fn str_eq(a: &str, b: &str) -> (r: bool)
    ensures
        r == (a@ == b@),
{
    let na = a.unicode_len();
    let nb = b.unicode_len();
    if na != nb {
        return false;
    }
    let mut i: usize = 0;
    while i < na
        invariant
            i <= na,
            na == a@.len(),
            na == b@.len(),
            forall|j: int| 0 <= j < i ==> a@[j] == b@[j],
        decreases na - i,
    {
        if a.get_char(i) != b.get_char(i) {
            return false;
        }
        i = i + 1;
    }
    proof {
        assert(a@ =~= b@);
    }
    true
}

/// Joins two pieces with `:`, the shape of every store key.
pub open spec fn key_chars(a: Seq<char>, b: Seq<char>) -> Seq<char> {
    a + seq![':'] + b
}

/// Builds the store key `a:b`.
pub fn join_key(a: &str, b: &str) -> (r: String)
    ensures
        r@ == key_chars(a@, b@),
{
    proof {
        reveal_strlit(":");
    }
    let mut s = String::from_str(a);
    s.append(":");
    s.append(b);
    proof {
        assert(s@ =~= key_chars(a@, b@));
    }
    s
}

} // verus!
