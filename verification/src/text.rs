//! Text as sequences of characters: writing numbers, splitting, trimming, reading numbers.

use vstd::prelude::*;

verus! {

/// `String::push` puts one character behind the text that is already there.
pub assume_specification[ String::push ](s: &mut String, c: char)
    ensures
        final(s)@ == old(s)@.push(c),
;

/// The character of a digit: `0` to `9`, then `a` to `f`.
pub open spec fn digit(d: nat) -> char
    recommends
        d < 16,
{
    if d < 10 {
        (48 + d) as char
    } else {
        (87 + d) as char
    }
}

/// `n` in base `base`, without leading zeros.
pub open spec fn numeral(n: nat, base: nat) -> Seq<char>
    recommends
        2 <= base <= 16,
    decreases n,
{
    if base < 2 || n < base {
        seq![digit(n)]
    } else {
        proof {
            lemma_quotient_smaller(n, base);
        }
        numeral(n / base, base).push(digit(n % base))
    }
}

pub proof fn lemma_quotient_smaller(n: nat, base: nat)
    requires
        2 <= base <= n,
    ensures
        n / base < n,
{
    assert(n / base < n) by (nonlinear_arith)
        requires
            2 <= base <= n,
    ;
}

pub open spec fn decimal(n: nat) -> Seq<char> {
    numeral(n, 10)
}

pub open spec fn hexadecimal(n: nat) -> Seq<char> {
    numeral(n, 16)
}

fn digit_char(d: u8) -> (c: char)
    requires
        d < 16,
    ensures
        c == digit(d as nat),
{
    if d < 10 {
        (48 + d) as char
    } else {
        (87 + d) as char
    }
}

fn push_numeral(s: &mut String, n: u128, base: u128)
    requires
        2 <= base <= 16,
    ensures
        final(s)@ == old(s)@ + numeral(n as nat, base as nat),
    decreases n,
{
    if n < base {
        s.push(digit_char(n as u8));
    } else {
        proof {
            lemma_quotient_smaller(n as nat, base as nat);
        }
        push_numeral(s, n / base, base);
        s.push(digit_char((n % base) as u8));
    }
}

/// Appends `n` in decimal.
pub fn push_decimal(s: &mut String, n: u128)
    ensures
        final(s)@ == old(s)@ + decimal(n as nat),
{
    push_numeral(s, n, 10)
}

/// Appends `n` in lower-case hexadecimal.
pub fn push_hexadecimal(s: &mut String, n: u128)
    ensures
        final(s)@ == old(s)@ + hexadecimal(n as nat),
{
    push_numeral(s, n, 16)
}

/// The characters of `s`.
pub fn chars_of(s: &str) -> (out: Vec<char>)
    ensures
        out@ == s@,
{
    let mut out: Vec<char> = Vec::new();
    for c in it: s.chars()
        invariant
            it.seq() == s@,
            out@ == s@.take(it.index()),
    {
        out.push(c);
    }
    out
}

/// The text made of the characters `v`.
pub fn string_of(v: &[char]) -> (out: String)
    ensures
        out@ == v@,
{
    let mut out = String::new();
    let mut i: usize = 0;
    while i < v.len()
        invariant
            i <= v@.len(),
            out@ =~= v@.take(i as int),
        decreases v@.len() - i,
    {
        out.push(v[i]);
        i += 1;
    }
    assert(v@.take(i as int) =~= v@);
    out
}

/// Whether the characters `v` spell `s`.
pub fn spells(v: &[char], s: &str) -> (same: bool)
    ensures
        same == (v@ == s@),
{
    let w = chars_of(s);
    if v.len() != w.len() {
        return false;
    }
    let mut i: usize = 0;
    while i < v.len()
        invariant
            i <= v@.len() == w@.len(),
            w@ == s@,
            forall|j: int| 0 <= j < i ==> v@[j] == w@[j],
        decreases v@.len() - i,
    {
        if v[i] != w[i] {
            return false;
        }
        i += 1;
    }
    assert(v@ =~= s@);
    true
}

/// The characters with the Unicode property `White_Space`.
pub open spec fn is_whitespace(c: char) -> bool {
    let n = c as u32;
    ||| 0x9 <= n <= 0xd
    ||| n == 0x20
    ||| n == 0x85
    ||| n == 0xa0
    ||| n == 0x1680
    ||| 0x2000 <= n <= 0x200a
    ||| n == 0x2028
    ||| n == 0x2029
    ||| n == 0x202f
    ||| n == 0x205f
    ||| n == 0x3000
}

fn whitespace(c: char) -> (w: bool)
    ensures
        w == is_whitespace(c),
{
    let n: u32 = c as u32;
    (0x9 <= n && n <= 0xd) || n == 0x20 || n == 0x85 || n == 0xa0 || n == 0x1680 || (0x2000 <= n
        && n <= 0x200a) || n == 0x2028 || n == 0x2029 || n == 0x202f || n == 0x205f || n == 0x3000
}

/// `s` without the whitespace that it starts with.
pub open spec fn trim_start(s: Seq<char>) -> Seq<char>
    decreases s.len(),
{
    if s.len() > 0 && is_whitespace(s[0]) {
        trim_start(s.drop_first())
    } else {
        s
    }
}

/// `s` without the whitespace that it ends with.
pub open spec fn trim_end(s: Seq<char>) -> Seq<char>
    decreases s.len(),
{
    if s.len() > 0 && is_whitespace(s.last()) {
        trim_end(s.drop_last())
    } else {
        s
    }
}

/// `s` without the whitespace around it.
pub open spec fn trimmed(s: Seq<char>) -> Seq<char> {
    trim_end(trim_start(s))
}

pub fn trim(v: &[char]) -> (out: &[char])
    ensures
        out@ == trimmed(v@),
{
    let mut lo: usize = 0;
    assert(v@.skip(0) =~= v@);
    while lo < v.len() && whitespace(v[lo])
        invariant
            lo <= v@.len(),
            trim_start(v@) == trim_start(v@.skip(lo as int)),
        decreases v@.len() - lo,
    {
        assert(v@.skip(lo as int).drop_first() =~= v@.skip(lo + 1));
        lo += 1;
    }
    let ghost rest = v@.skip(lo as int);
    assert(trim_start(v@) == rest);
    let mut hi: usize = v.len();
    assert(v@.subrange(lo as int, hi as int) =~= rest);
    while lo < hi && whitespace(v[hi - 1])
        invariant
            lo <= hi <= v@.len(),
            trim_end(rest) == trim_end(v@.subrange(lo as int, hi as int)),
        decreases hi,
    {
        assert(v@.subrange(lo as int, hi as int).drop_last() =~= v@.subrange(
            lo as int,
            hi as int - 1,
        ));
        hi -= 1;
    }
    &v[lo..hi]
}

/// An ASCII letter in lower case; every other character as it is.
pub open spec fn lower(c: char) -> char {
    if 65 <= c as u32 <= 90 {
        ((c as u32 + 32) as u32) as char
    } else {
        c
    }
}

pub open spec fn lowered(s: Seq<char>) -> Seq<char> {
    s.map_values(|c: char| lower(c))
}

pub fn to_lower(v: &[char]) -> (out: Vec<char>)
    ensures
        out@ == lowered(v@),
{
    let mut out: Vec<char> = Vec::new();
    let mut i: usize = 0;
    while i < v.len()
        invariant
            i <= v@.len(),
            out@ =~= lowered(v@.take(i as int)),
        decreases v@.len() - i,
    {
        let c = v[i];
        let n: u32 = c as u32;
        if 65 <= n && n <= 90 {
            out.push((n as u8 + 32) as char);
        } else {
            out.push(c);
        }
        i += 1;
    }
    assert(v@.take(i as int) =~= v@);
    out
}

/// The pieces of `s` between the separators `sep`: always one more than there are separators.
pub open spec fn pieces(s: Seq<char>, sep: char) -> Seq<Seq<char>>
    decreases s.len(),
{
    if s.len() == 0 {
        seq![Seq::empty()]
    } else {
        let before = pieces(s.drop_last(), sep);
        if s.last() == sep {
            before.push(Seq::empty())
        } else {
            before.drop_last().push(before.last().push(s.last()))
        }
    }
}

/// Splits at every `sep`.
pub fn split(v: &[char], sep: char) -> (out: Vec<Vec<char>>)
    ensures
        out@.len() == pieces(v@, sep).len(),
        out@.len() >= 1,
        forall|k: int| 0 <= k < out@.len() ==> (#[trigger] out@[k])@ == pieces(v@, sep)[k],
{
    let mut done: Vec<Vec<char>> = Vec::new();
    let mut open: Vec<char> = Vec::new();
    let mut i: usize = 0;
    assert(v@.take(0) =~= Seq::<char>::empty());
    while i < v.len()
        invariant
            i <= v@.len(),
            pieces(v@.take(i as int), sep).len() == done@.len() + 1,
            forall|k: int|
                0 <= k < done@.len() ==> (#[trigger] done@[k])@ == pieces(v@.take(i as int), sep)[k],
            open@ == pieces(v@.take(i as int), sep).last(),
        decreases v@.len() - i,
    {
        assert(v@.take(i + 1).drop_last() =~= v@.take(i as int));
        let c = v[i];
        if c == sep {
            done.push(open);
            open = Vec::new();
        } else {
            open.push(c);
        }
        i += 1;
    }
    assert(v@.take(i as int) =~= v@);
    done.push(open);
    done
}

pub open spec fn is_digit(c: char) -> bool {
    48 <= c as u32 <= 57
}

/// The number that a string of decimal digits spells.
pub open spec fn digits_value(s: Seq<char>) -> nat
    decreases s.len(),
{
    if s.len() == 0 {
        0
    } else {
        (digits_value(s.drop_last()) * 10 + (s.last() as u32 - 48)) as nat
    }
}

pub open spec fn all_digits(s: Seq<char>) -> bool {
    forall|i: int| 0 <= i < s.len() ==> is_digit(#[trigger] s[i])
}

/// `s` without the one plus sign that may stand before a number.
pub open spec fn unsigned_part(s: Seq<char>) -> Seq<char> {
    if s.len() > 0 && s[0] == '+' {
        s.drop_first()
    } else {
        s
    }
}

/// The number that `s` spells: an optional plus sign and at least one decimal digit.
pub open spec fn number(s: Seq<char>) -> Option<nat> {
    let d = unsigned_part(s);
    if d.len() > 0 && all_digits(d) {
        Some(digits_value(d))
    } else {
        None
    }
}

/// Reads an unsigned number no larger than `max`.
pub fn read_number(v: &[char], max: u128) -> (out: Option<u128>)
    ensures
        out == match number(v@) {
            Some(n) => if n <= max {
                Some(n as u128)
            } else {
                None
            },
            None => None,
        },
{
    let mut i: usize = 0;
    if v.len() > 0 && v[0] == '+' {
        i = 1;
    }
    let ghost from = i as int;
    let ghost d = unsigned_part(v@);
    assert(d =~= v@.skip(from));
    if i == v.len() {
        return None;
    }
    let mut acc: u128 = 0;
    assert(d.take(0) =~= Seq::<char>::empty());
    while i < v.len()
        invariant
            0 <= from <= i <= v@.len(),
            d == unsigned_part(v@),
            d.len() > 0,
            d == v@.skip(from),
            acc <= max,
            acc == digits_value(d.take(i - from)),
            forall|j: int| 0 <= j < i - from ==> is_digit(#[trigger] d[j]),
        decreases v@.len() - i,
    {
        let c = v[i];
        let n: u32 = c as u32;
        assert(d[i - from] == c);
        if n < 48 || n > 57 {
            return None;
        }
        let x: u128 = (n - 48) as u128;
        let ghost k = i - from;
        proof {
            assert(d.take(k + 1).drop_last() =~= d.take(k));
        }
        if acc > (max - if x <= max { x } else { max }) / 10 || x > max {
            proof {
                assert(digits_value(d.take(k + 1)) > max);
                lemma_digits_value_monotone(d, k + 1);
            }
            return None;
        }
        acc = acc * 10 + x;
        i += 1;
    }
    assert(d.take(i - from) =~= d);
    Some(acc)
}

proof fn lemma_digits_value_monotone(s: Seq<char>, k: int)
    requires
        0 <= k <= s.len(),
    ensures
        all_digits(s) ==> digits_value(s.take(k)) <= digits_value(s),
    decreases s.len() - k,
{
    if k < s.len() {
        lemma_digits_value_monotone(s, k + 1);
        assert(s.take(k + 1).drop_last() =~= s.take(k));
        if all_digits(s) {
            assert(is_digit(s[k]));
            assert(s.take(k + 1).last() == s[k]);
        }
    } else {
        assert(s.take(k) =~= s);
    }
}

/// A decimal numeral is made of digits, at least one, and spells its number.
pub proof fn lemma_decimal(n: nat)
    ensures
        decimal(n).len() > 0,
        all_digits(decimal(n)),
        digits_value(decimal(n)) == n,
    decreases n,
{
    if n < 10 {
        let s = decimal(n);
        assert(s =~= seq![digit(n)]);
        assert(is_digit(s[0]));
        assert(s.drop_last() =~= Seq::<char>::empty());
        assert(digits_value(s.drop_last()) == 0);
    } else {
        lemma_quotient_smaller(n, 10);
        lemma_decimal(n / 10);
        let s = decimal(n);
        let head = decimal(n / 10);
        assert(s == head.push(digit(n % 10)));
        assert(s.drop_last() =~= head);
        assert forall|i: int| 0 <= i < s.len() implies is_digit(#[trigger] s[i]) by {
            if i < head.len() {
                assert(s[i] == head[i]);
            }
        }
    }
}

/// Reading a decimal numeral gives back the number that was written. There is nothing to trim
/// around it.
pub proof fn law_numbers_read_back(n: nat)
    ensures
        number(decimal(n)) == Some(n),
        trimmed(decimal(n)) == decimal(n),
{
    lemma_decimal(n);
    let s = decimal(n);
    assert(is_digit(s[0]));
    assert(is_digit(s.last()));
}

/// Two numbers with the same numeral are the same number.
pub proof fn lemma_numeral_injective(a: nat, b: nat, base: nat)
    requires
        2 <= base <= 16,
        numeral(a, base) == numeral(b, base),
    ensures
        a == b,
    decreases a,
{
    lemma_numeral_len(a, base);
    lemma_numeral_len(b, base);
    if a < base && b < base {
        assert(numeral(a, base)[0] == digit(a));
        assert(numeral(b, base)[0] == digit(b));
        lemma_digit_injective(a, b);
    } else if a >= base && b >= base {
        lemma_quotient_smaller(a, base);
        lemma_quotient_smaller(b, base);
        let (x, y) = (numeral(a / base, base), numeral(b / base, base));
        assert(x.push(digit(a % base)).drop_last() =~= x);
        assert(y.push(digit(b % base)).drop_last() =~= y);
        assert(x.push(digit(a % base)).last() == digit(a % base));
        assert(y.push(digit(b % base)).last() == digit(b % base));
        lemma_numeral_injective(a / base, b / base, base);
        vstd::arithmetic::div_mod::lemma_fundamental_div_mod(a as int, base as int);
        vstd::arithmetic::div_mod::lemma_fundamental_div_mod(b as int, base as int);
        vstd::arithmetic::div_mod::lemma_mod_bound(a as int, base as int);
        vstd::arithmetic::div_mod::lemma_mod_bound(b as int, base as int);
        lemma_digit_injective(a % base, b % base);
    } else {
        let big = if a < base { b } else { a };
        lemma_quotient_smaller(big, base);
        lemma_numeral_len(big / base, base);
    }
}

proof fn lemma_digit_injective(a: nat, b: nat)
    requires
        a < 16,
        b < 16,
        digit(a) == digit(b),
    ensures
        a == b,
{
}

proof fn lemma_numeral_len(n: nat, base: nat)
    requires
        2 <= base <= 16,
    ensures
        numeral(n, base).len() >= 1,
        n < base ==> numeral(n, base).len() == 1,
    decreases n,
{
    if n >= base {
        lemma_quotient_smaller(n, base);
        lemma_numeral_len(n / base, base);
    }
}

/// Appending text without a separator makes the last piece longer.
pub proof fn lemma_pieces_extend(a: Seq<char>, b: Seq<char>, sep: char)
    requires
        forall|i: int| 0 <= i < b.len() ==> #[trigger] b[i] != sep,
    ensures
        pieces(a, sep).len() > 0,
        pieces(a + b, sep) == pieces(a, sep).drop_last().push(pieces(a, sep).last() + b),
    decreases b.len(),
{
    lemma_pieces_some(a, sep);
    let p = pieces(a, sep);
    if b.len() == 0 {
        assert(a + b =~= a);
        assert(p.last() + b =~= p.last());
        assert(p.drop_last().push(p.last()) =~= p);
    } else {
        let c = b.drop_last();
        lemma_pieces_extend(a, c, sep);
        assert((a + b).drop_last() =~= a + c);
        assert((a + b).last() == b.last());
        let q = pieces(a + c, sep);
        assert(q.last().push(b.last()) =~= p.last() + b);
        assert(q.drop_last() =~= p.drop_last());
    }
}

/// Appending a separator starts a new piece.
pub proof fn lemma_pieces_separate(a: Seq<char>, sep: char)
    ensures
        pieces(a.push(sep), sep) == pieces(a, sep).push(Seq::empty()),
{
    assert(a.push(sep).drop_last() =~= a);
}

proof fn lemma_pieces_some(a: Seq<char>, sep: char)
    ensures
        pieces(a, sep).len() > 0,
    decreases a.len(),
{
    if a.len() > 0 {
        lemma_pieces_some(a.drop_last(), sep);
    }
}

/// Whether `line` stands in `s` as a line of its own.
pub open spec fn has_line(s: Seq<char>, line: Seq<char>) -> bool {
    exists|i: int| #[trigger] line_at(s, line, i)
}

/// Whether `line` stands in `s` as a line of its own, behind the line end at `i`.
pub open spec fn line_at(s: Seq<char>, line: Seq<char>, i: int) -> bool {
    &&& 0 <= i
    &&& i + line.len() + 2 <= s.len()
    &&& s[i] == '\n'
    &&& s.subrange(i + 1, i + 1 + line.len()) == line
    &&& s[i + 1 + line.len()] == '\n'
}

/// A value behind its key, which starts with a line end, is a line where what follows starts with
/// a line end too, whatever stands before and behind them.
pub proof fn lemma_line(
    s: Seq<char>,
    before: Seq<char>,
    key: Seq<char>,
    value: Seq<char>,
    next: Seq<char>,
    rest: Seq<char>,
)
    requires
        s == before + key + value + next + rest,
        key.len() > 0,
        key[0] == '\n',
        next.len() > 0,
        next[0] == '\n',
    ensures
        line_at(s, key.skip(1) + value, before.len() as int),
        has_line(s, key.skip(1) + value),
{
    let line = key.skip(1) + value;
    let i = before.len() as int;
    assert(s.subrange(i + 1, i + 1 + line.len()) =~= line);
    assert(line_at(s, line, i));
}

/// The code points with the property `White_Space`, one by one.
pub open spec fn white_space() -> Seq<u32> {
    seq![
        0x9, 0xa, 0xb, 0xc, 0xd, 0x20, 0x85, 0xa0, 0x1680, 0x2000, 0x2001, 0x2002, 0x2003, 0x2004,
        0x2005, 0x2006, 0x2007, 0x2008, 0x2009, 0x200a, 0x2028, 0x2029, 0x202f, 0x205f, 0x3000,
    ]
}

/// The characters that count as whitespace are those of the table and no others.
pub proof fn law_whitespace(c: char)
    ensures
        is_whitespace(c) <==> white_space().contains(c as u32),
{
    let t = white_space();
    let n = c as u32;
    assert(t[0] == 0x9 && t[1] == 0xa && t[2] == 0xb && t[3] == 0xc && t[4] == 0xd && t[5] == 0x20
        && t[6] == 0x85 && t[7] == 0xa0 && t[8] == 0x1680 && t[9] == 0x2000 && t[10] == 0x2001
        && t[11] == 0x2002 && t[12] == 0x2003 && t[13] == 0x2004 && t[14] == 0x2005 && t[15]
        == 0x2006 && t[16] == 0x2007 && t[17] == 0x2008 && t[18] == 0x2009 && t[19] == 0x200a
        && t[20] == 0x2028 && t[21] == 0x2029 && t[22] == 0x202f && t[23] == 0x205f && t[24]
        == 0x3000);
    assert(t.len() == 25);
}

/// Trimming takes away whitespace at both ends, all of it and nothing else.
pub proof fn law_trimming(s: Seq<char>)
    ensures
        trimmed(s).len() > 0 ==> !is_whitespace(trimmed(s)[0]) && !is_whitespace(trimmed(s).last()),
        exists|lo: int, hi: int|
            {
                &&& 0 <= lo <= hi <= s.len()
                &&& trimmed(s) == #[trigger] s.subrange(lo, hi)
                &&& forall|i: int|
                    0 <= i < s.len() && (i < lo || hi <= i) ==> is_whitespace(#[trigger] s[i])
            },
{
    let lo = lemma_trim_start(s);
    let rest = s.skip(lo);
    let n = lemma_trim_end(rest);
    let hi = lo + n;
    assert(trimmed(s) =~= s.subrange(lo, hi));
    assert forall|i: int| 0 <= i < s.len() && (i < lo || hi <= i) implies is_whitespace(
        #[trigger] s[i],
    ) by {
        if hi <= i {
            assert(rest[i - lo] == s[i]);
        }
    }
}

proof fn lemma_trim_start(s: Seq<char>) -> (lo: int)
    ensures
        0 <= lo <= s.len(),
        trim_start(s) == s.skip(lo),
        forall|i: int| 0 <= i < lo ==> is_whitespace(#[trigger] s[i]),
        lo < s.len() ==> !is_whitespace(s[lo]),
    decreases s.len(),
{
    if s.len() > 0 && is_whitespace(s[0]) {
        let k = lemma_trim_start(s.drop_first());
        assert(s.drop_first().skip(k) =~= s.skip(k + 1));
        assert forall|i: int| 0 <= i < k + 1 implies is_whitespace(#[trigger] s[i]) by {
            if i > 0 {
                assert(s.drop_first()[i - 1] == s[i]);
            }
        }
        k + 1
    } else {
        assert(s.skip(0) =~= s);
        0
    }
}

proof fn lemma_trim_end(s: Seq<char>) -> (hi: int)
    ensures
        0 <= hi <= s.len(),
        trim_end(s) == s.take(hi),
        forall|i: int| hi <= i < s.len() ==> is_whitespace(#[trigger] s[i]),
        hi > 0 ==> !is_whitespace(s[hi - 1]),
        s.len() > 0 && !is_whitespace(s[0]) ==> hi > 0,
    decreases s.len(),
{
    if s.len() > 0 && is_whitespace(s.last()) {
        let k = lemma_trim_end(s.drop_last());
        assert(s.drop_last().take(k) =~= s.take(k));
        assert forall|i: int| k <= i < s.len() implies is_whitespace(#[trigger] s[i]) by {
            if i < s.len() - 1 {
                assert(s.drop_last()[i] == s[i]);
            }
        }
        k
    } else {
        assert(s.take(s.len() as int) =~= s);
        s.len() as int
    }
}

/// Capitals become small letters, place by place, and every other character stays.
pub proof fn law_lowering(s: Seq<char>, i: int)
    requires
        0 <= i < s.len(),
    ensures
        lowered(s).len() == s.len(),
        'A' as u32 <= s[i] as u32 <= 'Z' as u32 ==> lowered(s)[i] as u32 - 'a' as u32 == s[i] as u32
            - 'A' as u32,
        !('A' as u32 <= s[i] as u32 <= 'Z' as u32) ==> lowered(s)[i] == s[i],
{
}

/// The pieces in `list`, with `sep` between each two.
pub open spec fn joined(list: Seq<Seq<char>>, sep: char) -> Seq<char>
    decreases list.len(),
{
    if list.len() == 0 {
        Seq::empty()
    } else if list.len() == 1 {
        list[0]
    } else {
        joined(list.drop_last(), sep).push(sep) + list.last()
    }
}

/// Splitting and joining undo each other, and no piece holds the separator.
pub proof fn law_pieces_join(s: Seq<char>, sep: char)
    ensures
        pieces(s, sep).len() > 0,
        joined(pieces(s, sep), sep) == s,
        forall|k: int, i: int|
            0 <= k < pieces(s, sep).len() && 0 <= i < pieces(s, sep)[k].len() ==> #[trigger] pieces(
                s,
                sep,
            )[k][i] != sep,
    decreases s.len(),
{
    let p = pieces(s, sep);
    if s.len() == 0 {
        assert(p =~= seq![Seq::<char>::empty()]);
        assert(joined(p, sep) =~= s);
    } else {
        let t = s.drop_last();
        let q = pieces(t, sep);
        law_pieces_join(t, sep);
        if s.last() == sep {
            assert(p.drop_last() =~= q);
            assert(joined(p, sep) =~= t.push(sep));
            assert(t.push(sep) =~= s);
        } else {
            assert(p.drop_last() =~= q.drop_last());
            assert(p.last() == q.last().push(s.last()));
            if q.len() == 1 {
                assert(joined(p, sep) =~= s);
            } else {
                assert(joined(p, sep) =~= joined(q, sep).push(s.last()));
                assert(joined(p, sep) =~= s);
            }
            assert forall|k: int, i: int|
                0 <= k < p.len() && 0 <= i < p[k].len() implies #[trigger] p[k][i] != sep by {
                if k < p.len() - 1 {
                    assert(p[k] == q[k]);
                    assert(q[k][i] != sep);
                } else if i < q.last().len() {
                    assert(q[q.len() - 1][i] != sep);
                }
            }
        }
    }
}

/// A decimal digit behind a number makes ten times the number and that digit; anything else behind
/// it makes no number. A single digit is its own number, and one plus sign before a number changes
/// nothing.
pub proof fn law_reading_numbers(s: Seq<char>, c: char)
    ensures
        s.len() > 0 && s != seq!['+'] ==> number(s.push(c)) == match number(s) {
            Some(n) => if '0' as u32 <= c as u32 <= '9' as u32 {
                Some((10 * n + (c as u32 - '0' as u32)) as nat)
            } else {
                None
            },
            None => None,
        },
        '0' as u32 <= c as u32 <= '9' as u32 ==> number(seq![c]) == Some(
            (c as u32 - '0' as u32) as nat,
        ),
        !('0' as u32 <= c as u32 <= '9' as u32) ==> number(seq![c]) is None,
        number(Seq::empty()) is None,
        s.len() > 0 && s[0] != '+' ==> number(seq!['+'] + s) == number(s),
{
    let one = seq![c];
    assert(one.drop_last() =~= Seq::<char>::empty());
    assert(digits_value(one.drop_last()) == 0);
    assert(one.drop_first() =~= Seq::<char>::empty());
    if is_digit(c) {
        assert(unsigned_part(one) == one);
        assert(all_digits(one));
    } else if c != '+' {
        assert(!is_digit(one[0]));
    }
    if s.len() > 0 && s != seq!['+'] {
        let d = unsigned_part(s);
        let e = unsigned_part(s.push(c));
        if s[0] == '+' {
            assert(s.len() > 1) by {
                if s.len() == 1 {
                    assert(s =~= seq!['+']);
                }
            }
            assert(e =~= d.push(c));
        } else {
            assert(e =~= d.push(c));
        }
        assert(e.drop_last() =~= d);
        assert(e.last() == c);
        if all_digits(d) && is_digit(c) {
            assert forall|i: int| 0 <= i < e.len() implies is_digit(#[trigger] e[i]) by {
                if i < d.len() {
                    assert(e[i] == d[i]);
                }
            }
        }
        if all_digits(e) {
            assert forall|i: int| 0 <= i < d.len() implies is_digit(#[trigger] d[i]) by {
                assert(e[i] == d[i]);
            }
            assert(is_digit(e[d.len() as int]));
        }
    }
    if s.len() > 0 && s[0] != '+' {
        assert((seq!['+'] + s).drop_first() =~= s);
    }
}

/// A decimal numeral reads back as its number, is made of digits alone, and has no leading zero.
pub proof fn law_decimal_numerals(n: nat)
    ensures
        number(decimal(n)) == Some(n),
        all_digits(decimal(n)),
        n > 0 ==> decimal(n)[0] != '0',
        n == 0 ==> decimal(n) == seq!['0'],
    decreases n,
{
    law_numbers_read_back(n);
    lemma_decimal(n);
    if n < 10 {
        assert(decimal(n) =~= seq![digit(n)]);
    } else {
        lemma_quotient_smaller(n, 10);
        law_decimal_numerals(n / 10);
        assert(decimal(n)[0] == decimal(n / 10)[0]) by {
            lemma_decimal(n / 10);
        }
    }
}

/// The sixteen digits of a hexadecimal numeral.
pub open spec fn hex_digits() -> Seq<char> {
    seq!['0', '1', '2', '3', '4', '5', '6', '7', '8', '9', 'a', 'b', 'c', 'd', 'e', 'f']
}

/// A byte in hexadecimal: one digit below 16, two from there on.
pub proof fn law_hexadecimal_bytes(n: nat)
    requires
        n < 256,
    ensures
        n < 16 ==> hexadecimal(n) == seq![hex_digits()[n as int]],
        n >= 16 ==> hexadecimal(n) == seq![
            hex_digits()[n as int / 16],
            hex_digits()[n as int % 16],
        ],
{
    reveal_with_fuel(numeral, 3);
    lemma_digit_table(n % 16);
    lemma_digit_table(n / 16);
    if n < 16 {
        assert(hexadecimal(n) =~= seq![hex_digits()[n as int]]);
    } else {
        lemma_quotient_smaller(n, 16);
        assert(hexadecimal(n) =~= seq![hex_digits()[n as int / 16], hex_digits()[n as int % 16]]);
    }
}

proof fn lemma_digit_table(d: nat)
    requires
        d < 16,
    ensures
        digit(d) == hex_digits()[d as int],
{
    let t = hex_digits();
    assert(t[0] == '0' && t[1] == '1' && t[2] == '2' && t[3] == '3' && t[4] == '4' && t[5] == '5'
        && t[6] == '6' && t[7] == '7' && t[8] == '8' && t[9] == '9' && t[10] == 'a' && t[11] == 'b'
        && t[12] == 'c' && t[13] == 'd' && t[14] == 'e' && t[15] == 'f');
}

} // verus!
