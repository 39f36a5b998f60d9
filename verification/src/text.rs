//! The text of the input fields: trimming, the list of category labels, and the numeric
//! attribute.
use crate::graph::{texts, Record, RecordModel};
use vstd::prelude::*;

verus! {

/// What is taken off the two ends of a text.
#[derive(Debug, Clone, Copy, PartialEq, Eq)]
pub enum Strip {
    /// White space.
    Space,
    /// Square brackets.
    Brackets,
    /// Single quotes.
    Quote,
}

/// Whether `c` is white space: one of the characters with the Unicode property White_Space.
pub open spec fn is_space(c: char) -> bool {
    let x = c as u32;
    (0x09 <= x <= 0x0D) || x == 0x20 || x == 0x85 || x == 0xA0 || x == 0x1680 || (0x2000 <= x
        <= 0x200A) || x == 0x2028 || x == 0x2029 || x == 0x202F || x == 0x205F || x == 0x3000
}

/// Whether stripping `kind` takes the character `c` off.
pub open spec fn strips(kind: Strip, c: char) -> bool {
    match kind {
        Strip::Space => is_space(c),
        Strip::Brackets => c == '[' || c == ']',
        Strip::Quote => c == '\'',
    }
}

/// The first position at or after `from` whose character is not taken off.
pub open spec fn skip_front(s: Seq<char>, kind: Strip, from: int) -> int
    decreases s.len() - from,
{
    if 0 <= from < s.len() && strips(kind, s[from]) {
        skip_front(s, kind, from + 1)
    } else {
        from
    }
}

/// The end of the text between `lo` and `to` once the characters taken off its end are gone.
pub open spec fn skip_back(s: Seq<char>, kind: Strip, lo: int, to: int) -> int
    decreases to - lo,
{
    if lo < to <= s.len() && strips(kind, s[to - 1]) {
        skip_back(s, kind, lo, to - 1)
    } else {
        to
    }
}

/// `s` without the characters that `kind` takes off its two ends.
pub open spec fn stripped(s: Seq<char>, kind: Strip) -> Seq<char> {
    let a = skip_front(s, kind, 0);
    s.subrange(a, skip_back(s, kind, a, s.len() as int))
}

/// Whether stripping `kind` takes the character `c` off.
pub fn takes_off(kind: Strip, c: char) -> (r: bool)
    ensures
        r == strips(kind, c),
{
    match kind {
        Strip::Space => {
            let x = c as u32;
            (0x09 <= x && x <= 0x0D) || x == 0x20 || x == 0x85 || x == 0xA0 || x == 0x1680 || (
            0x2000 <= x && x <= 0x200A) || x == 0x2028 || x == 0x2029 || x == 0x202F || x
                == 0x205F || x == 0x3000
        },
        Strip::Brackets => c == '[' || c == ']',
        Strip::Quote => c == '\'',
    }
}

/// `s` without the characters that `kind` takes off its two ends.
pub fn strip<'a>(s: &'a str, kind: Strip) -> (r: &'a str)
    ensures
        r@ == stripped(s@, kind),
{
    let n = s.unicode_len();
    let mut a: usize = 0;
    while a < n && takes_off(kind, s.get_char(a))
        invariant
            n == s@.len(),
            a <= n,
            skip_front(s@, kind, a as int) == skip_front(s@, kind, 0),
        decreases n - a,
    {
        a += 1;
    }
    let mut b: usize = n;
    while b > a && takes_off(kind, s.get_char(b - 1))
        invariant
            n == s@.len(),
            a <= b <= n,
            skip_back(s@, kind, a as int, b as int) == skip_back(s@, kind, a as int, n as int),
        decreases b - a,
    {
        b -= 1;
    }
    s.substring_char(a, b)
}

/// A piece of a label list as a label: without the white space round it, and then without
/// the single quotes round what is left.
pub open spec fn clean_label(piece: Seq<char>) -> Seq<char> {
    stripped(stripped(piece, Strip::Space), Strip::Quote)
}

/// The labels of the pieces of `s` from the piece that starts at `start` on, where the
/// text up to `at` holds no comma after `start`. Pieces are separated by commas; a piece
/// that leaves no label is passed over.
pub open spec fn labels_scan(s: Seq<char>, start: int, at: int) -> Seq<Seq<char>>
    decreases s.len() - at,
{
    if at >= s.len() {
        let item = clean_label(s.subrange(start, s.len() as int));
        if item.len() > 0 {
            seq![item]
        } else {
            Seq::empty()
        }
    } else if s[at] == ',' {
        let item = clean_label(s.subrange(start, at));
        let rest = labels_scan(s, at + 1, at + 1);
        if item.len() > 0 {
            seq![item] + rest
        } else {
            rest
        }
    } else {
        labels_scan(s, start, at + 1)
    }
}

/// The labels that a field holds: the field without the square brackets round it, split
/// at its commas, each piece as a label.
pub open spec fn genre_labels(field: Seq<char>) -> Seq<Seq<char>> {
    labels_scan(stripped(field, Strip::Brackets), 0, 0)
}

/// Reads the list of labels of a field such as `['Rock', 'Pop']`.
pub fn parse_genres(field: &str) -> (labels: Vec<String>)
    ensures
        texts(labels@) == genre_labels(field@),
{
    let inner = strip(field, Strip::Brackets);
    let n = inner.unicode_len();
    let mut labels: Vec<String> = Vec::new();
    let mut start: usize = 0;
    let mut at: usize = 0;
    assert(texts(labels@) + labels_scan(inner@, 0, 0) =~= labels_scan(inner@, 0, 0));
    while at < n
        invariant
            n == inner@.len(),
            start <= at <= n,
            texts(labels@) + labels_scan(inner@, start as int, at as int) == labels_scan(
                inner@,
                0,
                0,
            ),
        decreases n - at,
    {
        if inner.get_char(at) == ',' {
            let item = strip(strip(inner.substring_char(start, at), Strip::Space), Strip::Quote);
            let ghost before = texts(labels@);
            let ghost rest = labels_scan(inner@, at + 1, at + 1);
            if item.unicode_len() > 0 {
                labels.push(item.to_owned());
                proof {
                    assert(texts(labels@) =~= before.push(item@));
                    assert(texts(labels@) + rest =~= before + (seq![item@] + rest));
                }
            }
            start = at + 1;
        }
        at += 1;
    }
    let item = strip(strip(inner.substring_char(start, n), Strip::Space), Strip::Quote);
    let ghost before = texts(labels@);
    if item.unicode_len() > 0 {
        labels.push(item.to_owned());
        proof {
            assert(texts(labels@) =~= before.push(item@));
            assert(texts(labels@) =~= before + seq![item@]);
        }
    } else {
        assert(before + Seq::<Seq<char>>::empty() =~= before);
    }
    labels
}

/// Whether `c` is a decimal digit.
pub open spec fn is_digit(c: char) -> bool {
    0x30 <= c as u32 <= 0x39
}

/// The number that the digits of `s` write; a character that is no digit counts as 0.
pub open spec fn digits_value(s: Seq<char>) -> nat
    decreases s.len(),
{
    if s.len() == 0 {
        0
    } else {
        digits_value(s.drop_last()) * 10 + if is_digit(s.last()) {
            (s.last() as u32 - 0x30) as nat
        } else {
            0nat
        }
    }
}

/// The position of the first point at or after `from`; the length of `s` if there is none.
pub open spec fn first_point(s: Seq<char>, from: int) -> int
    decreases s.len() - from,
{
    if 0 <= from < s.len() && s[from] != '.' {
        first_point(s, from + 1)
    } else {
        from
    }
}

/// Whether all characters of `s` between `from` and `to` are digits.
pub open spec fn digits_between(s: Seq<char>, from: int, to: int) -> bool {
    forall|i: int| from <= i < to ==> is_digit(#[trigger] s[i])
}

/// Whether `c` marks the exponent of a number.
pub open spec fn is_mark(c: char) -> bool {
    c == 'e' || c == 'E'
}

/// The position of the first exponent mark at or after `from`; the length of `s` if there
/// is none.
pub open spec fn first_mark(s: Seq<char>, from: int) -> int
    decreases s.len() - from,
{
    if 0 <= from < s.len() && !is_mark(s[from]) {
        first_mark(s, from + 1)
    } else {
        from
    }
}

/// Where the number of `s` starts: behind a plus sign, if `s` begins with one.
pub open spec fn number_start(s: Seq<char>) -> int {
    if s.len() > 0 && s[0] == '+' {
        1
    } else {
        0
    }
}

/// Where the mantissa of `s` ends: at the first exponent mark, or at the end of `s`.
pub open spec fn mantissa_end(s: Seq<char>) -> int {
    first_mark(s, number_start(s))
}

/// Where the whole part of the mantissa of `s` ends: at the first point, if there is one
/// before the end of the mantissa.
pub open spec fn whole_end(s: Seq<char>) -> int {
    let p = first_point(s, number_start(s));
    if p < mantissa_end(s) {
        p
    } else {
        mantissa_end(s)
    }
}

/// The characters of the mantissa of `s` without its point: those before the point, and
/// those behind it.
pub open spec fn mantissa_digits(s: Seq<char>) -> Seq<char> {
    let p = whole_end(s);
    let m = mantissa_end(s);
    s.subrange(number_start(s), p) + if p < m {
        s.subrange(p + 1, m)
    } else {
        Seq::empty()
    }
}

/// Where the digits of the exponent of `s` start: behind the mark and a sign, if there is one.
pub open spec fn exponent_start(s: Seq<char>) -> int {
    let m = mantissa_end(s);
    if m + 1 < s.len() && (s[m + 1] == '+' || s[m + 1] == '-') {
        m + 2
    } else {
        m + 1
    }
}

/// The exponent that `s` writes; 0 where it writes none.
pub open spec fn exponent(s: Seq<char>) -> int {
    let m = mantissa_end(s);
    let size = digits_value(s.subrange(exponent_start(s), s.len() as int));
    if m >= s.len() {
        0
    } else if m + 1 < s.len() && s[m + 1] == '-' {
        -size
    } else {
        size as int
    }
}

/// Whether `s` writes a number: digits with at most one point among them, before the point
/// or behind it or both; possibly a plus sign in front; and possibly an exponent behind,
/// which is a mark `e` or `E`, possibly a sign, and digits.
pub open spec fn is_decimal(s: Seq<char>) -> bool {
    let m = mantissa_end(s);
    &&& digits_between(mantissa_digits(s), 0, mantissa_digits(s).len() as int)
    &&& mantissa_digits(s).len() >= 1
    &&& m < s.len() ==> exponent_start(s) < s.len() && digits_between(
        s,
        exponent_start(s),
        s.len() as int,
    )
}

/// Whether `c` is the digit 0.
pub open spec fn is_zero(c: char) -> bool {
    c as u32 == 0x30
}

/// Whether one of the characters of `digits` is not the digit 0.
pub open spec fn has_nonzero(digits: Seq<char>) -> bool {
    exists|k: int| 0 <= k < digits.len() && !is_zero(#[trigger] digits[k])
}

/// The power of ten with exponent `k`.
pub open spec fn pow10(k: nat) -> nat
    decreases k,
{
    if k == 0 {
        1
    } else {
        10 * pow10((k - 1) as nat)
    }
}

/// The whole part of the number whose digits are `digits` and whose point stands behind
/// the first `point` of them: behind zeros appended to them where `point` is larger than
/// their number, and in front of them all where it is not positive.
pub open spec fn whole_of(digits: Seq<char>, point: int) -> nat {
    if point <= 0 {
        0
    } else if point <= digits.len() {
        digits_value(digits.take(point))
    } else {
        digits_value(digits) * pow10((point - digits.len()) as nat)
    }
}

/// Whether `c` is the letter `lower`, in lower or in upper case.
pub open spec fn is_letter(c: char, lower: char) -> bool {
    c == lower || c as u32 + 0x20 == lower as u32
}

/// Whether the text of `s` from `from` on is the word `word`, in whatever case.
pub open spec fn spells(s: Seq<char>, from: int, word: Seq<char>) -> bool {
    &&& s.len() - from == word.len()
    &&& forall|k: int| 0 <= k < word.len() ==> is_letter(s[from + k], #[trigger] word[k])
}

/// Whether `s` writes infinity: `inf` or `infinity`, in whatever case, possibly behind a
/// plus sign.
pub open spec fn is_infinity(s: Seq<char>) -> bool {
    spells(s, number_start(s), seq!['i', 'n', 'f']) || spells(
        s,
        number_start(s),
        seq!['i', 'n', 'f', 'i', 'n', 'i', 't', 'y'],
    )
}

/// The numeric attribute that a field writes. A field that writes no number, or the number
/// 0, gives 0. A field that writes a positive number gives the whole part of that number,
/// but 1 where the number is below 1 and the largest `u64` where no `u64` holds it, as
/// where the field writes infinity: so a positive number always gives a positive attribute.
pub open spec fn length_value(s: Seq<char>) -> u64 {
    let digits = mantissa_digits(s);
    let whole = whole_of(digits, whole_end(s) - number_start(s) + exponent(s));
    if is_infinity(s) {
        u64::MAX
    } else if !is_decimal(s) || !has_nonzero(digits) {
        0
    } else if whole > u64::MAX {
        u64::MAX
    } else if whole == 0 {
        1
    } else {
        whole as u64
    }
}

/// The first exponent mark at or after `from` lies between `from` and the end of the text.
pub proof fn lemma_first_mark_bounds(s: Seq<char>, from: int)
    requires
        0 <= from <= s.len(),
    ensures
        from <= first_mark(s, from) <= s.len(),
    decreases s.len() - from,
{
    if from < s.len() && !is_mark(s[from]) {
        lemma_first_mark_bounds(s, from + 1);
    }
}

/// A power of ten is at least 1, and grows with its exponent.
pub proof fn lemma_pow10_grows(j: nat, k: nat)
    requires
        j <= k,
    ensures
        1 <= pow10(j) <= pow10(k),
    decreases k,
{
    if k > 0 {
        if j < k {
            lemma_pow10_grows(j, (k - 1) as nat);
        } else {
            lemma_pow10_grows((j - 1) as nat, (k - 1) as nat);
        }
    }
}

/// Digits of which one is not `0` write a number that is not 0.
pub proof fn lemma_nonzero_value(digits: Seq<char>)
    requires
        digits_between(digits, 0, digits.len() as int),
        has_nonzero(digits),
    ensures
        digits_value(digits) >= 1,
    decreases digits.len(),
{
    let k = choose|k: int| 0 <= k < digits.len() && !is_zero(#[trigger] digits[k]);
    if k == digits.len() - 1 {
        assert(is_digit(digits.last()));
    } else {
        let rest = digits.drop_last();
        assert(!is_zero(rest[k]));
        assert forall|i: int| 0 <= i < rest.len() implies is_digit(#[trigger] rest[i]) by {
            assert(is_digit(digits[i]));
        }
        lemma_nonzero_value(rest);
    }
}

/// Whether `c` is a decimal digit.
fn is_digit_char(c: char) -> (r: bool)
    ensures
        r == is_digit(c),
{
    let x = c as u32;
    0x30 <= x && x <= 0x39
}

/// The whole part of the number whose digits are `digits` and whose point stands behind
/// the first `point` of them, where a `u64` holds it; else the second part of the result
/// is `false`.
fn whole_part(digits: &Vec<char>, point: i128) -> (r: (u64, bool))
    requires
        digits_between(digits@, 0, digits.len() as int),
    ensures
        r.1 ==> r.0 == whole_of(digits@, point as int),
        !r.1 ==> whole_of(digits@, point as int) > u64::MAX,
{
    if point <= 0 {
        return (0, true);
    }
    let ghost d = digits@;
    let mut value: u64 = 0;
    let mut fits = true;
    let mut i: usize = 0;
    assert(d.take(0) =~= Seq::empty());
    while i < digits.len() && (i as i128) < point
        invariant
            d == digits@,
            digits_between(d, 0, d.len() as int),
            point > 0,
            i <= digits.len(),
            i <= point,
            fits ==> value == digits_value(d.take(i as int)),
            !fits ==> digits_value(d.take(i as int)) > u64::MAX,
        decreases digits.len() - i,
    {
        let x = digits[i] as u32;
        proof {
            assert(is_digit(d[i as int]));
            assert(d.take(i + 1).drop_last() =~= d.take(i as int));
        }
        if fits {
            let wide: u128 = value as u128 * 10 + (x - 0x30) as u128;
            if wide > u64::MAX as u128 {
                fits = false;
            } else {
                value = wide as u64;
            }
        }
        i += 1;
    }
    if (i as i128) >= point {
        return (value, fits);
    }
    proof {
        assert(d.take(d.len() as int) =~= d);
    }
    let ghost total = whole_of(d, point as int);
    let mut pad: i128 = point - digits.len() as i128;
    proof {
        lemma_pow10_grows(0, pad as nat);
        if !fits {
            assert(digits_value(d) * pow10(pad as nat) >= digits_value(d)) by (nonlinear_arith)
                requires
                    pow10(pad as nat) >= 1,
            ;
        }
    }
    while pad > 0 && fits && value > 0
        invariant
            pad >= 0,
            fits ==> value * pow10(pad as nat) == total,
            !fits ==> total > u64::MAX,
        decreases pad,
    {
        let wide: u128 = value as u128 * 10;
        proof {
            lemma_pow10_grows(0, (pad - 1) as nat);
            assert(value * pow10(pad as nat) == (value * 10) * pow10((pad - 1) as nat))
                by (nonlinear_arith)
                requires
                    pow10(pad as nat) == 10 * pow10((pad - 1) as nat),
            ;
            assert((value * 10) * pow10((pad - 1) as nat) >= value * 10) by (nonlinear_arith)
                requires
                    pow10((pad - 1) as nat) >= 1,
            ;
        }
        if wide > u64::MAX as u128 {
            fits = false;
        } else {
            value = wide as u64;
        }
        pad -= 1;
    }
    proof {
        if fits && value == 0 {
            assert(0 * pow10(pad as nat) == 0) by (nonlinear_arith);
        }
        if fits && pad == 0 {
            assert(value * pow10(0) == value) by (nonlinear_arith)
                requires
                    pow10(0) == 1,
            ;
        }
    }
    (value, fits)
}

/// Whether the text of `field` from `from` on is the word `word`, in whatever case.
fn spells_word(field: &str, from: usize, word: &Vec<char>) -> (r: bool)
    requires
        from <= field@.len(),
    ensures
        r == spells(field@, from as int, word@),
{
    let n = field.unicode_len();
    if n - from != word.len() {
        return false;
    }
    let mut k: usize = 0;
    while k < word.len()
        invariant
            n == field@.len(),
            from <= n,
            n - from == word.len(),
            k <= word.len(),
            forall|j: int| 0 <= j < k ==> is_letter(field@[from + j], #[trigger] word[j]),
        decreases word.len() - k,
    {
        let c = field.get_char(from + k);
        let lower = word[k];
        if !(c == lower || c as u32 + 0x20 == lower as u32) {
            assert(!is_letter(field@[from + k], word[k as int]));
            return false;
        }
        k += 1;
    }
    true
}

/// The mantissa of a field, as read.
struct Mantissa {
    /// Its digits, without the point.
    digits: Vec<char>,
    /// How many of them stand before the point.
    whole: usize,
    /// Where the mantissa ends in the field.
    end: usize,
    /// Whether one of the digits is not 0.
    nonzero: bool,
}

/// Reads the mantissa of a field that starts at `a`: digits with at most one point among
/// them. Gives nothing where another character stands among them.
fn read_mantissa(field: &str, a: usize) -> (r: Option<Mantissa>)
    requires
        a == number_start(field@),
    ensures
        match r {
            Some(found) => {
                &&& found.digits@ == mantissa_digits(field@)
                &&& digits_between(found.digits@, 0, found.digits.len() as int)
                &&& found.whole == whole_end(field@) - number_start(field@)
                &&& found.end == mantissa_end(field@)
                &&& found.end <= field@.len()
                &&& found.nonzero == has_nonzero(found.digits@)
            },
            None => !digits_between(
                mantissa_digits(field@),
                0,
                mantissa_digits(field@).len() as int,
            ),
        },
{
    let ghost s = field@;
    let n = field.unicode_len();
    let mut digits: Vec<char> = Vec::new();
    let mut nonzero = false;
    let mut i: usize = a;
    proof {
        assert(s.subrange(a as int, a as int) =~= Seq::empty());
        lemma_first_point_bounds(s, a as int);
        lemma_first_mark_bounds(s, a as int);
    }
    while i < n && is_digit_char(field.get_char(i))
        invariant
            s == field@,
            n == s.len(),
            a == number_start(s),
            a <= i <= n,
            first_point(s, i as int) == first_point(s, a as int),
            first_mark(s, i as int) == first_mark(s, a as int),
            digits@ == s.subrange(a as int, i as int),
            digits_between(digits@, 0, digits.len() as int),
            nonzero == has_nonzero(digits@),
        decreases n - i,
    {
        let c = field.get_char(i);
        let ghost before = digits@;
        digits.push(c);
        proof {
            assert(digits@ =~= s.subrange(a as int, i + 1));
            assert(first_point(s, i as int) == first_point(s, i + 1));
            assert(first_mark(s, i as int) == first_mark(s, i + 1));
            if has_nonzero(before) {
                let k = choose|k: int| 0 <= k < before.len() && !is_zero(#[trigger] before[k]);
                assert(!is_zero(digits@[k]));
            }
            if has_nonzero(digits@) && !has_nonzero(before) {
                let k = choose|k: int| 0 <= k < digits.len() && !is_zero(#[trigger] digits@[k]);
                if k < before.len() {
                    assert(!is_zero(before[k]));
                }
            }
            if c as u32 != 0x30 {
                assert(!is_zero(digits@[before.len() as int]));
            }
        }
        if c as u32 != 0x30 {
            nonzero = true;
        }
        i += 1;
    }
    let p = i;
    let mut m: usize = i;
    proof {
        lemma_first_point_bounds(s, i as int);
        lemma_first_mark_bounds(s, i as int);
    }
    if i < n {
        let c = field.get_char(i);
        if c == '.' {
            let mut j: usize = i + 1;
            proof {
                assert(first_mark(s, i as int) == first_mark(s, i + 1));
                assert(s.subrange(i + 1, i + 1) =~= Seq::empty());
                assert(digits@ =~= s.subrange(a as int, p as int) + s.subrange(p + 1, j as int));
            }
            while j < n && is_digit_char(field.get_char(j))
                invariant
                    s == field@,
                    n == s.len(),
                    a == number_start(s),
                    a <= p < j <= n,
                    s[p as int] == '.',
                    p == first_point(s, a as int),
                    first_mark(s, j as int) == first_mark(s, a as int),
                    digits@ == s.subrange(a as int, p as int) + s.subrange(p + 1, j as int),
                    digits_between(digits@, 0, digits.len() as int),
                    nonzero == has_nonzero(digits@),
                decreases n - j,
            {
                let c = field.get_char(j);
                let ghost before = digits@;
                digits.push(c);
                proof {
                    assert(digits@ =~= s.subrange(a as int, p as int) + s.subrange(p + 1, j + 1));
                    assert(first_mark(s, j as int) == first_mark(s, j + 1));
                    if has_nonzero(before) {
                        let k = choose|k: int| 0 <= k < before.len() && !is_zero(#[trigger] before[k]);
                        assert(!is_zero(digits@[k]));
                    }
                    if has_nonzero(digits@) && !has_nonzero(before) {
                        let k = choose|k: int|
                            0 <= k < digits.len() && !is_zero(#[trigger] digits@[k]);
                        if k < before.len() {
                            assert(!is_zero(before[k]));
                        }
                    }
                    if c as u32 != 0x30 {
                        assert(!is_zero(digits@[before.len() as int]));
                    }
                }
                if c as u32 != 0x30 {
                    nonzero = true;
                }
                j += 1;
            }
            proof {
                lemma_first_mark_bounds(s, j as int);
            }
            if j < n && !(field.get_char(j) == 'e' || field.get_char(j) == 'E') {
                proof {
                    let at = j as int;
                    assert(!is_digit(s[at]) && !is_mark(s[at]));
                    assert(first_mark(s, at) == first_mark(s, at + 1));
                    lemma_first_mark_bounds(s, at + 1);
                    assert(whole_end(s) == p && mantissa_end(s) > at);
                    let d = mantissa_digits(s);
                    assert(d[at - 1 - a] == s[at]);
                }
                return None;
            }
            m = j;
            proof {
                assert(mantissa_end(s) == m && whole_end(s) == p);
                assert(digits@ =~= mantissa_digits(s));
            }
        } else if c == 'e' || c == 'E' {
            proof {
                assert(mantissa_end(s) == m && whole_end(s) == p);
                assert(digits@ =~= mantissa_digits(s));
            }
        } else {
            proof {
                let at = i as int;
                assert(!is_digit(s[at]) && !is_mark(s[at]) && s[at] != '.');
                assert(first_mark(s, at) == first_mark(s, at + 1));
                assert(first_point(s, at) == first_point(s, at + 1));
                lemma_first_mark_bounds(s, at + 1);
                lemma_first_point_bounds(s, at + 1);
                assert(whole_end(s) > at);
                let d = mantissa_digits(s);
                assert(d[at - a] == s[at]);
            }
            return None;
        }
    } else {
        proof {
            assert(mantissa_end(s) == m && whole_end(s) == p);
            assert(digits@ =~= mantissa_digits(s));
        }
    }
    Some(Mantissa { digits, whole: p - a, end: m, nonzero })
}

/// The size that an exponent is cut off at: no exponent of this size or beyond leaves a
/// number between 1 and the largest `u64`.
pub open spec fn exponent_cap() -> nat {
    0x1_0000_0000_0000_0000_0000_0000_0000
}

/// Reads the exponent of a field behind the mark at `m`: possibly a sign, and digits.
/// Gives its size, cut off at a size beyond all use, and whether it is negative; nothing
/// where the exponent is not well formed.
fn read_exponent(field: &str, m: usize) -> (r: Option<(u128, bool)>)
    requires
        m == mantissa_end(field@),
        m < field@.len(),
    ensures
        match r {
            Some((size, negative)) => {
                let written = digits_value(
                    field@.subrange(exponent_start(field@), field@.len() as int),
                );
                &&& exponent_start(field@) < field@.len()
                &&& digits_between(field@, exponent_start(field@), field@.len() as int)
                &&& negative == (m + 1 < field@.len() && field@[m + 1] == '-')
                &&& size < exponent_cap() * 10
                &&& size == written || (size >= exponent_cap() && written >= exponent_cap())
            },
            None => !(exponent_start(field@) < field@.len() && digits_between(
                field@,
                exponent_start(field@),
                field@.len() as int,
            )),
        },
{
    let ghost s = field@;
    let n = field.unicode_len();
    let mut size: u128 = 0;
    let mut negative = false;
    let mut x: usize = m + 1;
    if x < n && (field.get_char(x) == '+' || field.get_char(x) == '-') {
        negative = field.get_char(x) == '-';
        x += 1;
    }
    if x >= n {
        return None;
    }
    let mut k: usize = x;
    assert(s.subrange(x as int, x as int) =~= Seq::empty());
    while k < n
        invariant
            s == field@,
            n == s.len(),
            x == exponent_start(s),
            x <= k <= n,
            digits_between(s, x as int, k as int),
            size < 0x1_0000_0000_0000_0000_0000_0000_0000 * 10,
            size == digits_value(s.subrange(x as int, k as int)) || (size
                >= 0x1_0000_0000_0000_0000_0000_0000_0000 && digits_value(
                s.subrange(x as int, k as int),
            ) >= 0x1_0000_0000_0000_0000_0000_0000_0000),
        decreases n - k,
    {
        let c = field.get_char(k);
        if !is_digit_char(c) {
            return None;
        }
        proof {
            assert(s.subrange(x as int, k + 1).drop_last() =~= s.subrange(x as int, k as int));
        }
        if size < 0x1_0000_0000_0000_0000_0000_0000_0000 {
            size = size * 10 + (c as u32 - 0x30) as u128;
        }
        k += 1;
    }
    Some((size, negative))
}

/// Reads the numeric attribute of a field.
pub fn parse_length(field: &str) -> (value: u64)
    ensures
        value == length_value(field@),
{
    let ghost s = field@;
    let n = field.unicode_len();
    let a: usize = if n > 0 && field.get_char(0) == '+' {
        1
    } else {
        0
    };
    if spells_word(field, a, &vec!['i', 'n', 'f']) || spells_word(
        field,
        a,
        &vec!['i', 'n', 'f', 'i', 'n', 'i', 't', 'y'],
    ) {
        return u64::MAX;
    }
    let found = match read_mantissa(field, a) {
        Some(found) => found,
        None => {
            return 0;
        },
    };
    if found.digits.len() == 0 {
        return 0;
    }
    let (size, negative) = if found.end < n {
        match read_exponent(field, found.end) {
            Some(read) => read,
            None => {
                return 0;
            },
        }
    } else {
        (0, false)
    };
    if !found.nonzero {
        return 0;
    }
    let digits = found.digits;
    let whole_count: i128 = found.whole as i128;
    let point: i128 = if negative {
        whole_count - size as i128
    } else {
        whole_count + size as i128
    };
    let (value, fits) = whole_part(&digits, point);
    proof {
        let d = mantissa_digits(s);
        let truly = whole_end(s) - number_start(s) + exponent(s);
        lemma_nonzero_value(d);
        if truly != point {
            assert(size >= exponent_cap());
            if negative {
                assert(truly < 0 && point < 0);
            } else {
                assert(truly - d.len() >= 20 && point - d.len() >= 20);
                lemma_big_shift(d, truly);
                lemma_big_shift(d, point as int);
            }
        }
    }
    if !fits {
        u64::MAX
    } else if value == 0 {
        1
    } else {
        value
    }
}

/// Digits that write a number of at least 1, with twenty zeros or more appended, write a
/// number that no `u64` holds.
proof fn lemma_big_shift(digits: Seq<char>, point: int)
    requires
        digits_value(digits) >= 1,
        point - digits.len() >= 20,
    ensures
        whole_of(digits, point) > u64::MAX,
{
    let k = (point - digits.len()) as nat;
    lemma_pow10_grows(20, k);
    assert(pow10(20) == 100_000_000_000_000_000_000nat) by {
        reveal_with_fuel(pow10, 21);
    }
    assert(digits_value(digits) * pow10(k) >= pow10(k)) by (nonlinear_arith)
        requires
            digits_value(digits) >= 1,
    ;
}

/// The first point at or after `from` lies between `from` and the end of the text.
pub proof fn lemma_first_point_bounds(s: Seq<char>, from: int)
    requires
        0 <= from <= s.len(),
    ensures
        from <= first_point(s, from) <= s.len(),
    decreases s.len() - from,
{
    if from < s.len() && s[from] != '.' {
        lemma_first_point_bounds(s, from + 1);
    }
}

/// The record that a row of fields writes: its first field, without the white space round
/// it, is the identifier; its second, likewise, holds the labels; its third holds the
/// numeric attribute. A field that the row lacks counts as empty.
pub open spec fn row_record(row: Seq<Seq<char>>) -> RecordModel {
    RecordModel {
        id: if row.len() > 0 {
            stripped(row[0], Strip::Space)
        } else {
            Seq::empty()
        },
        genres: if row.len() > 1 {
            genre_labels(stripped(row[1], Strip::Space))
        } else {
            Seq::empty()
        },
        length: if row.len() > 2 {
            length_value(row[2])
        } else {
            0
        },
    }
}

/// Reads the record of a row of fields.
pub fn parse_row(row: &Vec<String>) -> (record: Record)
    ensures
        record@ == row_record(texts(row@)),
{
    let id = if row.len() > 0 {
        strip(row[0].as_str(), Strip::Space).to_owned()
    } else {
        String::new()
    };
    let genres = if row.len() > 1 {
        parse_genres(strip(row[1].as_str(), Strip::Space))
    } else {
        Vec::new()
    };
    let length = if row.len() > 2 {
        parse_length(row[2].as_str())
    } else {
        0
    };
    let record = Record { id, genres, length };
    proof {
        if row.len() <= 1 {
            assert(texts(record.genres@) =~= Seq::empty());
        }
        assert(record@.genres == row_record(texts(row@)).genres);
    }
    record
}

} // verus!
