//! Primitive decoders: text to integers, booleans and decimal numbers, plus
//! the CSV tile-grid decoder.  Every grammar is stated as a spec function and
//! each decoder is proved to follow it exactly.

use vstd::prelude::*;
use vstd::string::StrSliceExecFns;
use vstd::string::StringExecFns;

use crate::data_types::Decimal;
use crate::data_types::PairDec;
use crate::data_types::TmxError;

verus! {

/// Character-wise string equality.
pub fn str_eq(a: &str, b: &str) -> (r: bool)
    ensures
        r == (a@ == b@),
{
    let na = a.unicode_len();
    let nb = b.unicode_len();
    if na != nb {
        proof {
            assert(a@.len() != b@.len());
        }
        return false;
    }
    let mut i: usize = 0;
    while i < na
        invariant
            i <= na,
            na == a@.len(),
            na == b@.len(),
            forall|j: int| 0 <= j < i ==> a@[j] == b@[j],
        decreases na - i,
    {
        if a.get_char(i) != b.get_char(i) {
            return false;
        }
        i += 1;
    }
    proof {
        assert(a@ =~= b@);
    }
    true
}

/// A decimal digit.
pub open spec fn is_dec_digit(c: char) -> bool {
    '0' <= c && c <= '9'
}

/// The numeric value of one digit character.
pub open spec fn digit_value(c: char) -> int {
    c as int - '0' as int
}

/// Every character of `s` is a decimal digit.
pub open spec fn all_dec_digits(s: Seq<char>) -> bool {
    forall|i: int| 0 <= i < s.len() ==> is_dec_digit(#[trigger] s[i])
}

/// The number a digit string denotes, most significant digit first.
pub open spec fn digits_value(s: Seq<char>) -> int
    decreases s.len(),
{
    if s.len() == 0 {
        0
    } else {
        digits_value(s.drop_last()) * 10 + digit_value(s.last())
    }
}

proof fn lemma_digits_value_nonneg(s: Seq<char>)
    requires
        all_dec_digits(s),
    ensures
        digits_value(s) >= 0,
    decreases s.len(),
{
    if s.len() > 0 {
        assert(all_dec_digits(s.drop_last()));
        lemma_digits_value_nonneg(s.drop_last());
    }
}

/// A digit string is worth at least any of its prefixes.
proof fn lemma_digits_value_prefix(s: Seq<char>, i: int)
    requires
        0 <= i <= s.len(),
        all_dec_digits(s),
    ensures
        digits_value(s.take(i)) <= digits_value(s),
    decreases s.len() - i,
{
    if i < s.len() {
        assert(s.take(i + 1).drop_last() =~= s.take(i));
        assert(s.take(i + 1).last() == s[i]);
        assert(all_dec_digits(s.take(i)));
        lemma_digits_value_nonneg(s.take(i));
        assert(digits_value(s.take(i + 1)) == digits_value(s.take(i)) * 10 + digit_value(s[i]));
        lemma_digits_value_prefix(s, i + 1);
    } else {
        assert(s.take(i) =~= s);
    }
}

/// Parses the digit run `s[from..]`: `Some(v)` exactly when that suffix is a
/// nonempty string of decimal digits whose value does not exceed `bound`.
fn parse_digits_bounded(s: &str, from: usize, bound: u64) -> (r: Option<u64>)
    requires
        from <= s@.len(),
    ensures
        match r {
            Some(v) => {
                let digits = s@.skip(from as int);
                &&& digits.len() > 0
                &&& all_dec_digits(digits)
                &&& digits_value(digits) == v
                &&& v <= bound
            },
            None => {
                let digits = s@.skip(from as int);
                ||| digits.len() == 0
                ||| !all_dec_digits(digits)
                ||| digits_value(digits) > bound
            },
        },
{
    let ghost digits = s@.skip(from as int);
    let n = s.unicode_len();
    if from == n {
        return None;
    }
    let mut acc: u64 = 0;
    let mut i: usize = from;
    while i < n
        invariant
            from <= i <= n,
            n == s@.len(),
            digits == s@.skip(from as int),
            all_dec_digits(digits.take(i - from)),
            acc == digits_value(digits.take(i - from)),
            acc <= bound,
        decreases n - i,
    {
        let c = s.get_char(i);
        let cv = c as u32;
        if cv < 48 || cv > 57 {
            proof {
                assert(digits[i - from] == c);
                assert(!is_dec_digit(c));
            }
            return None;
        }
        let d: u64 = (cv - 48) as u64;
        proof {
            assert(digits[i - from] == c);
            assert(is_dec_digit(c));
            assert(digit_value(c) == d);
            assert(digits.take(i - from + 1).drop_last() =~= digits.take(i - from));
            assert(digits.take(i - from + 1).last() == digits[i - from]);
        }
        if acc > bound / 10 || (acc == bound / 10 && d > bound % 10) {
            proof {
                let k = i - from + 1;
                lemma_digits_value_nonneg(digits.take(k));
                assert(digits_value(digits.take(k)) == acc * 10 + d);
                assert(acc * 10 + d > bound) by (nonlinear_arith)
                    requires
                        acc > bound / 10 || (acc == bound / 10 && d > bound % 10),
                        bound == (bound / 10) * 10 + bound % 10,
                        0 <= d,
                        0 <= acc,
                {
                }
                if all_dec_digits(digits) {
                    lemma_digits_value_prefix(digits, k);
                }
            }
            return None;
        }
        proof {
            assert(acc * 10 + d <= bound) by (nonlinear_arith)
                requires
                    !(acc > bound / 10) && !(acc == bound / 10 && d > bound % 10),
                    bound == (bound / 10) * 10 + bound % 10,
                    0 <= d <= 9,
                    0 <= acc,
            {
            }
        }
        acc = acc * 10 + d;
        i += 1;
    }
    proof {
        assert(digits.take(n - from) =~= digits);
    }
    Some(acc)
}

/// What a string denotes as an unsigned 32-bit number: defined exactly for
/// nonempty all-digit strings whose value fits.
pub open spec fn spec_parse_u32(s: Seq<char>) -> Option<u32> {
    if s.len() > 0 && all_dec_digits(s) && digits_value(s) <= u32::MAX {
        Some(digits_value(s) as u32)
    } else {
        None
    }
}

/// Parses an unsigned 32-bit decimal number.
pub fn u32_parse(s: &str) -> (r: Option<u32>)
    ensures
        r == spec_parse_u32(s@),
{
    proof {
        assert(s@.skip(0) =~= s@);
    }
    match parse_digits_bounded(s, 0, 0xffff_ffffu64) {
        Some(v) => Some(v as u32),
        None => None,
    }
}

/// What a string denotes as an unsigned 8-bit number.
pub open spec fn spec_parse_u8(s: Seq<char>) -> Option<u8> {
    if s.len() > 0 && all_dec_digits(s) && digits_value(s) <= u8::MAX {
        Some(digits_value(s) as u8)
    } else {
        None
    }
}

/// Parses an unsigned 8-bit decimal number.
pub fn u8_parse(s: &str) -> (r: Option<u8>)
    ensures
        r == spec_parse_u8(s@),
{
    proof {
        assert(s@.skip(0) =~= s@);
    }
    match parse_digits_bounded(s, 0, 0xffu64) {
        Some(v) => Some(v as u8),
        None => None,
    }
}

/// What a string denotes as a signed 32-bit number: an optional sign, then a
/// nonempty digit run whose value fits the signed range.
pub open spec fn spec_parse_i32(s: Seq<char>) -> Option<i32> {
    if s.len() > 0 && s[0] == '-' {
        let mag = s.skip(1);
        if mag.len() > 0 && all_dec_digits(mag) && digits_value(mag) <= 0x8000_0000 {
            Some((-digits_value(mag)) as i32)
        } else {
            None
        }
    } else {
        let mag = if s.len() > 0 && s[0] == '+' {
            s.skip(1)
        } else {
            s
        };
        if mag.len() > 0 && all_dec_digits(mag) && digits_value(mag) <= i32::MAX {
            Some(digits_value(mag) as i32)
        } else {
            None
        }
    }
}

/// Parses a signed 32-bit decimal number.
pub fn i32_parse(s: &str) -> (r: Option<i32>)
    ensures
        r == spec_parse_i32(s@),
{
    let n = s.unicode_len();
    if n == 0 {
        proof {
            assert(s@.skip(0) =~= s@);
        }
        return None;
    }
    let first = s.get_char(0);
    if first == '-' {
        match parse_digits_bounded(s, 1, 0x8000_0000u64) {
            Some(v) => Some((-(v as i64)) as i32),
            None => None,
        }
    } else if first == '+' {
        match parse_digits_bounded(s, 1, 0x7fff_ffffu64) {
            Some(v) => Some(v as i32),
            None => None,
        }
    } else {
        proof {
            assert(s@.skip(0) =~= s@);
        }
        match parse_digits_bounded(s, 0, 0x7fff_ffffu64) {
            Some(v) => Some(v as i32),
            None => None,
        }
    }
}

/// What a string denotes as a boolean: exactly the words `true` and `false`.
pub open spec fn spec_parse_bool(s: Seq<char>) -> Option<bool> {
    if s == "true"@ {
        Some(true)
    } else if s == "false"@ {
        Some(false)
    } else {
        None
    }
}

/// Parses a boolean literal.
pub fn bool_parse(s: &str) -> (r: Option<bool>)
    ensures
        r == spec_parse_bool(s@),
{
    if str_eq(s, "true") {
        Some(true)
    } else if str_eq(s, "false") {
        Some(false)
    } else {
        None
    }
}

/// Whitespace as the TMX text decoders tolerate it.
pub open spec fn is_space(c: char) -> bool {
    c == ' ' || c == '\t' || c == '\r' || c == '\n'
}

fn is_space_char(c: char) -> (r: bool)
    ensures
        r == is_space(c),
{
    c == ' ' || c == '\t' || c == '\r' || c == '\n'
}

/// The index of the first occurrence of `sep` in `s`, or `s.len()` if absent.
pub open spec fn first_index(s: Seq<char>, sep: char) -> int
    decreases s.len(),
{
    if s.len() == 0 {
        0
    } else if s[0] == sep {
        0
    } else {
        1 + first_index(s.skip(1), sep)
    }
}

/// The first occurrence is in bounds, holds `sep`, and nothing before does.
proof fn lemma_first_index_bounds(s: Seq<char>, sep: char)
    ensures
        0 <= first_index(s, sep) <= s.len(),
        first_index(s, sep) < s.len() ==> s[first_index(s, sep)] == sep,
        forall|j: int| 0 <= j < first_index(s, sep) ==> s[j] != sep,
    decreases s.len(),
{
    if s.len() > 0 && s[0] != sep {
        lemma_first_index_bounds(s.skip(1), sep);
        assert forall|j: int| 0 <= j < first_index(s, sep) implies s[j] != sep by {
            if j > 0 {
                assert(s.skip(1)[j - 1] == s[j]);
            }
        }
    }
}

/// A position that holds `sep` with none before it is the first occurrence;
/// so is the length when `sep` never occurs.
proof fn lemma_first_index_is(s: Seq<char>, sep: char, k: int)
    requires
        0 <= k <= s.len(),
        k < s.len() ==> s[k] == sep,
        forall|j: int| 0 <= j < k ==> s[j] != sep,
    ensures
        first_index(s, sep) == k,
    decreases s.len(),
{
    if s.len() == 0 {
    } else if s[0] == sep {
        assert(k == 0);
    } else {
        assert(k >= 1);
        assert forall|j: int| 0 <= j < k - 1 implies s.skip(1)[j] != sep by {
            assert(s.skip(1)[j] == s[j + 1]);
        }
        assert(k - 1 < s.skip(1).len() ==> s.skip(1)[k - 1] == s[k]);
        lemma_first_index_is(s.skip(1), sep, k - 1);
    }
}

/// Splits at every occurrence of `sep`, keeping empty pieces: always one
/// piece more than there are separators, in order.
pub open spec fn split_char(s: Seq<char>, sep: char) -> Seq<Seq<char>>
    decreases s.len()
        via split_char_decreases
{
    if first_index(s, sep) == s.len() {
        seq![s]
    } else {
        seq![s.take(first_index(s, sep))] + split_char(s.skip(first_index(s, sep) + 1), sep)
    }
}

#[via_fn]
proof fn split_char_decreases(s: Seq<char>, sep: char) {
    lemma_first_index_bounds(s, sep);
}

/// The views of a sequence of borrowed string slices.
pub open spec fn views_of<'a>(v: Seq<&'a str>) -> Seq<Seq<char>> {
    Seq::new(v.len(), |i: int| v[i]@)
}

/// Splits `s` at every `sep`, keeping empty pieces.
pub fn split_parts<'a>(s: &'a str, sep: char) -> (r: Vec<&'a str>)
    ensures
        views_of(r@) == split_char(s@, sep),
    decreases s@.len(),
{
    let n = s.unicode_len();
    let mut k: usize = 0;
    while k < n && s.get_char(k) != sep
        invariant
            k <= n,
            n == s@.len(),
            forall|j: int| 0 <= j < k ==> s@[j] != sep,
        decreases n - k,
    {
        k += 1;
    }
    proof {
        lemma_first_index_is(s@, sep, k as int);
    }
    if k == n {
        let mut r: Vec<&'a str> = Vec::new();
        r.push(s);
        proof {
            assert(views_of(r@) =~= seq![s@]);
        }
        r
    } else {
        let head = s.substring_char(0, k);
        let tail = s.substring_char(k + 1, n);
        let mut r = split_parts(tail, sep);
        r.insert(0, head);
        proof {
            assert(head@ =~= s@.take(k as int));
            assert(tail@ =~= s@.skip(k as int + 1));
            assert(views_of(r@) =~= seq![s@.take(k as int)] + split_char(
                s@.skip(k as int + 1),
                sep,
            ));
        }
        r
    }
}

/// The index of the first character that is no whitespace, or the length.
pub open spec fn ws_prefix(s: Seq<char>) -> int
    decreases s.len(),
{
    if s.len() == 0 {
        0
    } else if !is_space(s[0]) {
        0
    } else {
        1 + ws_prefix(s.skip(1))
    }
}

/// The exclusive end of the last character that is no whitespace, or `0`.
pub open spec fn ws_suffix(s: Seq<char>) -> int
    decreases s.len(),
{
    if s.len() == 0 {
        0
    } else if !is_space(s.last()) {
        s.len() as int
    } else {
        ws_suffix(s.drop_last())
    }
}

/// `s` without its surrounding whitespace.
pub open spec fn spec_trim(s: Seq<char>) -> Seq<char> {
    if ws_prefix(s) <= ws_suffix(s) {
        s.subrange(ws_prefix(s), ws_suffix(s))
    } else {
        Seq::empty()
    }
}

proof fn lemma_ws_prefix_is(s: Seq<char>, k: int)
    requires
        0 <= k <= s.len(),
        k < s.len() ==> !is_space(s[k]),
        forall|j: int| 0 <= j < k ==> is_space(#[trigger] s[j]),
    ensures
        ws_prefix(s) == k,
    decreases s.len(),
{
    if s.len() == 0 {
    } else if !is_space(s[0]) {
        assert(k == 0);
    } else {
        assert(k >= 1);
        assert forall|j: int| 0 <= j < k - 1 implies is_space(#[trigger] s.skip(1)[j]) by {
            assert(s.skip(1)[j] == s[j + 1]);
        }
        assert(k - 1 < s.skip(1).len() ==> s.skip(1)[k - 1] == s[k]);
        lemma_ws_prefix_is(s.skip(1), k - 1);
    }
}

proof fn lemma_ws_suffix_is(s: Seq<char>, k: int)
    requires
        0 <= k <= s.len(),
        k > 0 ==> !is_space(s[k - 1]),
        forall|j: int| k <= j < s.len() ==> is_space(#[trigger] s[j]),
    ensures
        ws_suffix(s) == k,
    decreases s.len(),
{
    if s.len() == 0 {
    } else if !is_space(s.last()) {
        assert(k == s.len());
    } else {
        assert(k < s.len());
        assert forall|j: int| k <= j < s.drop_last().len() implies is_space(
            #[trigger] s.drop_last()[j],
        ) by {
            assert(s.drop_last()[j] == s[j]);
        }
        assert(k > 0 ==> s.drop_last()[k - 1] == s[k - 1]);
        lemma_ws_suffix_is(s.drop_last(), k);
    }
}

/// Removes the whitespace around a token.
pub fn trim<'a>(s: &'a str) -> (r: &'a str)
    ensures
        r@ == spec_trim(s@),
{
    let n = s.unicode_len();
    let mut lo: usize = 0;
    while lo < n && is_space_char(s.get_char(lo))
        invariant
            lo <= n,
            n == s@.len(),
            forall|j: int| 0 <= j < lo ==> is_space(#[trigger] s@[j]),
        decreases n - lo,
    {
        lo += 1;
    }
    proof {
        lemma_ws_prefix_is(s@, lo as int);
    }
    let mut hi: usize = n;
    while hi > lo && is_space_char(s.get_char(hi - 1))
        invariant
            lo <= hi <= n,
            n == s@.len(),
            forall|j: int| hi <= j < n ==> is_space(#[trigger] s@[j]),
        decreases hi,
    {
        hi -= 1;
    }
    if hi == lo {
        proof {
            if lo < n {
                assert(!is_space(s@[lo as int]));
                assert(is_space(s@[lo as int]));
            }
            lemma_ws_suffix_is(s@, 0);
            assert(s@.subrange(lo as int, hi as int) =~= Seq::<char>::empty());
        }
        let r = s.substring_char(lo, hi);
        proof {
            assert(r@ =~= spec_trim(s@));
        }
        r
    } else {
        proof {
            lemma_ws_suffix_is(s@, hi as int);
        }
        s.substring_char(lo, hi)
    }
}

/// A string of whitespace only (an ignorable CSV line).
pub open spec fn is_blank(s: Seq<char>) -> bool {
    forall|i: int| 0 <= i < s.len() ==> is_space(#[trigger] s[i])
}

fn is_blank_str(s: &str) -> (r: bool)
    ensures
        r == is_blank(s@),
{
    let n = s.unicode_len();
    let mut i: usize = 0;
    while i < n
        invariant
            i <= n,
            n == s@.len(),
            forall|j: int| 0 <= j < i ==> is_space(#[trigger] s@[j]),
        decreases n - i,
    {
        if !is_space_char(s.get_char(i)) {
            return false;
        }
        i += 1;
    }
    true
}

/// What a string denotes as a decimal number: an optional sign, digits with
/// at most one point among them, at least one digit in all.  The digits with
/// the point removed become the mantissa, the digits behind the point set the
/// scale.  No exponent notation.
pub open spec fn spec_parse_decimal(s: Seq<char>) -> Option<Decimal> {
    let neg = s.len() > 0 && s[0] == '-';
    let rest = if s.len() > 0 && (s[0] == '-' || s[0] == '+') {
        s.skip(1)
    } else {
        s
    };
    let d = first_index(rest, '.');
    let ip = rest.take(d);
    let fp = if d < rest.len() {
        rest.skip(d + 1)
    } else {
        Seq::empty()
    };
    let digits = ip + fp;
    if digits.len() > 0 && all_dec_digits(digits) && digits_value(digits) <= u64::MAX && fp.len()
        <= u32::MAX {
        Some(Decimal { neg, mantissa: digits_value(digits) as u64, scale: fp.len() as u32 })
    } else {
        None
    }
}

/// Parses a decimal number: the `f32`-style fractional attribute values of
/// the TMX format, kept exact.
pub fn decimal_parse(s: &str) -> (r: Option<Decimal>)
    ensures
        r == spec_parse_decimal(s@),
{
    let n = s.unicode_len();
    let mut start: usize = 0;
    let mut neg = false;
    if n > 0 {
        let c0 = s.get_char(0);
        if c0 == '-' {
            neg = true;
            start = 1;
        } else if c0 == '+' {
            start = 1;
        }
    }
    let rest = s.substring_char(start, n);
    proof {
        if start == 0 {
            assert(rest@ =~= s@);
        } else {
            assert(rest@ =~= s@.skip(1));
        }
    }
    let m = rest.unicode_len();
    let mut k: usize = 0;
    while k < m && rest.get_char(k) != '.'
        invariant
            k <= m,
            m == rest@.len(),
            forall|j: int| 0 <= j < k ==> rest@[j] != '.',
        decreases m - k,
    {
        k += 1;
    }
    proof {
        lemma_first_index_is(rest@, '.', k as int);
    }
    let ip = rest.substring_char(0, k);
    let mut digits = String::from_str(ip);
    let mut scale: usize = 0;
    if k < m {
        let fp = rest.substring_char(k + 1, m);
        digits.append(fp);
        scale = m - k - 1;
        proof {
            assert(fp@ =~= rest@.skip(k as int + 1));
        }
    }
    let ghost ipv = rest@.take(k as int);
    let ghost fpv = if (k as int) < rest@.len() {
        rest@.skip(k as int + 1)
    } else {
        Seq::<char>::empty()
    };
    proof {
        assert(ip@ =~= ipv);
        assert(digits@ =~= ipv + fpv);
        assert(scale == fpv.len());
    }
    if scale > (u32::MAX as usize) {
        return None;
    }
    proof {
        assert(digits@.skip(0) =~= digits@);
    }
    match parse_digits_bounded(digits.as_str(), 0, 0xffff_ffff_ffff_ffffu64) {
        Some(v) => Some(Decimal { neg, mantissa: v, scale: scale as u32 }),
        None => None,
    }
}

/// The lines that hold more than whitespace, in order.
pub open spec fn nonblank(lines: Seq<Seq<char>>) -> Seq<Seq<char>>
    decreases lines.len(),
{
    if lines.len() == 0 {
        Seq::empty()
    } else if is_blank(lines.last()) {
        nonblank(lines.drop_last())
    } else {
        nonblank(lines.drop_last()).push(lines.last())
    }
}

/// The rows of a CSV text: its lines, the blank ones dropped.
pub open spec fn csv_rows(s: Seq<char>) -> Seq<Seq<char>> {
    nonblank(split_char(s, '\n'))
}

/// The fields of one CSV row: split at every comma, each trimmed.
pub open spec fn row_fields(row: Seq<char>) -> Seq<Seq<char>> {
    Seq::new(split_char(row, ',').len(), |i: int| spec_trim(split_char(row, ',')[i]))
}

/// The fields of a sequence of rows, row by row.
pub open spec fn flat_fields(rows: Seq<Seq<char>>) -> Seq<Seq<char>>
    decreases rows.len(),
{
    if rows.len() == 0 {
        Seq::empty()
    } else {
        flat_fields(rows.drop_last()) + row_fields(rows.last())
    }
}

/// All fields of a CSV text, row by row, each trimmed.
pub open spec fn csv_fields(s: Seq<char>) -> Seq<Seq<char>> {
    flat_fields(csv_rows(s))
}

proof fn lemma_flat_fields_step(rows: Seq<Seq<char>>, rj: int)
    requires
        0 <= rj < rows.len(),
    ensures
        flat_fields(rows.take(rj + 1)) == flat_fields(rows.take(rj)) + row_fields(rows[rj]),
{
    assert(rows.take(rj + 1).drop_last() =~= rows.take(rj));
    assert(rows.take(rj + 1).last() == rows[rj]);
}

/// Every split has at least one piece.
proof fn lemma_split_char_len_pos(s: Seq<char>, sep: char)
    ensures
        split_char(s, sep).len() >= 1,
{
    lemma_first_index_bounds(s, sep);
}

/// Parses every CSV field as an unsigned 32-bit number, row by row, and
/// returns the flat list of values; stops at the first field that fails,
/// carrying that field's text.
pub fn csv_root(i: &str) -> (r: Result<Vec<u32>, TmxError>)
    ensures
        match r {
            Ok(v) => {
                &&& forall|k: int|
                    0 <= k < csv_fields(i@).len() ==> spec_parse_u32(
                        #[trigger] csv_fields(i@)[k],
                    ) is Some
                &&& v@.len() == csv_fields(i@).len()
                &&& forall|k: int|
                    0 <= k < v@.len() ==> #[trigger] v@[k] == spec_parse_u32(
                        csv_fields(i@)[k],
                    )->Some_0
            },
            Err(e) => exists|k: int|
                {
                    &&& 0 <= k < csv_fields(i@).len()
                    &&& spec_parse_u32(#[trigger] csv_fields(i@)[k]) is None
                    &&& forall|j: int|
                        0 <= j < k ==> spec_parse_u32(#[trigger] csv_fields(i@)[j]) is Some
                    &&& e matches TmxError::TypeCoercion(t) && t@ == csv_fields(i@)[k]
                },
        },
{
    let lines = split_parts(i, '\n');
    let nl = lines.len();
    let mut rows: Vec<&str> = Vec::new();
    proof {
        assert(views_of(lines@).take(0) =~= Seq::<Seq<char>>::empty());
        assert(views_of(rows@) =~= nonblank(views_of(lines@).take(0)));
    }
    let mut j: usize = 0;
    while j < nl
        invariant
            j <= nl,
            nl == lines@.len(),
            views_of(lines@) == split_char(i@, '\n'),
            views_of(rows@) == nonblank(views_of(lines@).take(j as int)),
        decreases nl - j,
    {
        let line = lines[j];
        let ghost prev = views_of(rows@);
        let ghost jq = j as int;
        proof {
            assert(views_of(lines@).take(jq + 1).drop_last() =~= views_of(lines@).take(jq));
            assert(views_of(lines@).take(jq + 1).last() == line@);
        }
        if !is_blank_str(line) {
            rows.push(line);
            proof {
                assert(views_of(rows@) =~= prev.push(line@));
            }
        }
        j += 1;
        proof {
            assert(views_of(lines@).take(j as int) =~= views_of(lines@).take(jq + 1));
        }
    }
    proof {
        assert(views_of(lines@).take(nl as int) =~= views_of(lines@));
        assert(views_of(rows@) == csv_rows(i@));
    }
    let ghost rowviews = views_of(rows@);
    let nr = rows.len();
    let mut out: Vec<u32> = Vec::new();
    proof {
        assert(rowviews.take(0) =~= Seq::<Seq<char>>::empty());
    }
    let mut rj: usize = 0;
    while rj < nr
        invariant
            rj <= nr,
            nr == rows@.len(),
            rowviews == views_of(rows@),
            rowviews == csv_rows(i@),
            out@.len() == flat_fields(rowviews.take(rj as int)).len(),
            forall|k: int|
                0 <= k < out@.len() ==> spec_parse_u32(
                    #[trigger] flat_fields(rowviews.take(rj as int))[k],
                ) is Some,
            forall|k: int|
                0 <= k < out@.len() ==> #[trigger] out@[k] == spec_parse_u32(
                    flat_fields(rowviews.take(rj as int))[k],
                )->Some_0,
        decreases nr - rj,
    {
        let row = rows[rj];
        let fields = split_parts(row, ',');
        let nf = fields.len();
        let ghost base = flat_fields(rowviews.take(rj as int));
        let ghost rjq = rj as int;
        proof {
            assert(row@ == rowviews[rjq]);
            assert(row_fields(row@).len() == nf);
            lemma_flat_fields_step(rowviews, rjq);
            assert forall|k: int| 0 <= k < base.len() implies spec_parse_u32(
                #[trigger] base[k],
            ) is Some by {
                assert(base[k] == flat_fields(rowviews.take(rjq))[k]);
            }
            assert forall|k: int| 0 <= k < base.len() implies #[trigger] out@[k]
                == spec_parse_u32(base[k])->Some_0 by {
                assert(base[k] == flat_fields(rowviews.take(rjq))[k]);
            }
        }
        let mut fk: usize = 0;
        while fk < nf
            invariant
                fk <= nf,
                nf == fields@.len(),
                views_of(fields@) == split_char(row@, ','),
                row@ == rowviews[rjq],
                rjq == rj as int,
                rowviews == views_of(rows@),
                nr == rows@.len(),
                0 <= rjq < nr,
                base == flat_fields(rowviews.take(rjq)),
                flat_fields(rowviews.take(rjq + 1)) == base + row_fields(row@),
                row_fields(row@).len() == nf,
                rowviews == csv_rows(i@),
                out@.len() == base.len() + fk,
                forall|k: int| 0 <= k < base.len() ==> spec_parse_u32(#[trigger] base[k]) is Some,
                forall|k: int|
                    0 <= k < base.len() ==> #[trigger] out@[k] == spec_parse_u32(
                        base[k],
                    )->Some_0,
                forall|k: int|
                    0 <= k < fk ==> spec_parse_u32(#[trigger] row_fields(row@)[k]) is Some,
                forall|k: int|
                    base.len() <= k < out@.len() ==> #[trigger] out@[k] == spec_parse_u32(
                        row_fields(row@)[k - base.len()],
                    )->Some_0,
            decreases nf - fk,
        {
            let tok = trim(fields[fk]);
            proof {
                assert(row_fields(row@)[fk as int] == spec_trim(views_of(fields@)[fk as int]));
                assert(tok@ == row_fields(row@)[fk as int]);
            }
            match u32_parse(tok) {
                Some(v) => {
                    out.push(v);
                },
                None => {
                    proof {
                        let bad = out@.len() as int;
                        assert(rowviews.len() == rows@.len());
                        lemma_flat_fields_prefix(rowviews, rjq + 1);
                        assert(flat_fields(rowviews.take(rjq + 1))[bad] == row_fields(
                            row@,
                        )[fk as int]);
                        assert(csv_fields(i@)[bad] == tok@);
                        assert forall|j2: int| 0 <= j2 < bad implies spec_parse_u32(
                            #[trigger] csv_fields(i@)[j2],
                        ) is Some by {
                            assert(csv_fields(i@)[j2] == flat_fields(rowviews.take(rjq + 1))[j2]);
                            if j2 < base.len() {
                                assert(flat_fields(rowviews.take(rjq + 1))[j2] == base[j2]);
                            } else {
                                assert(flat_fields(rowviews.take(rjq + 1))[j2] == row_fields(
                                    row@,
                                )[j2 - base.len()]);
                            }
                        }
                    }
                    return Err(TmxError::TypeCoercion(tok.to_owned()));
                },
            }
            fk += 1;
        }
        rj += 1;
        proof {
            assert(rowviews.take(rj as int) =~= rowviews.take(rjq + 1));
            assert forall|k: int| 0 <= k < out@.len() implies spec_parse_u32(
                #[trigger] flat_fields(rowviews.take(rj as int))[k],
            ) is Some by {
                assert(flat_fields(rowviews.take(rj as int))[k] == (base + row_fields(row@))[k]);
                if k < base.len() {
                    assert((base + row_fields(row@))[k] == base[k]);
                } else {
                    assert((base + row_fields(row@))[k] == row_fields(row@)[k - base.len()]);
                }
            }
            assert forall|k: int| 0 <= k < out@.len() implies #[trigger] out@[k] == spec_parse_u32(
                flat_fields(rowviews.take(rj as int))[k],
            )->Some_0 by {
                assert(flat_fields(rowviews.take(rj as int))[k] == (base + row_fields(row@))[k]);
                if k < base.len() {
                    assert((base + row_fields(row@))[k] == base[k]);
                } else {
                    assert((base + row_fields(row@))[k] == row_fields(row@)[k - base.len()]);
                }
            }
        }
    }
    proof {
        assert(rowviews.take(nr as int) =~= rowviews);
        assert forall|k: int| 0 <= k < csv_fields(i@).len() implies spec_parse_u32(
            #[trigger] csv_fields(i@)[k],
        ) is Some by {
            assert(csv_fields(i@)[k] == flat_fields(rowviews.take(nr as int))[k]);
        }
        assert forall|k: int| 0 <= k < out@.len() implies #[trigger] out@[k] == spec_parse_u32(
            csv_fields(i@)[k],
        )->Some_0 by {
            assert(csv_fields(i@)[k] == flat_fields(rowviews.take(nr as int))[k]);
        }
    }
    proof {
        assert(rowviews.take(nr as int) =~= rowviews);
    }
    Ok(out)
}

/// A shorter flattened row list is a prefix of a longer one.
proof fn lemma_flat_fields_prefix(rows: Seq<Seq<char>>, rj: int)
    requires
        0 <= rj <= rows.len(),
    ensures
        flat_fields(rows.take(rj)).len() <= flat_fields(rows).len(),
        forall|k: int|
            0 <= k < flat_fields(rows.take(rj)).len() ==> #[trigger] flat_fields(rows)[k]
                == flat_fields(rows.take(rj))[k],
    decreases rows.len() - rj,
{
    if rj == rows.len() {
        assert(rows.take(rj) =~= rows);
    } else {
        lemma_flat_fields_step(rows, rj);
        lemma_flat_fields_prefix(rows, rj + 1);
        assert forall|k: int| 0 <= k < flat_fields(rows.take(rj)).len() implies #[trigger]
        flat_fields(rows)[k] == flat_fields(rows.take(rj))[k] by {
            assert(flat_fields(rows.take(rj + 1))[k] == (flat_fields(rows.take(rj)) + row_fields(
                rows[rj],
            ))[k]);
        }
    }
}

/// A rectangular grid of packed 32-bit tile references decoded from CSV
/// text, stored row-major: the cell at `(col, row)` is
/// `cells[row * cols + col]`, rows from the top, as the authoring tool
/// writes them.
#[derive(Debug, PartialEq)]
pub struct CsvGrid {
    pub cols: usize,
    pub rows: usize,
    pub cells: Vec<u32>,
}

impl CsvGrid {
    /// A grid is well formed when its cell count matches its dimensions.
    pub open spec fn wf(self) -> bool {
        &&& self.cols > 0
        &&& self.cells@.len() == self.rows * self.cols
    }
}

/// Decodes a CSV tile-reference text into a rectangular grid.  The column
/// count comes from the first row that holds more than whitespace; the total
/// field count must divide evenly by it.  Rejected: a text with no such row
/// or an uneven count (`BadShape`), and any field that is no unsigned 32-bit
/// number (`TypeCoercion`, carrying the field's text).
pub fn parse_tiles_csv(i: &str) -> (r: Result<CsvGrid, TmxError>)
    ensures
        match r {
            Ok(g) => {
                &&& g.wf()
                &&& csv_rows(i@).len() > 0
                &&& g.cols == row_fields(csv_rows(i@)[0]).len()
                &&& g.cells@.len() == csv_fields(i@).len()
                &&& forall|k: int|
                    0 <= k < g.cells@.len() ==> spec_parse_u32(
                        #[trigger] csv_fields(i@)[k],
                    ) is Some
                &&& forall|k: int|
                    0 <= k < g.cells@.len() ==> #[trigger] g.cells@[k] == spec_parse_u32(
                        csv_fields(i@)[k],
                    )->Some_0
            },
            Err(e) => match e {
                TmxError::BadShape => csv_rows(i@).len() == 0 || ((forall|k: int|
                    0 <= k < csv_fields(i@).len() ==> spec_parse_u32(
                        #[trigger] csv_fields(i@)[k],
                    ) is Some) && csv_fields(i@).len() % row_fields(csv_rows(i@)[0]).len() != 0),
                TmxError::TypeCoercion(t) => exists|k: int|
                    {
                        &&& 0 <= k < csv_fields(i@).len()
                        &&& spec_parse_u32(#[trigger] csv_fields(i@)[k]) is None
                        &&& forall|j: int|
                            0 <= j < k ==> spec_parse_u32(#[trigger] csv_fields(i@)[j]) is Some
                        &&& t@ == csv_fields(i@)[k]
                    },
                _ => false,
            },
        },
{
    let lines = split_parts(i, '\n');
    let nl = lines.len();
    let mut first_row: Option<&str> = None;
    proof {
        assert(views_of(lines@).take(0) =~= Seq::<Seq<char>>::empty());
    }
    let mut j: usize = 0;
    while j < nl
        invariant
            j <= nl,
            nl == lines@.len(),
            views_of(lines@) == split_char(i@, '\n'),
            match first_row {
                Some(row) => csv_rows(i@).len() > 0 && row@ == csv_rows(i@)[0],
                None => nonblank(views_of(lines@).take(j as int)).len() == 0,
            },
        decreases nl - j,
    {
        if first_row.is_none() {
            let line = lines[j];
            proof {
                assert(views_of(lines@).take(j + 1).drop_last() =~= views_of(lines@).take(
                    j as int,
                ));
                assert(views_of(lines@).take(j + 1).last() == line@);
            }
            if !is_blank_str(line) {
                first_row = Some(line);
                proof {
                    let pre = views_of(lines@).take(j + 1);
                    lemma_nonblank_prefix(views_of(lines@), j + 1);
                    assert(nonblank(pre)[0] == line@);
                }
            }
        }
        j += 1;
    }
    let row0 = match first_row {
        None => {
            proof {
                assert(views_of(lines@).take(nl as int) =~= views_of(lines@));
            }
            return Err(TmxError::BadShape);
        },
        Some(row) => row,
    };
    let first_fields = split_parts(row0, ',');
    let cols = first_fields.len();
    proof {
        lemma_split_char_len_pos(row0@, ',');
        assert(cols == row_fields(csv_rows(i@)[0]).len());
    }
    let cells = match csv_root(i) {
        Ok(cells) => cells,
        Err(e) => {
            return Err(e);
        },
    };
    if cells.len() % cols != 0 {
        return Err(TmxError::BadShape);
    }
    let nrows = cells.len() / cols;
    proof {
        assert((cells@.len() as int / cols as int) * cols as int == cells@.len() as int)
            by (nonlinear_arith)
            requires
                cols > 0,
                cells@.len() as int % cols as int == 0,
        {
        }
    }
    Ok(CsvGrid { cols, rows: nrows, cells })
}

/// The index of the first whitespace character, or the length.
pub open spec fn first_space(s: Seq<char>) -> int
    decreases s.len(),
{
    if s.len() == 0 {
        0
    } else if is_space(s[0]) {
        0
    } else {
        1 + first_space(s.skip(1))
    }
}

proof fn lemma_first_space_is(s: Seq<char>, k: int)
    requires
        0 <= k <= s.len(),
        k < s.len() ==> is_space(s[k]),
        forall|j: int| 0 <= j < k ==> !is_space(#[trigger] s[j]),
    ensures
        first_space(s) == k,
    decreases s.len(),
{
    if s.len() == 0 {
    } else if is_space(s[0]) {
        assert(k == 0);
    } else {
        assert(k >= 1);
        assert forall|j: int| 0 <= j < k - 1 implies !is_space(#[trigger] s.skip(1)[j]) by {
            assert(s.skip(1)[j] == s[j + 1]);
        }
        assert(k - 1 < s.skip(1).len() ==> s.skip(1)[k - 1] == s[k]);
        lemma_first_space_is(s.skip(1), k - 1);
    }
}

proof fn lemma_first_space_bounds(s: Seq<char>)
    ensures
        0 <= first_space(s) <= s.len(),
        s.len() > 0 && !is_space(s[0]) ==> first_space(s) >= 1,
    decreases s.len(),
{
    if s.len() > 0 && !is_space(s[0]) {
        lemma_first_space_bounds(s.skip(1));
    }
}

/// The maximal whitespace-free words of `s`, in order, none empty.
pub open spec fn ws_tokens(s: Seq<char>) -> Seq<Seq<char>>
    decreases s.len()
        via ws_tokens_decreases
{
    if s.len() == 0 {
        Seq::empty()
    } else if is_space(s[0]) {
        ws_tokens(s.skip(1))
    } else {
        seq![s.take(first_space(s))] + ws_tokens(s.skip(first_space(s)))
    }
}

#[via_fn]
proof fn ws_tokens_decreases(s: Seq<char>) {
    if s.len() > 0 && !is_space(s[0]) {
        lemma_first_space_bounds(s);
    }
}

/// Splits `s` into its maximal whitespace-free words.
pub fn ws_split_parts<'a>(s: &'a str) -> (r: Vec<&'a str>)
    ensures
        views_of(r@) == ws_tokens(s@),
    decreases s@.len(),
{
    let n = s.unicode_len();
    if n == 0 {
        let r: Vec<&'a str> = Vec::new();
        proof {
            assert(views_of(r@) =~= ws_tokens(s@));
        }
        return r;
    }
    if is_space_char(s.get_char(0)) {
        let rest = s.substring_char(1, n);
        proof {
            assert(rest@ =~= s@.skip(1));
        }
        let r = ws_split_parts(rest);
        proof {
            assert(views_of(r@) =~= ws_tokens(s@));
        }
        r
    } else {
        let mut k: usize = 1;
        while k < n && !is_space_char(s.get_char(k))
            invariant
                1 <= k <= n,
                n == s@.len(),
                !is_space(s@[0]),
                forall|j: int| 0 <= j < k ==> !is_space(#[trigger] s@[j]),
            decreases n - k,
        {
            k += 1;
        }
        proof {
            lemma_first_space_is(s@, k as int);
        }
        let head = s.substring_char(0, k);
        let tail = s.substring_char(k, n);
        let mut r = ws_split_parts(tail);
        r.insert(0, head);
        proof {
            assert(head@ =~= s@.take(k as int));
            assert(tail@ =~= s@.skip(k as int));
            assert(views_of(r@) =~= seq![s@.take(k as int)] + ws_tokens(s@.skip(k as int)));
        }
        r
    }
}

/// What one `x,y` word denotes: two decimals split at the first comma.
pub open spec fn spec_parse_pair(tok: Seq<char>) -> Option<PairDec> {
    let k = first_index(tok, ',');
    if k < tok.len() {
        match (spec_parse_decimal(tok.take(k)), spec_parse_decimal(tok.skip(k + 1))) {
            (Some(x), Some(y)) => Some((x, y)),
            _ => None,
        }
    } else {
        None
    }
}

/// Parses a `points` attribute: whitespace-separated `x,y` pairs of decimal
/// coordinates, at least one.  Rejected: a text with no words (`Malformed`)
/// and any word that is no coordinate pair (`TypeCoercion`, carrying it).
pub fn parse_spaced_f32_pairs(i: &str) -> (r: Result<Vec<PairDec>, TmxError>)
    ensures
        match r {
            Ok(v) => {
                &&& ws_tokens(i@).len() > 0
                &&& v@.len() == ws_tokens(i@).len()
                &&& forall|k: int|
                    0 <= k < v@.len() ==> spec_parse_pair(#[trigger] ws_tokens(i@)[k]) is Some
                &&& forall|k: int|
                    0 <= k < v@.len() ==> #[trigger] v@[k] == spec_parse_pair(
                        ws_tokens(i@)[k],
                    )->Some_0
            },
            Err(e) => match e {
                TmxError::Malformed => ws_tokens(i@).len() == 0,
                TmxError::TypeCoercion(t) => exists|k: int|
                    {
                        &&& 0 <= k < ws_tokens(i@).len()
                        &&& spec_parse_pair(#[trigger] ws_tokens(i@)[k]) is None
                        &&& forall|j: int|
                            0 <= j < k ==> spec_parse_pair(#[trigger] ws_tokens(i@)[j]) is Some
                        &&& t@ == ws_tokens(i@)[k]
                    },
                _ => false,
            },
        },
{
    let toks = ws_split_parts(i);
    let nt = toks.len();
    if nt == 0 {
        return Err(TmxError::Malformed);
    }
    let mut out: Vec<PairDec> = Vec::new();
    let mut ti: usize = 0;
    while ti < nt
        invariant
            ti <= nt,
            nt == toks@.len(),
            views_of(toks@) == ws_tokens(i@),
            out@.len() == ti,
            forall|k: int|
                0 <= k < ti ==> spec_parse_pair(#[trigger] ws_tokens(i@)[k]) is Some,
            forall|k: int|
                0 <= k < ti ==> #[trigger] out@[k] == spec_parse_pair(ws_tokens(i@)[k])->Some_0,
        decreases nt - ti,
    {
        let tok = toks[ti];
        proof {
            assert(tok@ == ws_tokens(i@)[ti as int]);
        }
        let m = tok.unicode_len();
        let mut k: usize = 0;
        while k < m && tok.get_char(k) != ','
            invariant
                k <= m,
                m == tok@.len(),
                forall|j: int| 0 <= j < k ==> tok@[j] != ',',
            decreases m - k,
        {
            k += 1;
        }
        proof {
            lemma_first_index_is(tok@, ',', k as int);
        }
        if k == m {
            return Err(TmxError::TypeCoercion(tok.to_owned()));
        }
        let xs = tok.substring_char(0, k);
        let ys = tok.substring_char(k + 1, m);
        proof {
            assert(xs@ =~= tok@.take(k as int));
            assert(ys@ =~= tok@.skip(k as int + 1));
        }
        let x = decimal_parse(xs);
        let y = decimal_parse(ys);
        match (x, y) {
            (Some(xv), Some(yv)) => {
                out.push((xv, yv));
            },
            _ => {
                return Err(TmxError::TypeCoercion(tok.to_owned()));
            },
        }
        ti += 1;
    }
    Ok(out)
}

/// The first element a nonblank filter keeps is the first nonblank line.
proof fn lemma_nonblank_prefix(lines: Seq<Seq<char>>, j: int)
    requires
        0 < j <= lines.len(),
        nonblank(lines.take(j)).len() > 0,
    ensures
        nonblank(lines).len() > 0,
        nonblank(lines)[0] == nonblank(lines.take(j))[0],
    decreases lines.len() - j,
{
    if j == lines.len() {
        assert(lines.take(j) =~= lines);
    } else {
        assert(lines.take(j + 1).drop_last() =~= lines.take(j));
        lemma_nonblank_prefix(lines, j + 1);
    }
}

} // verus!
