//! Canonical transaction records and the exchange adapter that produces them
//! from raw export rows.
//!
//! All amounts are fixed-point: an `i64` counts units of `1 / UNIT_SCALE` of a
//! coin, so the decimal strings of an export row are represented exactly.

use vstd::prelude::*;

verus! {

/// Number of fixed-point units in one whole coin (ten decimal digits).
pub const UNIT_SCALE: i64 = 10_000_000_000;

/// The kind of event a transaction records.
#[derive(Debug, Clone, Copy, PartialEq, Eq, Structural)]
pub enum TransactionType {
    Buy,
    Sell,
    Income,
    Convert,
}

/// Destination side of a Convert transaction: the asset received and the
/// amount received, in fixed-point units.
#[derive(Debug, PartialEq)]
pub struct CoinConversion {
    pub name: String,
    pub quantity: i64,
}

/// One parsed exchange row. `quantity` is stored positive; the sign of its
/// effect on an account is determined by `action`. `conversion_to` is present
/// exactly when `action` is `Convert`.
#[derive(Debug)]
pub struct Transaction {
    pub timestamp: i64,
    pub action: TransactionType,
    pub asset: String,
    pub quantity: i64,
    pub price: i64,
    pub conversion_to: Option<CoinConversion>,
}

/// Mathematical content of a `CoinConversion`.
pub ghost struct ConvModel {
    pub name: Seq<char>,
    pub quantity: int,
}

/// Mathematical content of a `Transaction`.
pub ghost struct TxModel {
    pub timestamp: int,
    pub action: TransactionType,
    pub asset: Seq<char>,
    pub quantity: int,
    pub price: int,
    pub conversion_to: Option<ConvModel>,
}

impl CoinConversion {
    pub open spec fn model(self) -> ConvModel {
        ConvModel { name: self.name@, quantity: self.quantity as int }
    }
}

impl Clone for CoinConversion {
    fn clone(&self) -> (r: Self)
        ensures
            r == *self,
    {
        CoinConversion { name: self.name.clone(), quantity: self.quantity }
    }
}

impl Transaction {
    pub open spec fn model(self) -> TxModel {
        TxModel {
            timestamp: self.timestamp as int,
            action: self.action,
            asset: self.asset@,
            quantity: self.quantity as int,
            price: self.price as int,
            conversion_to: match self.conversion_to {
                Some(c) => Some(c.model()),
                None => None,
            },
        }
    }

    /// A record is well formed when its magnitude is stored positive and the
    /// conversion side is present exactly for Convert actions.
    pub open spec fn wf(self) -> bool {
        &&& self.quantity >= 0
        &&& match self.action {
            TransactionType::Convert => match self.conversion_to {
                Some(c) => c.quantity >= 0,
                None => false,
            },
            _ => self.conversion_to is None,
        }
    }
}

impl Clone for Transaction {
    fn clone(&self) -> (r: Self)
        ensures
            r == *self,
    {
        let conversion_to = match &self.conversion_to {
            Some(c) => Some(c.clone()),
            None => None,
        };
        Transaction {
            timestamp: self.timestamp,
            action: self.action,
            asset: self.asset.clone(),
            quantity: self.quantity,
            price: self.price,
            conversion_to,
        }
    }
}

/// Errors of the exchange adapter. Any of them aborts the whole run.
#[derive(Debug, Clone, Copy, PartialEq, Eq, Structural)]
pub enum TransactionError {
    /// The action keyword of a row is not in the exchange's vocabulary.
    UnknownAction,
    /// The requested exchange has no adapter.
    UnsupportedExchange,
    /// The timestamp field of a row is not a valid RFC 3339 date-and-time.
    TimeParseError,
    /// A numeric field of a row is not a valid fixed-point decimal.
    NumericParseError,
    /// A row has too few fields for the exchange's column layout.
    MalformedLine,
}

/// The fields of a text split at every occurrence of a delimiter: always at
/// least one field, with empty fields kept, as `str::split` yields them.
pub open spec fn split_chars(s: Seq<char>, d: char) -> Seq<Seq<char>>
    decreases s.len(),
{
    if s.len() == 0 {
        seq![Seq::<char>::empty()]
    } else if s[0] == d {
        seq![Seq::<char>::empty()] + split_chars(s.drop_first(), d)
    } else {
        let rest = split_chars(s.drop_first(), d);
        seq![seq![s[0]] + rest[0]] + rest.drop_first()
    }
}

pub proof fn lemma_split_chars_len(s: Seq<char>, d: char)
    ensures
        split_chars(s, d).len() >= 1,
    decreases s.len(),
{
    if s.len() == 0 {
    } else {
        lemma_split_chars_len(s.drop_first(), d);
    }
}

/// A text without the delimiter splits to the one field that is the text.
pub proof fn lemma_split_chars_no_delim(s: Seq<char>, d: char)
    requires
        forall|i: int| 0 <= i < s.len() ==> s[i] != d,
    ensures
        split_chars(s, d) == seq![s],
    decreases s.len(),
{
    if s.len() == 0 {
        assert(s =~= Seq::<char>::empty());
        assert(split_chars(s, d) =~= seq![s]);
    } else {
        let tail = s.drop_first();
        assert(forall|i: int| 0 <= i < tail.len() ==> tail[i] != d);
        lemma_split_chars_no_delim(tail, d);
        let rest = split_chars(tail, d);
        assert(rest[0] == tail);
        assert(seq![s[0]] + tail =~= s);
        assert(rest.drop_first() =~= Seq::<Seq<char>>::empty());
        assert(split_chars(s, d) =~= seq![s]);
    }
}

/// Splitting at the first occurrence of the delimiter: the field before it,
/// then the fields of what follows it.
pub proof fn lemma_split_chars_first(s: Seq<char>, d: char, k: int)
    requires
        0 <= k < s.len(),
        s[k] == d,
        forall|i: int| 0 <= i < k ==> s[i] != d,
    ensures
        split_chars(s, d) == seq![s.take(k)] + split_chars(s.skip(k + 1), d),
    decreases k,
{
    if k == 0 {
        assert(s.drop_first() =~= s.skip(1));
        assert(s.take(0) =~= Seq::<char>::empty());
        assert(split_chars(s, d) =~= seq![s.take(0)] + split_chars(s.skip(1), d));
    } else {
        let tail = s.drop_first();
        assert(tail[k - 1] == d);
        assert(forall|i: int| 0 <= i < k - 1 ==> tail[i] != d);
        lemma_split_chars_first(tail, d, k - 1);
        let rest = split_chars(tail, d);
        assert(tail.skip(k) =~= s.skip(k + 1));
        assert(rest[0] == tail.take(k - 1));
        assert(seq![s[0]] + tail.take(k - 1) =~= s.take(k));
        assert(rest.drop_first() =~= split_chars(s.skip(k + 1), d));
        assert(split_chars(s, d) =~= seq![s.take(k)] + split_chars(s.skip(k + 1), d));
    }
}

/// The delimiter a caller asked for, a comma by default.
pub open spec fn delim_or_comma(delimeter: Option<char>) -> char {
    match delimeter {
        Some(c) => c,
        None => ',',
    }
}

/// Splits a text at every occurrence of the delimiter (a comma when none is
/// given), keeping empty fields.
pub fn split_string(string: &str, delimeter: Option<char>) -> (r: Vec<String>)
    ensures
        r.deep_view() == split_chars(string@, delim_or_comma(delimeter)),
        r@.len() >= 1,
{
    let d = match delimeter {
        Some(c) => c,
        None => ',',
    };
    let n = string.unicode_len();
    let mut out: Vec<String> = Vec::new();
    let mut start: usize = 0;
    let mut i: usize = 0;
    proof {
        assert(out.deep_view() =~= Seq::<Seq<char>>::empty());
        assert(string@.skip(0) =~= string@);
        assert(out.deep_view() + split_chars(string@, d) =~= split_chars(string@, d));
    }
    while i < n
        invariant
            start <= i <= n,
            n == string@.len(),
            forall|j: int| start <= j < i ==> string@[j] != d,
            split_chars(string@, d) == out.deep_view() + split_chars(
                string@.skip(start as int),
                d,
            ),
        decreases n - i,
    {
        if string.get_char(i) == d {
            let ghost out0 = out;
            let field = string.substring_char(start, i).to_owned();
            out.push(field);
            proof {
                let tail = string@.skip(start as int);
                lemma_split_chars_first(tail, d, i - start);
                assert(tail.take(i - start) =~= string@.subrange(start as int, i as int));
                assert(tail.skip(i - start + 1) =~= string@.skip(i + 1));
                assert(out.deep_view() =~= out0.deep_view().push(field@));
                assert(out.deep_view() + split_chars(string@.skip(i + 1), d) =~= out0.deep_view()
                    + split_chars(tail, d));
            }
            start = i + 1;
        }
        i += 1;
    }
    let ghost out0 = out;
    let field = string.substring_char(start, n).to_owned();
    out.push(field);
    proof {
        let tail = string@.skip(start as int);
        lemma_split_chars_no_delim(tail, d);
        assert(tail =~= string@.subrange(start as int, n as int));
        assert(out.deep_view() =~= out0.deep_view().push(field@));
        assert(out.deep_view() =~= out0.deep_view() + split_chars(tail, d));
    }
    out
}

/// Splits one export row into its comma-separated fields.
pub fn split_csv_line(line: &str) -> (r: Vec<String>)
    ensures
        r.deep_view() == split_chars(line@, ','),
        r@.len() >= 1,
{
    split_string(line, None)
}

/// Whether a character is a decimal digit.
pub open spec fn is_digit(c: char) -> bool {
    48 <= (c as u32) && (c as u32) <= 57
}

/// Numeric value of a decimal digit.
pub open spec fn digit_val(c: char) -> int {
    (c as u32) as int - 48
}

pub open spec fn all_digits(s: Seq<char>) -> bool {
    forall|i: int| 0 <= i < s.len() ==> is_digit(#[trigger] s[i])
}

/// Value of a string of decimal digits, most significant first.
pub open spec fn digits_val(s: Seq<char>) -> int
    decreases s.len(),
{
    if s.len() == 0 {
        0
    } else {
        digits_val(s.drop_last()) * 10 + digit_val(s.last())
    }
}

pub open spec fn pow10(n: nat) -> int
    decreases n,
{
    if n == 0 {
        1
    } else {
        10 * pow10((n - 1) as nat)
    }
}

pub proof fn lemma_pow10_pos(n: nat)
    ensures
        pow10(n) >= 1,
    decreases n,
{
    if n > 0 {
        lemma_pow10_pos((n - 1) as nat);
    }
}

pub proof fn lemma_pow10_adds(a: nat, b: nat)
    ensures
        pow10(a + b) == pow10(a) * pow10(b),
    decreases a,
{
    if a == 0 {
    } else {
        lemma_pow10_adds((a - 1) as nat, b);
        assert(pow10(a + b) == 10 * pow10((a + b - 1) as nat));
        assert(pow10(a) * pow10(b) == 10 * (pow10((a - 1) as nat) * pow10(b)))
            by (nonlinear_arith)
            requires pow10(a) == 10 * pow10((a - 1) as nat);
    }
}

/// Number of fields before or after the decimal point that the fixed-point
/// representation can hold exactly.
pub const MAX_WHOLE_DIGITS: usize = 8;

pub const MAX_FRAC_DIGITS: usize = 10;

/// Whether a string is a decimal numeral the fixed-point representation can
/// hold exactly: digits with at most one point, at least one digit in all,
/// at most eight digits before the point and ten after it.
pub open spec fn valid_decimal(s: Seq<char>) -> bool {
    let parts = split_chars(s, '.');
    &&& (parts.len() == 1 || parts.len() == 2)
    &&& all_digits(parts[0])
    &&& parts[0].len() <= MAX_WHOLE_DIGITS
    &&& (parts.len() == 2 ==> all_digits(parts[1]) && parts[1].len() <= MAX_FRAC_DIGITS)
    &&& parts[0].len() + (if parts.len() == 2 {
        parts[1].len()
    } else {
        0
    }) >= 1
}

/// The value of a valid decimal numeral, in fixed-point units.
pub open spec fn dec_value(s: Seq<char>) -> int {
    let parts = split_chars(s, '.');
    if parts.len() == 1 {
        digits_val(parts[0]) * (UNIT_SCALE as int)
    } else {
        digits_val(parts[0]) * (UNIT_SCALE as int) + digits_val(parts[1]) * pow10(
            (MAX_FRAC_DIGITS - parts[1].len()) as nat,
        )
    }
}

pub proof fn lemma_pow10_increases(a: nat, b: nat)
    requires
        a <= b,
    ensures
        pow10(a) <= pow10(b),
    decreases b,
{
    if a < b {
        lemma_pow10_increases(a, (b - 1) as nat);
        lemma_pow10_pos((b - 1) as nat);
        assert(pow10(b) == 10 * pow10((b - 1) as nat));
    }
}

proof fn lemma_pow10_concrete()
    ensures
        pow10(8) == 100_000_000,
        pow10(9) == 1_000_000_000,
        pow10(10) == 10_000_000_000,
{
    assert(pow10(0) == 1);
    assert(pow10(1) == 10);
    assert(pow10(2) == 100);
    assert(pow10(3) == 1000);
    assert(pow10(4) == 10_000);
    assert(pow10(5) == 100_000);
    assert(pow10(6) == 1_000_000);
    assert(pow10(7) == 10_000_000);
    assert(pow10(8) == 100_000_000);
    assert(pow10(9) == 1_000_000_000);
    assert(pow10(10) == 10_000_000_000);
}

/// Value of the run of digits `s[a..b]`.
fn digits_value(s: &str, a: usize, b: usize) -> (v: i64)
    requires
        a <= b <= s@.len(),
        b - a <= 10,
        forall|j: int| a <= j < b ==> is_digit(#[trigger] s@[j]),
    ensures
        v == digits_val(s@.subrange(a as int, b as int)),
        0 <= v < pow10((b - a) as nat),
{
    let mut acc: i64 = 0;
    let mut j = a;
    proof {
        assert(s@.subrange(a as int, a as int) =~= Seq::<char>::empty());
    }
    while j < b
        invariant
            a <= j <= b,
            b <= s@.len(),
            b - a <= 10,
            forall|j2: int| a <= j2 < b ==> is_digit(#[trigger] s@[j2]),
            acc == digits_val(s@.subrange(a as int, j as int)),
            0 <= acc < pow10((j - a) as nat),
        decreases b - j,
    {
        let cv = s.get_char(j) as u32;
        proof {
            assert(is_digit(s@[j as int]));
            lemma_pow10_increases((j - a) as nat, 9);
            lemma_pow10_concrete();
        }
        acc = acc * 10 + ((cv - 48) as i64);
        j += 1;
        proof {
            assert(s@.subrange(a as int, j as int).drop_last() =~= s@.subrange(
                a as int,
                j - 1,
            ));
            assert(s@.subrange(a as int, j as int).last() == s@[j - 1]);
            assert(pow10((j - a) as nat) == 10 * pow10((j - 1 - a) as nat));
        }
    }
    acc
}

/// Parses a decimal numeral into fixed-point units: `Ok` with the exact
/// value for every numeral `valid_decimal` admits, the numeric parse error
/// for everything else.
pub fn parse_units(s: &str) -> (r: Result<i64, TransactionError>)
    ensures
        match r {
            Ok(v) => valid_decimal(s@) && v as int == dec_value(s@) && v >= 0,
            Err(e) => !valid_decimal(s@) && e == TransactionError::NumericParseError,
        },
{
    let n = s.unicode_len();
    let mut i: usize = 0;
    let mut dot1: Option<usize> = None;
    let mut dot2: Option<usize> = None;
    let mut bad: Option<usize> = None;
    while i < n
        invariant
            i <= n,
            n == s@.len(),
            dot1 is None ==> (forall|j: int| 0 <= j < i ==> s@[j] != '.'),
            dot1 matches Some(d) ==> d < i && s@[d as int] == '.' && (forall|j: int|
                0 <= j < d ==> s@[j] != '.'),
            dot2 is Some ==> dot1 is Some,
            dot2 is None ==> (dot1 matches Some(d) ==> (forall|j: int|
                d < j < i ==> s@[j] != '.')),
            dot2 matches Some(d2) ==> (dot1 matches Some(d) && d < d2 < i && s@[d2 as int]
                == '.' && (forall|j: int| d < j < d2 ==> s@[j] != '.')),
            bad is None ==> (forall|j: int| 0 <= j < i ==> s@[j] == '.' || is_digit(s@[j])),
            bad matches Some(b) ==> b < i && s@[b as int] != '.' && !is_digit(s@[b as int]),
        decreases n - i,
    {
        let c = s.get_char(i);
        if c == '.' {
            if dot1.is_none() {
                dot1 = Some(i);
            } else if dot2.is_none() {
                dot2 = Some(i);
            }
        } else {
            let cv = c as u32;
            if !(48 <= cv && cv <= 57) {
                if bad.is_none() {
                    bad = Some(i);
                }
            }
        }
        i += 1;
    }
    if let Some(d2) = dot2 {
        let d1 = match dot1 {
            Some(d1) => d1,
            None => {
                proof {
                    assert(false);
                }
                0
            },
        };
        proof {
            lemma_split_chars_first(s@, '.', d1 as int);
            let tail = s@.skip(d1 as int + 1);
            assert(tail[d2 - d1 - 1] == '.');
            assert(forall|j: int| 0 <= j < d2 - d1 - 1 ==> tail[j] != '.');
            lemma_split_chars_first(tail, '.', d2 - d1 - 1);
            lemma_split_chars_len(tail.skip(d2 - d1), '.');
            assert(split_chars(s@, '.').len() >= 3);
        }
        return Err(TransactionError::NumericParseError);
    }
    if let Some(b) = bad {
        proof {
            let parts = split_chars(s@, '.');
            match dot1 {
                Some(d1) => {
                    lemma_split_chars_first(s@, '.', d1 as int);
                    lemma_split_chars_no_delim(s@.skip(d1 as int + 1), '.');
                    assert(parts =~= seq![s@.take(d1 as int), s@.skip(d1 as int + 1)]);
                    if (b as int) < d1 as int {
                        assert(parts[0][b as int] == s@[b as int]);
                        assert(!all_digits(parts[0]));
                    } else {
                        assert(b as int > d1 as int);
                        assert(parts[1][b - d1 - 1] == s@[b as int]);
                        assert(!all_digits(parts[1]));
                    }
                },
                None => {
                    lemma_split_chars_no_delim(s@, '.');
                    assert(parts[0][b as int] == s@[b as int]);
                    assert(!all_digits(parts[0]));
                },
            }
        }
        return Err(TransactionError::NumericParseError);
    }
    match dot1 {
        None => {
            proof {
                lemma_split_chars_no_delim(s@, '.');
                assert(forall|j: int| 0 <= j < s@.len() ==> is_digit(s@[j]));
            }
            if n > MAX_WHOLE_DIGITS || n == 0 {
                return Err(TransactionError::NumericParseError);
            }
            let v = digits_value(s, 0, n);
            proof {
                assert(s@.subrange(0, n as int) =~= s@);
                lemma_pow10_increases(n as nat, 8);
                lemma_pow10_concrete();
                assert(v * (UNIT_SCALE as int) <= 99_999_999 * (UNIT_SCALE as int))
                    by (nonlinear_arith)
                    requires 0 <= v <= 99_999_999;
                assert(v * (UNIT_SCALE as int) >= 0) by (nonlinear_arith)
                    requires v >= 0, UNIT_SCALE as int > 0;
            }
            Ok(v * UNIT_SCALE)
        },
        Some(d1) => {
            proof {
                lemma_split_chars_first(s@, '.', d1 as int);
                lemma_split_chars_no_delim(s@.skip(d1 as int + 1), '.');
                assert(split_chars(s@, '.') =~= seq![
                    s@.take(d1 as int),
                    s@.skip(d1 as int + 1),
                ]);
                assert(forall|j: int| 0 <= j < s@.len() && j != d1 as int ==> is_digit(s@[j]));
            }
            let whole_len = d1;
            let frac_len = n - d1 - 1;
            if whole_len > MAX_WHOLE_DIGITS || frac_len > MAX_FRAC_DIGITS || (whole_len == 0
                && frac_len == 0) {
                return Err(TransactionError::NumericParseError);
            }
            let wv = digits_value(s, 0, d1);
            let fv = digits_value(s, d1 + 1, n);
            proof {
                assert(s@.subrange(0, d1 as int) =~= s@.take(d1 as int));
                assert(s@.subrange(d1 as int + 1, n as int) =~= s@.skip(d1 as int + 1));
            }
            let mut p: i64 = 1;
            let mut k = frac_len;
            proof {
                lemma_pow10_concrete();
            }
            while k < MAX_FRAC_DIGITS
                invariant
                    frac_len <= k <= MAX_FRAC_DIGITS,
                    p == pow10((k - frac_len) as nat),
                    1 <= p,
                decreases MAX_FRAC_DIGITS - k,
            {
                proof {
                    lemma_pow10_increases((k - frac_len) as nat, 9);
                    lemma_pow10_concrete();
                }
                p = p * 10;
                k += 1;
            }
            proof {
                lemma_pow10_adds(frac_len as nat, (MAX_FRAC_DIGITS - frac_len) as nat);
                lemma_pow10_concrete();
                assert(pow10(frac_len as nat) * p == 10_000_000_000);
                assert(fv * p <= (pow10(frac_len as nat) - 1) * p) by (nonlinear_arith)
                    requires fv <= pow10(frac_len as nat) - 1, p >= 1;
                assert((pow10(frac_len as nat) - 1) * p == pow10(frac_len as nat) * p - p)
                    by (nonlinear_arith);
                assert(fv * p >= 0) by (nonlinear_arith)
                    requires fv >= 0, p >= 1;
                lemma_pow10_increases(whole_len as nat, 8);
                assert(wv * (UNIT_SCALE as int) <= 99_999_999 * (UNIT_SCALE as int))
                    by (nonlinear_arith)
                    requires 0 <= wv <= 99_999_999;
                assert(wv * (UNIT_SCALE as int) >= 0) by (nonlinear_arith)
                    requires wv >= 0, UNIT_SCALE as int > 0;
            }
            Ok(wv * UNIT_SCALE + fv * p)
        },
    }
}

/// Character-for-character equality of two string slices.
pub fn str_eq(a: &str, b: &str) -> (r: bool)
    ensures
        r == (a@ == b@),
{
    let a_len = a.unicode_len();
    let b_len = b.unicode_len();
    if a_len != b_len {
        return false;
    }
    let mut i: usize = 0;
    while i < a_len
        invariant
            i <= a_len,
            a_len == a@.len(),
            a_len == b@.len(),
            forall|j: int| 0 <= j < i ==> a@[j] == b@[j],
        decreases a_len - i,
    {
        if a.get_char(i) != b.get_char(i) {
            return false;
        }
        i += 1;
    }
    proof {
        assert(a@ =~= b@);
    }
    true
}

/// A text with every double-quote character dropped.
pub open spec fn without_quotes(s: Seq<char>) -> Seq<char>
    decreases s.len(),
{
    if s.len() == 0 {
        Seq::empty()
    } else if s.last() == '"' {
        without_quotes(s.drop_last())
    } else {
        without_quotes(s.drop_last()).push(s.last())
    }
}

/// Copies a string, dropping every double-quote character.
fn remove_quotes(s: &str) -> (r: String)
    ensures
        r@ == without_quotes(s@),
{
    let n = s.unicode_len();
    let mut out = String::new();
    let mut i: usize = 0;
    proof {
        assert(s@.take(0) =~= Seq::<char>::empty());
    }
    while i < n
        invariant
            i <= n,
            n == s@.len(),
            out@ == without_quotes(s@.take(i as int)),
        decreases n - i,
    {
        let c = s.get_char(i);
        if c != '"' {
            out.append(s.substring_char(i, i + 1));
        }
        i += 1;
        proof {
            assert(s@.take(i as int).drop_last() =~= s@.take(i - 1));
            assert(s@.take(i as int).last() == s@[i - 1]);
            assert(s@.subrange(i - 1, i as int) =~= seq![s@[i - 1]]);
        }
    }
    proof {
        assert(s@.take(n as int) =~= s@);
    }
    out
}

/// Name of the one exchange this adapter understands.
pub open spec fn coinbase_exchange() -> Seq<char> {
    "coinbase"@
}

/// Action vocabulary of the coinbase export format.
pub open spec fn spec_coinbase_action(raw: Seq<char>) -> Result<
    TransactionType,
    TransactionError,
> {
    if raw == "Buy"@ {
        Ok(TransactionType::Buy)
    } else if raw == "Sell"@ {
        Ok(TransactionType::Sell)
    } else if raw == "Rewards Income"@ {
        Ok(TransactionType::Income)
    } else if raw == "Coinbase Earn"@ {
        Ok(TransactionType::Income)
    } else if raw == "Convert"@ {
        Ok(TransactionType::Convert)
    } else {
        Err(TransactionError::UnknownAction)
    }
}

/// Maps a raw action keyword of the coinbase format to its transaction type.
pub fn get_coinbase_action(raw_action: &str) -> (r: Result<TransactionType, TransactionError>)
    ensures
        r == spec_coinbase_action(raw_action@),
{
    if str_eq(raw_action, "Buy") {
        Ok(TransactionType::Buy)
    } else if str_eq(raw_action, "Sell") {
        Ok(TransactionType::Sell)
    } else if str_eq(raw_action, "Rewards Income") {
        Ok(TransactionType::Income)
    } else if str_eq(raw_action, "Coinbase Earn") {
        Ok(TransactionType::Income)
    } else if str_eq(raw_action, "Convert") {
        Ok(TransactionType::Convert)
    } else {
        Err(TransactionError::UnknownAction)
    }
}

pub open spec fn spec_action(fields: Seq<Seq<char>>, exchange: Seq<char>) -> Result<
    TransactionType,
    TransactionError,
> {
    if exchange != coinbase_exchange() {
        Err(TransactionError::UnsupportedExchange)
    } else if fields.len() < 2 {
        Err(TransactionError::MalformedLine)
    } else {
        spec_coinbase_action(fields[1])
    }
}

/// The transaction type named by a row's action field.
pub fn get_action_by_exchange(line_data: &Vec<String>, exchange: &str) -> (r: Result<
    TransactionType,
    TransactionError,
>)
    ensures
        r == spec_action(line_data.deep_view(), exchange@),
{
    if !str_eq(exchange, "coinbase") {
        return Err(TransactionError::UnsupportedExchange);
    }
    if line_data.len() < 2 {
        return Err(TransactionError::MalformedLine);
    }
    get_coinbase_action(line_data[1].as_str())
}

#[verifier::external_type_specification]
#[verifier::external_body]
pub struct ExParseError(chrono::ParseError);

/// What chrono's `DateTime::parse_from_rfc3339` followed by
/// `timestamp_millis` yields for a string: `None` when the string is not a
/// valid RFC 3339 date-and-time, otherwise the number of non-leap
/// milliseconds between it and 1970-01-01 UTC. Both steps compute from the
/// characters of the string alone.
pub uninterp spec fn rfc3339_millis(s: Seq<char>) -> Option<int>;

/// Relies on chrono's `DateTime::parse_from_rfc3339`, which accepts exactly
/// the RFC 3339 date-and-time strings, and `DateTime::timestamp_millis`;
/// their composition is a function of the input string named
/// `rfc3339_millis` here.
#[verifier::external_body]
fn parse_rfc3339_millis(s: &str) -> (r: Result<i64, chrono::ParseError>)
    ensures
        r matches Ok(ms) ==> rfc3339_millis(s@) == Some(ms as int),
        r is Ok <==> rfc3339_millis(s@) is Some,
{
    chrono::DateTime::parse_from_rfc3339(s).map(|d| d.timestamp_millis())
}

pub open spec fn spec_timestamp(fields: Seq<Seq<char>>, exchange: Seq<char>) -> Result<
    int,
    TransactionError,
> {
    if exchange != coinbase_exchange() {
        Err(TransactionError::UnsupportedExchange)
    } else if fields.len() < 1 {
        Err(TransactionError::MalformedLine)
    } else {
        match rfc3339_millis(fields[0]) {
            Some(ms) => Ok(ms),
            None => Err(TransactionError::TimeParseError),
        }
    }
}

/// The epoch timestamp, in milliseconds, of a row's date field.
pub fn get_timestamp_by_exchange(line_data: &Vec<String>, exchange: &str) -> (r: Result<
    i64,
    TransactionError,
>)
    ensures
        match r {
            Ok(ts) => spec_timestamp(line_data.deep_view(), exchange@) == Ok::<
                int,
                TransactionError,
            >(ts as int),
            Err(e) => spec_timestamp(line_data.deep_view(), exchange@) == Err::<
                int,
                TransactionError,
            >(e),
        },
{
    if !str_eq(exchange, "coinbase") {
        return Err(TransactionError::UnsupportedExchange);
    }
    if line_data.len() < 1 {
        return Err(TransactionError::MalformedLine);
    }
    match parse_rfc3339_millis(line_data[0].as_str()) {
        Ok(ms) => Ok(ms),
        Err(_) => Err(TransactionError::TimeParseError),
    }
}

pub open spec fn spec_asset(fields: Seq<Seq<char>>, exchange: Seq<char>) -> Result<
    Seq<char>,
    TransactionError,
> {
    if exchange != coinbase_exchange() {
        Err(TransactionError::UnsupportedExchange)
    } else if fields.len() < 3 {
        Err(TransactionError::MalformedLine)
    } else {
        Ok(fields[2])
    }
}

/// The asset identifier of a row.
pub fn get_asset_by_exchange(line_data: &Vec<String>, exchange: &str) -> (r: Result<
    String,
    TransactionError,
>)
    ensures
        match r {
            Ok(a) => spec_asset(line_data.deep_view(), exchange@) == Ok::<
                Seq<char>,
                TransactionError,
            >(a@),
            Err(e) => spec_asset(line_data.deep_view(), exchange@) == Err::<
                Seq<char>,
                TransactionError,
            >(e),
        },
{
    if !str_eq(exchange, "coinbase") {
        return Err(TransactionError::UnsupportedExchange);
    }
    if line_data.len() < 3 {
        return Err(TransactionError::MalformedLine);
    }
    Ok(line_data[2].clone())
}

pub open spec fn spec_quantity(fields: Seq<Seq<char>>, exchange: Seq<char>) -> Result<
    int,
    TransactionError,
> {
    if exchange != coinbase_exchange() {
        Err(TransactionError::UnsupportedExchange)
    } else if fields.len() < 4 {
        Err(TransactionError::MalformedLine)
    } else if !valid_decimal(fields[3]) {
        Err(TransactionError::NumericParseError)
    } else {
        Ok(dec_value(fields[3]))
    }
}

/// The transacted amount of a row, in fixed-point units.
pub fn get_quantity_by_exchange(line_data: &Vec<String>, exchange: &str) -> (r: Result<
    i64,
    TransactionError,
>)
    ensures
        match r {
            Ok(q) => spec_quantity(line_data.deep_view(), exchange@) == Ok::<
                int,
                TransactionError,
            >(q as int) && q >= 0,
            Err(e) => spec_quantity(line_data.deep_view(), exchange@) == Err::<
                int,
                TransactionError,
            >(e),
        },
{
    if !str_eq(exchange, "coinbase") {
        return Err(TransactionError::UnsupportedExchange);
    }
    if line_data.len() < 4 {
        return Err(TransactionError::MalformedLine);
    }
    parse_units(line_data[3].as_str())
}

pub open spec fn spec_price(fields: Seq<Seq<char>>, exchange: Seq<char>) -> Result<
    int,
    TransactionError,
> {
    if exchange != coinbase_exchange() {
        Err(TransactionError::UnsupportedExchange)
    } else if fields.len() < 7 {
        Err(TransactionError::MalformedLine)
    } else if !valid_decimal(fields[6]) {
        Err(TransactionError::NumericParseError)
    } else {
        Ok(dec_value(fields[6]))
    }
}

/// The unit price of a row, in fixed-point units; informational only.
pub fn get_price_by_exchange(line_data: &Vec<String>, exchange: &str) -> (r: Result<
    i64,
    TransactionError,
>)
    ensures
        match r {
            Ok(p) => spec_price(line_data.deep_view(), exchange@) == Ok::<
                int,
                TransactionError,
            >(p as int) && p >= 0,
            Err(e) => spec_price(line_data.deep_view(), exchange@) == Err::<
                int,
                TransactionError,
            >(e),
        },
{
    if !str_eq(exchange, "coinbase") {
        return Err(TransactionError::UnsupportedExchange);
    }
    if line_data.len() < 7 {
        return Err(TransactionError::MalformedLine);
    }
    parse_units(line_data[6].as_str())
}

pub open spec fn spec_conversion(fields: Seq<Seq<char>>, exchange: Seq<char>) -> Result<
    ConvModel,
    TransactionError,
> {
    if exchange != coinbase_exchange() {
        Err(TransactionError::UnsupportedExchange)
    } else if fields.len() < 1 {
        Err(TransactionError::MalformedLine)
    } else {
        let words = split_chars(fields.last(), ' ');
        if words.len() < 2 {
            Err(TransactionError::MalformedLine)
        } else if !valid_decimal(words[words.len() - 2]) {
            Err(TransactionError::NumericParseError)
        } else {
            Ok(
                ConvModel {
                    name: without_quotes(words.last()),
                    quantity: dec_value(words[words.len() - 2]),
                },
            )
        }
    }
}

/// The destination side of a Convert row, read from the trailing note field
/// ("Converted <amount> <asset> to <amount> <asset>"): the last word names
/// the destination asset, the word before it its amount.
pub fn get_conversion_to_by_exchange(line_data: &Vec<String>, exchange: &str) -> (r: Result<
    Option<CoinConversion>,
    TransactionError,
>)
    ensures
        match r {
            Ok(c) => c matches Some(cc) && spec_conversion(line_data.deep_view(), exchange@)
                == Ok::<ConvModel, TransactionError>(cc.model()) && cc.quantity >= 0,
            Err(e) => spec_conversion(line_data.deep_view(), exchange@) == Err::<
                ConvModel,
                TransactionError,
            >(e),
        },
{
    if !str_eq(exchange, "coinbase") {
        return Err(TransactionError::UnsupportedExchange);
    }
    if line_data.len() < 1 {
        return Err(TransactionError::MalformedLine);
    }
    let note = &line_data[line_data.len() - 1];
    let note_data = split_string(note.as_str(), Some(' '));
    if note_data.len() < 2 {
        return Err(TransactionError::MalformedLine);
    }
    let name = remove_quotes(note_data[note_data.len() - 1].as_str());
    let quantity = match parse_units(note_data[note_data.len() - 2].as_str()) {
        Ok(v) => v,
        Err(e) => {
            return Err(e);
        },
    };
    Ok(Some(CoinConversion { name, quantity }))
}

/// One row, parsed in the order the fields are needed: timestamp, action,
/// asset, amount, price, and, for a Convert row, the conversion side.
pub open spec fn spec_parse_line(line: Seq<char>, exchange: Seq<char>) -> Result<
    TxModel,
    TransactionError,
> {
    let fields = split_chars(line, ',');
    match spec_timestamp(fields, exchange) {
        Err(e) => Err(e),
        Ok(ts) => match spec_action(fields, exchange) {
            Err(e) => Err(e),
            Ok(action) => match spec_asset(fields, exchange) {
                Err(e) => Err(e),
                Ok(asset) => match spec_quantity(fields, exchange) {
                    Err(e) => Err(e),
                    Ok(quantity) => match spec_price(fields, exchange) {
                        Err(e) => Err(e),
                        Ok(price) => if action is Convert {
                            match spec_conversion(fields, exchange) {
                                Err(e) => Err(e),
                                Ok(c) => Ok(
                                    TxModel {
                                        timestamp: ts,
                                        action,
                                        asset,
                                        quantity,
                                        price,
                                        conversion_to: Some(c),
                                    },
                                ),
                            }
                        } else {
                            Ok(
                                TxModel {
                                    timestamp: ts,
                                    action,
                                    asset,
                                    quantity,
                                    price,
                                    conversion_to: None,
                                },
                            )
                        },
                    },
                },
            },
        },
    }
}

/// Parses one export row into a transaction record. The result is exactly
/// what `spec_parse_line` says: a well-formed record on success, the first
/// field's error otherwise.
pub fn create_transaction_from_line(line: &str, exchange: &str) -> (r: Result<
    Transaction,
    TransactionError,
>)
    ensures
        match r {
            Ok(t) => spec_parse_line(line@, exchange@) matches Ok(m) && t.model() == m
                && t.wf(),
            Err(e) => spec_parse_line(line@, exchange@) == Err::<TxModel, TransactionError>(e),
        },
{
    let split_line = split_csv_line(line);
    let timestamp = match get_timestamp_by_exchange(&split_line, exchange) {
        Ok(v) => v,
        Err(e) => {
            return Err(e);
        },
    };
    let action = match get_action_by_exchange(&split_line, exchange) {
        Ok(v) => v,
        Err(e) => {
            return Err(e);
        },
    };
    let asset = match get_asset_by_exchange(&split_line, exchange) {
        Ok(v) => v,
        Err(e) => {
            return Err(e);
        },
    };
    let quantity = match get_quantity_by_exchange(&split_line, exchange) {
        Ok(v) => v,
        Err(e) => {
            return Err(e);
        },
    };
    let price = match get_price_by_exchange(&split_line, exchange) {
        Ok(v) => v,
        Err(e) => {
            return Err(e);
        },
    };
    let mut conversion_to: Option<CoinConversion> = None;
    if action == TransactionType::Convert {
        conversion_to = match get_conversion_to_by_exchange(&split_line, exchange) {
            Ok(v) => v,
            Err(e) => {
                return Err(e);
            },
        };
    }
    Ok(Transaction { timestamp, action, asset, quantity, price, conversion_to })
}

} // verus!
