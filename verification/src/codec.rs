//! The record codec: splitting delimited text into fields, reading and
//! writing 64-bit integers in decimal, and parsing one record line.

use vstd::prelude::*;

verus! {

/// The byte that separates fields within a record line.
pub const COMMA: u8 = 44;

/// The byte that separates record lines within a persisted file.
pub const NEWLINE: u8 = 10;

/// Index of the first occurrence of `sep` in `s`, or `s.len()` if none.
pub open spec fn first_sep(s: Seq<u8>, sep: u8) -> int
    decreases s.len(),
{
    if s.len() == 0 {
        0
    } else if s[0] == sep {
        0
    } else {
        1 + first_sep(s.skip(1), sep)
    }
}

pub proof fn lemma_first_sep_bounds(s: Seq<u8>, sep: u8)
    ensures
        0 <= first_sep(s, sep) <= s.len(),
        first_sep(s, sep) < s.len() ==> s[first_sep(s, sep)] == sep,
        forall|i: int| 0 <= i < first_sep(s, sep) ==> s[i] != sep,
    decreases s.len(),
{
    if s.len() == 0 {
    } else if s[0] == sep {
    } else {
        lemma_first_sep_bounds(s.skip(1), sep);
        assert forall|i: int| 0 <= i < first_sep(s, sep) implies s[i] != sep by {
            if i > 0 {
                assert(s.skip(1)[i - 1] == s[i]);
            }
        }
    }
}

/// `first_sep` is pinned by its characteristic properties: no separator
/// before position `e`, and a separator (or the end of `s`) at `e`.
pub proof fn lemma_first_sep_is(s: Seq<u8>, sep: u8, e: int)
    requires
        0 <= e <= s.len(),
        forall|i: int| 0 <= i < e ==> s[i] != sep,
        e < s.len() ==> s[e] == sep,
    ensures
        first_sep(s, sep) == e,
    decreases s.len(),
{
    if s.len() == 0 {
    } else if s[0] == sep {
        assert(e == 0);
    } else {
        assert(s[0] != sep);
        assert(e >= 1);
        assert forall|i: int| 0 <= i < e - 1 implies s.skip(1)[i] != sep by {
            assert(s.skip(1)[i] == s[i + 1]);
        }
        if e - 1 < s.skip(1).len() {
            assert(s.skip(1)[e - 1] == s[e]);
        }
        lemma_first_sep_is(s.skip(1), sep, e - 1);
    }
}

/// The fields of `s`, split on `sep`.  There is always at least one field;
/// the separator itself belongs to no field.
pub open spec fn spec_split(s: Seq<u8>, sep: u8) -> Seq<Seq<u8>>
    decreases s.len(),
    via lemma_split_decreases
{
    let e = first_sep(s, sep);
    if e >= s.len() {
        seq![s]
    } else {
        seq![s.take(e)] + spec_split(s.skip(e + 1), sep)
    }
}

#[via_fn]
proof fn lemma_split_decreases(s: Seq<u8>, sep: u8) {
    lemma_first_sep_bounds(s, sep);
}

/// The views of a sequence of byte vectors.
pub open spec fn views_of(v: Seq<Vec<u8>>) -> Seq<Seq<u8>> {
    v.map_values(|x: Vec<u8>| x@)
}

/// Splits `s` on the separator byte, as `spec_split` describes.
pub fn split_bytes(s: &[u8], sep: u8) -> (r: Vec<Vec<u8>>)
    ensures
        views_of(r@) == spec_split(s@, sep),
{
    let mut r: Vec<Vec<u8>> = Vec::new();
    let mut cur: Vec<u8> = Vec::new();
    let mut i: usize = 0;
    let ghost mut start: int = 0;
    proof {
        assert(views_of(r@) =~= Seq::<Seq<u8>>::empty());
        assert(s@.skip(0) =~= s@);
    }
    while i < s.len()
        invariant
            0 <= start <= i <= s@.len(),
            cur@ =~= s@.subrange(start, i as int),
            forall|j: int| start <= j < i ==> s@[j] != sep,
            spec_split(s@, sep) == views_of(r@) + spec_split(s@.skip(start), sep),
        decreases s@.len() - i,
    {
        let b = s[i];
        if b == sep {
            proof {
                let rest = s@.skip(start);
                assert forall|j: int| 0 <= j < i - start implies rest[j] != sep by {
                    assert(rest[j] == s@[start + j]);
                }
                assert(rest[i - start] == s@[i as int]);
                lemma_first_sep_is(rest, sep, i - start);
                assert(rest.take(i - start) =~= s@.subrange(start, i as int));
                assert(rest.skip(i - start + 1) =~= s@.skip(i + 1));
                assert(spec_split(rest, sep) == seq![cur@] + spec_split(s@.skip(i + 1), sep));
            }
            let ghost old_r = r@;
            r.push(cur);
            proof {
                assert(views_of(r@) =~= views_of(old_r).push(cur@));
                assert(views_of(old_r) + (seq![cur@] + spec_split(s@.skip(i + 1), sep))
                    =~= views_of(r@) + spec_split(s@.skip(i + 1), sep));
            }
            cur = Vec::new();
            proof {
                start = i + 1;
                assert(cur@ =~= s@.subrange(start, i + 1));
            }
        } else {
            cur.push(b);
            proof {
                assert(cur@ =~= s@.subrange(start, i + 1));
            }
        }
        i = i + 1;
    }
    proof {
        let rest = s@.skip(start);
        assert forall|j: int| 0 <= j < rest.len() implies rest[j] != sep by {
            assert(rest[j] == s@[start + j]);
        }
        lemma_first_sep_is(rest, sep, rest.len() as int);
        assert(rest =~= s@.subrange(start, s@.len() as int));
        assert(spec_split(rest, sep) == seq![cur@]);
    }
    let ghost old_r = r@;
    r.push(cur);
    proof {
        assert(views_of(r@) =~= views_of(old_r).push(cur@));
        assert(views_of(old_r) + seq![cur@] =~= views_of(r@));
    }
    r
}

/// ASCII whitespace, as trimmed from the final numeric field of a line.
pub open spec fn is_ws(b: u8) -> bool {
    b == 32 || b == 9 || b == 10 || b == 13 || b == 11 || b == 12
}

pub open spec fn trim_front(s: Seq<u8>) -> Seq<u8>
    decreases s.len(),
{
    if s.len() > 0 && is_ws(s[0]) {
        trim_front(s.skip(1))
    } else {
        s
    }
}

pub open spec fn trim_back(s: Seq<u8>) -> Seq<u8>
    decreases s.len(),
{
    if s.len() > 0 && is_ws(s.last()) {
        trim_back(s.drop_last())
    } else {
        s
    }
}

/// `s` without its leading and trailing ASCII whitespace.
pub open spec fn spec_trim(s: Seq<u8>) -> Seq<u8> {
    trim_back(trim_front(s))
}

fn is_ws_byte(b: u8) -> (r: bool)
    ensures
        r == is_ws(b),
{
    b == 32 || b == 9 || b == 10 || b == 13 || b == 11 || b == 12
}

/// Removes leading and trailing ASCII whitespace, as `spec_trim` describes.
pub fn trim_bytes(s: &[u8]) -> (r: Vec<u8>)
    ensures
        r@ == spec_trim(s@),
{
    let mut lo: usize = 0;
    proof {
        assert(s@.skip(0) =~= s@);
    }
    while lo < s.len() && is_ws_byte(s[lo])
        invariant
            0 <= lo <= s@.len(),
            trim_front(s@) == trim_front(s@.skip(lo as int)),
        decreases s@.len() - lo,
    {
        proof {
            assert(s@.skip(lo as int)[0] == s@[lo as int]);
            assert(s@.skip(lo as int).skip(1) =~= s@.skip(lo + 1));
        }
        lo = lo + 1;
    }
    proof {
        if lo < s@.len() {
            assert(s@.skip(lo as int)[0] == s@[lo as int]);
        }
        assert(trim_front(s@) == s@.skip(lo as int));
    }
    let mut hi: usize = s.len();
    proof {
        assert(s@.skip(lo as int) =~= s@.subrange(lo as int, hi as int));
    }
    while hi > lo && is_ws_byte(s[hi - 1])
        invariant
            lo <= hi <= s@.len(),
            trim_back(s@.skip(lo as int)) == trim_back(s@.subrange(lo as int, hi as int)),
        decreases hi,
    {
        proof {
            let part = s@.subrange(lo as int, hi as int);
            assert(part.last() == s@[hi - 1]);
            assert(part.drop_last() =~= s@.subrange(lo as int, hi - 1));
        }
        hi = hi - 1;
    }
    proof {
        let part = s@.subrange(lo as int, hi as int);
        if hi > lo {
            assert(part.last() == s@[hi - 1]);
        }
        assert(trim_back(part) == part);
    }
    let mut r: Vec<u8> = Vec::new();
    let mut i: usize = lo;
    while i < hi
        invariant
            lo <= i <= hi <= s@.len(),
            r@ =~= s@.subrange(lo as int, i as int),
        decreases hi - i,
    {
        r.push(s[i]);
        proof {
            assert(r@ =~= s@.subrange(lo as int, i + 1));
        }
        i = i + 1;
    }
    proof {
        assert(r@ =~= s@.subrange(lo as int, hi as int));
    }
    r
}

/// An ASCII decimal digit.
pub open spec fn is_digit(b: u8) -> bool {
    48 <= b <= 57
}

pub open spec fn all_digits(s: Seq<u8>) -> bool {
    forall|i: int| 0 <= i < s.len() ==> is_digit(#[trigger] s[i])
}

/// The value of a sequence of decimal digits.
pub open spec fn dec_val(s: Seq<u8>) -> int
    decreases s.len(),
{
    if s.len() == 0 {
        0
    } else {
        dec_val(s.drop_last()) * 10 + (s.last() - 48)
    }
}

pub open spec fn has_sign(s: Seq<u8>) -> bool {
    s.len() > 0 && (s[0] == 43 || s[0] == 45)
}

pub open spec fn is_neg(s: Seq<u8>) -> bool {
    s.len() > 0 && s[0] == 45
}

/// The digits of an integer text, after any single leading sign.
pub open spec fn digits_part(s: Seq<u8>) -> Seq<u8> {
    if has_sign(s) {
        s.skip(1)
    } else {
        s
    }
}

/// An optional `+` or `-` sign followed by at least one decimal digit.
pub open spec fn is_int_text(s: Seq<u8>) -> bool {
    digits_part(s).len() > 0 && all_digits(digits_part(s))
}

/// The signed value of an integer text.
pub open spec fn int_text_val(s: Seq<u8>) -> int {
    if is_neg(s) {
        -dec_val(digits_part(s))
    } else {
        dec_val(digits_part(s))
    }
}

/// An integer text whose value fits in an `i64`: exactly the texts that the
/// numeric fields of a record line accept.
pub open spec fn is_i64_text(s: Seq<u8>) -> bool {
    is_int_text(s) && i64::MIN <= int_text_val(s) <= i64::MAX
}

pub proof fn lemma_dec_val_nonneg(s: Seq<u8>)
    requires
        all_digits(s),
    ensures
        dec_val(s) >= 0,
    decreases s.len(),
{
    if s.len() > 0 {
        assert(is_digit(s[s.len() - 1]));
        lemma_dec_val_nonneg(s.drop_last());
    }
}

/// Extending a digit string to the right never decreases its value.
pub proof fn lemma_dec_val_prefix(s: Seq<u8>, n: int)
    requires
        all_digits(s),
        0 <= n <= s.len(),
    ensures
        dec_val(s.take(n)) <= dec_val(s),
    decreases s.len(),
{
    if n == s.len() {
        assert(s.take(n) =~= s);
    } else {
        assert(s.take(n) =~= s.drop_last().take(n));
        lemma_dec_val_prefix(s.drop_last(), n);
        lemma_dec_val_nonneg(s.drop_last());
        assert(is_digit(s[s.len() - 1]));
    }
}

/// Reads an `i64` from decimal text: a sign, then digits, rejecting any
/// other byte and any value outside the `i64` range.
pub fn parse_i64(s: &[u8]) -> (r: Option<i64>)
    ensures
        r is Some <==> is_i64_text(s@),
        r is Some ==> r->0 == int_text_val(s@),
{
    let mut start: usize = 0;
    let mut neg = false;
    if s.len() > 0 && (s[0] == 43 || s[0] == 45) {
        neg = s[0] == 45;
        start = 1;
    }
    proof {
        assert(digits_part(s@) =~= s@.skip(start as int));
    }
    if start == s.len() {
        return None;
    }
    let bound: i128 = if neg {
        9223372036854775808
    } else {
        9223372036854775807
    };
    let mut acc: i128 = 0;
    let mut i: usize = start;
    proof {
        assert(s@.subrange(start as int, start as int) =~= Seq::<u8>::empty());
    }
    while i < s.len()
        invariant
            start <= i <= s@.len(),
            0 <= acc <= bound,
            bound == if neg { 0x8000_0000_0000_0000i128 } else { 0x7fff_ffff_ffff_ffffi128 },
            acc == dec_val(s@.subrange(start as int, i as int)),
            all_digits(s@.subrange(start as int, i as int)),
            digits_part(s@) =~= s@.skip(start as int),
            neg == is_neg(s@),
        decreases s@.len() - i,
    {
        let b = s[i];
        if b < 48 || b > 57 {
            proof {
                assert(s@.skip(start as int)[i - start] == s@[i as int]);
                assert(!all_digits(digits_part(s@)));
            }
            return None;
        }
        proof {
            let part = s@.subrange(start as int, i + 1);
            assert(part.drop_last() =~= s@.subrange(start as int, i as int));
            assert(part.last() == s@[i as int]);
            assert forall|j: int| 0 <= j < part.len() implies is_digit(#[trigger] part[j]) by {
                if j < part.len() - 1 {
                    assert(part[j] == s@.subrange(start as int, i as int)[j]);
                }
            }
        }
        acc = acc * 10 + ((b - 48) as i128);
        i = i + 1;
        if acc > bound {
            proof {
                if is_i64_text(s@) {
                    let d = digits_part(s@);
                    assert(d =~= s@.skip(start as int));
                    assert(s@.subrange(start as int, i as int) =~= d.take(i - start));
                    lemma_dec_val_prefix(d, i - start);
                    lemma_dec_val_nonneg(d);
                }
            }
            return None;
        }
    }
    proof {
        assert(s@.subrange(start as int, s@.len() as int) =~= s@.skip(start as int));
        lemma_dec_val_nonneg(digits_part(s@));
    }
    if neg {
        Some((-acc) as i64)
    } else {
        Some(acc as i64)
    }
}

/// The decimal digits of a non-negative integer, most significant first.
pub open spec fn dec_digits(n: int) -> Seq<u8>
    decreases n,
{
    if n < 10 {
        seq![(48 + n) as u8]
    } else {
        dec_digits(n / 10) + seq![(48 + n % 10) as u8]
    }
}

/// The decimal text of an integer: a `-` sign for negative values, then the
/// digits of its magnitude.
pub open spec fn spec_i64_dec(n: int) -> Seq<u8> {
    if n < 0 {
        seq![45u8] + dec_digits(-n)
    } else {
        dec_digits(n)
    }
}

fn push_dec_u64(out: &mut Vec<u8>, n: u64)
    ensures
        final(out)@ == old(out)@ + dec_digits(n as int),
    decreases n,
{
    if n < 10 {
        out.push((48 + n) as u8);
        proof {
            assert(out@ =~= old(out)@ + dec_digits(n as int));
        }
    } else {
        push_dec_u64(out, n / 10);
        out.push((48 + (n % 10)) as u8);
        proof {
            assert(out@ =~= old(out)@ + dec_digits(n as int));
        }
    }
}

/// Appends the decimal text of `n`, as `spec_i64_dec` describes.
pub fn push_dec_i64(out: &mut Vec<u8>, n: i64)
    ensures
        final(out)@ == old(out)@ + spec_i64_dec(n as int),
{
    if n < 0 {
        out.push(45);
        let m: u64 = (-(n as i128)) as u64;
        push_dec_u64(out, m);
        proof {
            assert(out@ =~= old(out)@ + spec_i64_dec(n as int));
        }
    } else {
        push_dec_u64(out, n as u64);
    }
}

/// Copies a byte slice into a fresh vector.
pub fn copy_bytes(s: &[u8]) -> (r: Vec<u8>)
    ensures
        r@ == s@,
{
    let mut r: Vec<u8> = Vec::new();
    let mut i: usize = 0;
    while i < s.len()
        invariant
            0 <= i <= s@.len(),
            r@ =~= s@.subrange(0, i as int),
        decreases s@.len() - i,
    {
        r.push(s[i]);
        proof {
            assert(r@ =~= s@.subrange(0, i + 1));
        }
        i = i + 1;
    }
    proof {
        assert(r@ =~= s@);
    }
    r
}

/// Why a record line was rejected.
#[derive(Clone, Copy, Debug, PartialEq, Eq, Structural)]
pub enum ParseError {
    /// A numeric field was present but not the decimal text of an `i64`.
    BadInt,
    /// The name field was absent or empty.
    MissingName,
    /// The quantity field was absent.
    MissingQuantity,
    /// The final numeric field (outcome or price) was absent.
    MissingOutcome,
}

/// A record as carried by one line: identifier, name, quantity, and the
/// final numeric field (price for a catalog item, outcome for a cart line).
pub struct RawV {
    pub id: int,
    pub name: Seq<u8>,
    pub quantity: int,
    pub value: int,
}

/// What parsing one record line yields: the fields between commas, read
/// left to right, with the first failure reported.
pub open spec fn spec_parse_line(s: Seq<u8>) -> Result<RawV, ParseError> {
    let fs = spec_split(s, COMMA);
    if !is_i64_text(fs[0]) {
        Err(ParseError::BadInt)
    } else if fs.len() < 2 || fs[1].len() == 0 {
        Err(ParseError::MissingName)
    } else if fs.len() < 3 {
        Err(ParseError::MissingQuantity)
    } else if !is_i64_text(fs[2]) {
        Err(ParseError::BadInt)
    } else if fs.len() < 4 {
        Err(ParseError::MissingOutcome)
    } else if !is_i64_text(spec_trim(fs[3])) {
        Err(ParseError::BadInt)
    } else {
        Ok(RawV {
            id: int_text_val(fs[0]),
            name: fs[1],
            quantity: int_text_val(fs[2]),
            value: int_text_val(spec_trim(fs[3])),
        })
    }
}

/// The text of one record line: the four fields separated by commas, with a
/// trailing newline.
pub open spec fn spec_format_line(r: RawV) -> Seq<u8> {
    spec_i64_dec(r.id) + seq![COMMA] + r.name + seq![COMMA] + spec_i64_dec(r.quantity)
        + seq![COMMA] + spec_i64_dec(r.value) + seq![NEWLINE]
}

/// A record that one line can carry faithfully: numbers within the `i64`
/// range and a non-empty name free of the field separator.
pub open spec fn valid_record(r: RawV) -> bool {
    &&& i64::MIN <= r.id <= i64::MAX
    &&& i64::MIN <= r.quantity <= i64::MAX
    &&& i64::MIN <= r.value <= i64::MAX
    &&& r.name.len() > 0
    &&& forall|i: int| 0 <= i < r.name.len() ==> #[trigger] r.name[i] != COMMA
}

/// Parses one record line, as `spec_parse_line` describes.
pub fn parse_raw(line: &[u8]) -> (r: Result<(i64, Vec<u8>, i64, i64), ParseError>)
    ensures
        match r {
            Ok(t) => spec_parse_line(line@) == Ok::<RawV, ParseError>(RawV {
                id: t.0 as int,
                name: t.1@,
                quantity: t.2 as int,
                value: t.3 as int,
            }),
            Err(e) => spec_parse_line(line@) == Err::<RawV, ParseError>(e),
        },
{
    let fields = split_bytes(line, COMMA);
    let ghost fs = spec_split(line@, COMMA);
    proof {
        assert(fields@.len() == fs.len());
        assert forall|k: int| 0 <= k < fields@.len() implies #[trigger] fields@[k]@ == fs[k] by {
            assert(views_of(fields@)[k] == fields@[k]@);
        }
        assert(fs.len() >= 1);
    }
    let id = match parse_i64(fields[0].as_slice()) {
        Some(v) => v,
        None => {
            return Err(ParseError::BadInt);
        },
    };
    if fields.len() < 2 || fields[1].len() == 0 {
        return Err(ParseError::MissingName);
    }
    let name = copy_bytes(fields[1].as_slice());
    if fields.len() < 3 {
        return Err(ParseError::MissingQuantity);
    }
    let quantity = match parse_i64(fields[2].as_slice()) {
        Some(v) => v,
        None => {
            return Err(ParseError::BadInt);
        },
    };
    if fields.len() < 4 {
        return Err(ParseError::MissingOutcome);
    }
    let trimmed = trim_bytes(fields[3].as_slice());
    let value = match parse_i64(trimmed.as_slice()) {
        Some(v) => v,
        None => {
            return Err(ParseError::BadInt);
        },
    };
    Ok((id, name, quantity, value))
}

/// Writes one record line, as `spec_format_line` describes.
pub fn format_line(id: i64, name: &[u8], quantity: i64, value: i64) -> (out: Vec<u8>)
    ensures
        out@ == spec_format_line(RawV {
            id: id as int,
            name: name@,
            quantity: quantity as int,
            value: value as int,
        }),
{
    let mut out: Vec<u8> = Vec::new();
    push_dec_i64(&mut out, id);
    out.push(COMMA);
    let ghost pre = out@;
    let mut j: usize = 0;
    while j < name.len()
        invariant
            0 <= j <= name@.len(),
            out@ =~= pre + name@.subrange(0, j as int),
        decreases name@.len() - j,
    {
        out.push(name[j]);
        proof {
            assert(out@ =~= pre + name@.subrange(0, j + 1));
        }
        j = j + 1;
    }
    proof {
        assert(out@ =~= pre + name@);
    }
    out.push(COMMA);
    push_dec_i64(&mut out, quantity);
    out.push(COMMA);
    push_dec_i64(&mut out, value);
    out.push(NEWLINE);
    proof {
        assert(out@ =~= spec_format_line(RawV {
            id: id as int,
            name: name@,
            quantity: quantity as int,
            value: value as int,
        }));
    }
    out
}

pub proof fn lemma_dec_digits_are_digits(n: int)
    requires
        n >= 0,
    ensures
        dec_digits(n).len() >= 1,
        all_digits(dec_digits(n)),
    decreases n,
{
    if n < 10 {
        assert(dec_digits(n) == seq![(48 + n) as u8]);
        assert((48 + n) as u8 == 48 + n);
        assert(is_digit(dec_digits(n)[0]));
    } else {
        lemma_dec_digits_are_digits(n / 10);
        let d = dec_digits(n / 10);
        let last = (48 + n % 10) as u8;
        assert(last == 48 + n % 10);
        assert(is_digit(last));
        assert forall|i: int| 0 <= i < dec_digits(n).len() implies
            is_digit(#[trigger] dec_digits(n)[i]) by {
            if i < d.len() {
                assert(dec_digits(n)[i] == d[i]);
            } else {
                assert(dec_digits(n)[i] == last);
            }
        }
    }
}

pub proof fn lemma_dec_val_of_digits(n: int)
    requires
        n >= 0,
    ensures
        dec_val(dec_digits(n)) == n,
    decreases n,
{
    if n < 10 {
        let s = dec_digits(n);
        assert(s.len() == 1);
        assert(s.drop_last() =~= Seq::<u8>::empty());
        assert(dec_val(s.drop_last()) == 0);
        assert(s.last() == (48 + n) as u8);
        assert((48 + n) as u8 == 48 + n);
        assert(dec_val(s) == dec_val(s.drop_last()) * 10 + (s.last() - 48));
        assert(dec_val(s) == n);
    } else {
        lemma_dec_val_of_digits(n / 10);
        let s = dec_digits(n);
        assert(s == dec_digits(n / 10) + seq![(48 + n % 10) as u8]);
        assert(s.len() == dec_digits(n / 10).len() + 1);
        assert(s.drop_last() =~= dec_digits(n / 10));
        assert(dec_val(s.drop_last()) == n / 10);
        assert(s.last() == (48 + n % 10) as u8);
        assert((48 + n % 10) as u8 == 48 + n % 10);
        assert(dec_val(s) == dec_val(s.drop_last()) * 10 + (s.last() - 48));
        assert(n / 10 * 10 + n % 10 == n);
        assert(dec_val(s) == n);
    }
}

/// The decimal text of an `i64` reads back as the same value.
pub proof fn lemma_i64_dec_reads_back(n: int)
    requires
        i64::MIN <= n <= i64::MAX,
    ensures
        is_i64_text(spec_i64_dec(n)),
        int_text_val(spec_i64_dec(n)) == n,
        forall|i: int| 0 <= i < spec_i64_dec(n).len() ==> #[trigger] spec_i64_dec(n)[i] != COMMA,
        !is_ws(spec_i64_dec(n)[0]),
        is_digit(spec_i64_dec(n).last()),
{
    let s = spec_i64_dec(n);
    if n < 0 {
        lemma_dec_digits_are_digits(-n);
        let d = dec_digits(-n);
        assert(s == seq![45u8] + d);
        assert(s[0] == 45);
        assert(has_sign(s) && is_neg(s));
        assert(digits_part(s) =~= d);
        lemma_dec_val_of_digits(-n);
        assert(int_text_val(s) == -dec_val(d));
        assert forall|i: int| 0 <= i < s.len() implies #[trigger] s[i] != COMMA by {
            if i > 0 {
                assert(s[i] == d[i - 1]);
                assert(is_digit(d[i - 1]));
            }
        }
        assert(s.last() == d[d.len() - 1]);
        assert(is_digit(d[d.len() - 1]));
    } else {
        lemma_dec_digits_are_digits(n);
        assert(s == dec_digits(n));
        assert(is_digit(s[0]));
        assert(!has_sign(s) && !is_neg(s));
        assert(digits_part(s) == s);
        lemma_dec_val_of_digits(n);
        assert forall|i: int| 0 <= i < s.len() implies #[trigger] s[i] != COMMA by {
            assert(is_digit(s[i]));
        }
        assert(is_digit(s.last()));
    }
}

/// Trimming the final field of a formatted line strips exactly the trailing
/// newline.
pub proof fn lemma_trim_last_field(n: int)
    requires
        i64::MIN <= n <= i64::MAX,
    ensures
        spec_trim(spec_i64_dec(n) + seq![NEWLINE]) == spec_i64_dec(n),
{
    lemma_i64_dec_reads_back(n);
    let d = spec_i64_dec(n);
    let s = d + seq![NEWLINE];
    assert(s[0] == d[0]);
    assert(!is_ws(s[0]));
    assert(trim_front(s) == s);
    assert(s.last() == NEWLINE);
    assert(is_ws(NEWLINE));
    assert(trim_back(s) == trim_back(s.drop_last()));
    assert(s.drop_last() =~= d);
    assert(!is_ws(d.last()));
    assert(trim_back(d) == d);
}

/// Splitting text that starts with a separator-free field, a separator and a
/// remainder yields that field and then the remainder's fields.
pub proof fn lemma_split_prefix(a: Seq<u8>, rest: Seq<u8>)
    requires
        forall|i: int| 0 <= i < a.len() ==> #[trigger] a[i] != COMMA,
    ensures
        spec_split(a + seq![COMMA] + rest, COMMA) == seq![a] + spec_split(rest, COMMA),
{
    let s = a + seq![COMMA] + rest;
    assert forall|i: int| 0 <= i < a.len() implies #[trigger] s[i] != COMMA by {
        assert(s[i] == a[i]);
    }
    assert(s[a.len() as int] == COMMA);
    lemma_first_sep_is(s, COMMA, a.len() as int);
    assert(s.take(a.len() as int) =~= a);
    assert(s.skip(a.len() as int + 1) =~= rest);
}

/// Separator-free text is a single field.
pub proof fn lemma_split_single(a: Seq<u8>)
    requires
        forall|i: int| 0 <= i < a.len() ==> #[trigger] a[i] != COMMA,
    ensures
        spec_split(a, COMMA) == seq![a],
{
    lemma_first_sep_is(a, COMMA, a.len() as int);
}

/// A diagnostic surfaced for a line that a verbose load rejected.
pub struct Diag {
    /// 1-based number of the rejected line.
    pub line: usize,
    /// Why the line was rejected.
    pub error: ParseError,
    /// The raw text of the rejected line.
    pub text: Vec<u8>,
}

/// The view of a load diagnostic.
pub struct DiagV {
    pub line: int,
    pub error: ParseError,
    pub text: Seq<u8>,
}

impl View for Diag {
    type V = DiagV;

    open spec fn view(&self) -> DiagV {
        DiagV { line: self.line as int, error: self.error, text: self.text@ }
    }
}

pub open spec fn diag_views(s: Seq<Diag>) -> Seq<DiagV> {
    Seq::new(s.len(), |i: int| s[i]@)
}

/// The record that a load of these lines leaves under key `k`: empty lines
/// and lines that do not parse are passed over, and the last parsed record
/// with id `k` wins.
pub open spec fn load_raw_find(lines: Seq<Seq<u8>>, k: int) -> Option<RawV>
    decreases lines.len(),
{
    if lines.len() == 0 {
        None
    } else {
        let last = lines.last();
        match spec_parse_line(last) {
            Ok(v) => if last.len() > 0 && v.id == k {
                Some(v)
            } else {
                load_raw_find(lines.drop_last(), k)
            },
            Err(_) => load_raw_find(lines.drop_last(), k),
        }
    }
}

/// The diagnostics of a verbose load: 1-based line number, error, and raw
/// text of each non-empty line that did not parse.
pub open spec fn load_diags(lines: Seq<Seq<u8>>) -> Seq<DiagV>
    decreases lines.len(),
{
    if lines.len() == 0 {
        Seq::empty()
    } else {
        load_diags(lines.drop_last()) + (match spec_parse_line(lines.last()) {
            Ok(_) => Seq::<DiagV>::empty(),
            Err(e) => if lines.last().len() > 0 {
                seq![DiagV { line: lines.len() as int, error: e, text: lines.last() }]
            } else {
                Seq::<DiagV>::empty()
            },
        })
    }
}

/// Round trip: parsing a formatted line gives back the record, for every
/// record a line can carry faithfully.
pub proof fn lemma_parse_format(r: RawV)
    requires
        valid_record(r),
    ensures
        spec_parse_line(spec_format_line(r)) == Ok::<RawV, ParseError>(r),
{
    lemma_i64_dec_reads_back(r.id);
    lemma_i64_dec_reads_back(r.quantity);
    lemma_i64_dec_reads_back(r.value);
    lemma_trim_last_field(r.value);
    let f0 = spec_i64_dec(r.id);
    let f2 = spec_i64_dec(r.quantity);
    let f3 = spec_i64_dec(r.value) + seq![NEWLINE];
    let s = spec_format_line(r);
    assert forall|i: int| 0 <= i < f3.len() implies #[trigger] f3[i] != COMMA by {
        if i < spec_i64_dec(r.value).len() {
            assert(f3[i] == spec_i64_dec(r.value)[i]);
        } else {
            assert(f3[i] == NEWLINE);
        }
    }
    let tail2 = f2 + seq![COMMA] + f3;
    let tail1 = r.name + seq![COMMA] + tail2;
    assert(s =~= f0 + seq![COMMA] + tail1);
    assert(tail1 =~= r.name + seq![COMMA] + tail2);
    lemma_split_single(f3);
    lemma_split_prefix(f2, f3);
    lemma_split_prefix(r.name, tail2);
    lemma_split_prefix(f0, tail1);
    let fs = spec_split(s, COMMA);
    assert(fs == seq![f0] + (seq![r.name] + (seq![f2] + seq![f3])));
    assert(fs.len() == 4);
    assert(fs[0] == f0);
    assert(fs[1] == r.name);
    assert(fs[2] == f2);
    assert(fs[3] == f3);
    assert(spec_trim(fs[3]) == spec_i64_dec(r.value));
    assert(spec_parse_line(s) == Ok::<RawV, ParseError>(RawV {
        id: int_text_val(f0),
        name: r.name,
        quantity: int_text_val(f2),
        value: int_text_val(spec_i64_dec(r.value)),
    }));
}

} // verus!

