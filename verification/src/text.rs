use vstd::prelude::*;
use vstd::string::{StrSliceExecFns, StringExecFns};
use vstd::utf8::*;

verus! {

#[verifier::external_type_specification]
#[verifier::external_body]
pub struct ExFromUtf8Error(std::string::FromUtf8Error);

/// `String::from_utf8` accepts exactly the valid UTF-8 byte strings and then
/// holds the characters they encode.
pub assume_specification[ std::string::String::from_utf8 ](vec: Vec<u8>) -> (r: Result<
    String,
    std::string::FromUtf8Error,
>)
    ensures
        r is Ok <==> valid_utf8(vec@),
        r matches Ok(s) ==> s@ == decode_utf8(vec@),
;

/// The characters of a byte string whose bytes are all ASCII.
pub open spec fn ascii_chars(bytes: Seq<u8>) -> Seq<char> {
    Seq::new(bytes.len(), |i: int| bytes[i] as char)
}

pub open spec fn all_ascii(bytes: Seq<u8>) -> bool {
    forall|i: int| 0 <= i < bytes.len() ==> #[trigger] bytes[i] < 128
}

pub proof fn lemma_ascii_valid_decode(bytes: Seq<u8>)
    requires
        all_ascii(bytes),
    ensures
        valid_utf8(bytes),
        decode_utf8(bytes) == ascii_chars(bytes),
{
    broadcast use is_ascii_chars_encode_utf8, encode_utf8_decode_utf8;

    let chars = ascii_chars(bytes);
    assert(is_ascii_chars(chars)) by {
        assert forall|i: int| 0 <= i < chars.len() implies (chars[i] as nat) < 128 by {
            assert(bytes[i] < 128);
        }
    }
    assert(encode_utf8(chars) =~= bytes) by {
        is_ascii_chars_encode_utf8(chars);
        assert forall|i: int| 0 <= i < bytes.len() implies encode_utf8(chars)[i] == bytes[i] by {
            assert((chars[i] as u8) == bytes[i]);
        }
    }
    encode_utf8_valid_utf8(chars);
    encode_utf8_decode_utf8(chars);
}

/// Turns ASCII bytes into the string of the same characters.
pub fn ascii_to_string(bytes: Vec<u8>) -> (s: String)
    requires
        all_ascii(bytes@),
    ensures
        s@ == ascii_chars(bytes@),
{
    proof {
        lemma_ascii_valid_decode(bytes@);
    }
    let ghost b = bytes@;
    match String::from_utf8(bytes) {
        Ok(s) => s,
        Err(_) => {
            assert(false);
            String::new()
        },
    }
}

/// The ASCII code of a lower-case hex digit.
pub open spec fn hex_digit(d: int) -> u8 {
    if d < 10 {
        (48 + d) as u8
    } else {
        (87 + d) as u8
    }
}

/// The sixteen lower-case hex digits of `x`, most significant first, as
/// `format!("{:016x}", x)` writes them.
pub open spec fn hex16_bytes(x: u64) -> Seq<u8> {
    Seq::new(16, |i: int| hex_digit(((x as int) / pow16(15 - i)) % 16))
}

pub open spec fn pow16(e: int) -> int
    decreases e,
{
    if e <= 0 {
        1
    } else {
        16 * pow16(e - 1)
    }
}

proof fn lemma_pow16_pos(e: int)
    ensures
        pow16(e) >= 1,
    decreases e,
{
    if e > 0 {
        lemma_pow16_pos(e - 1);
    }
}

/// Formats `x` as sixteen lower-case hex digits.
pub fn hex16(x: u64) -> (s: String)
    ensures
        s@ == ascii_chars(hex16_bytes(x)),
{
    let mut out: Vec<u8> = Vec::new();
    let mut i: usize = 0;
    while i < 16
        invariant
            i <= 16,
            out@.len() == i,
            forall|j: int| 0 <= j < i ==> out@[j] == hex16_bytes(x)[j],
        decreases 16 - i,
    {
        let shift: u64 = (60 - 4 * i) as u64;
        let d: u64 = (x >> shift) & 15;
        proof {
            assert(((x as int) / pow16(15 - i)) % 16 == d) by {
                lemma_shift_is_div(x, i as u64);
            }
        }
        let c: u8 = if d < 10 {
            (48 + d) as u8
        } else {
            (87 + d) as u8
        };
        out.push(c);
        i = i + 1;
    }
    proof {
        assert(out@ =~= hex16_bytes(x));
        assert forall|j: int| 0 <= j < out@.len() implies #[trigger] out@[j] < 128 by {}
    }
    ascii_to_string(out)
}

proof fn lemma_shift_is_div(x: u64, i: u64)
    requires
        i < 16,
    ensures
        ((x as int) / pow16(15 - i)) % 16 == (x >> ((60 - 4 * i) as u64)) & 15,
{
    let s: u64 = (60 - 4 * i) as u64;
    assert(pow16(15 - i) == vstd::arithmetic::power2::pow2(s as nat)) by {
        lemma_pow16_pow2((15 - i) as nat);
    }
    vstd::bits::lemma_u64_shr_is_div(x, s);
    let q: u64 = x >> s;
    assert(q & 15 == q % 16) by (bit_vector);
}

proof fn lemma_pow16_pow2(e: nat)
    ensures
        pow16(e as int) == vstd::arithmetic::power2::pow2(4 * e),
    decreases e,
{
    vstd::arithmetic::power2::lemma2_to64();
    if e > 0 {
        let r: nat = (4 * (e - 1)) as nat;
        lemma_pow16_pow2((e - 1) as nat);
        vstd::arithmetic::power2::lemma_pow2_adds(4, r);
        assert(4 + r == 4 * e);
    }
}

/// Appends `sub` to the path `base` as `PathBuf::join` does for relative and
/// absolute `/`-separated paths: an absolute `sub` replaces `base`, otherwise a
/// separator is put between them unless `base` is empty or already ends in one.
pub open spec fn spec_join(base: Seq<char>, sub: Seq<char>) -> Seq<char> {
    if sub.len() > 0 && sub[0] == '/' {
        sub
    } else if base.len() == 0 || base.last() == '/' {
        base + sub
    } else {
        base + seq!['/'] + sub
    }
}

/// Joins a path and a relative or absolute sub path.
pub fn join_path(base: &String, sub: &String) -> (r: String)
    ensures
        r@ == spec_join(base@, sub@),
{
    let sub_len = sub.as_str().unicode_len();
    if sub_len > 0 && sub.as_str().get_char(0) == '/' {
        return sub.clone();
    }
    let base_len = base.as_str().unicode_len();
    let mut r = base.clone();
    if base_len > 0 && base.as_str().get_char(base_len - 1) != '/' {
        let sep = "/";
        proof {
            reveal_strlit("/");
        }
        r.append(sep);
    }
    r.append(sub.as_str());
    r
}

/// The decimal digits of `n`, as `n.to_string()` writes them.
pub open spec fn spec_decimal(n: nat) -> Seq<u8>
    decreases n,
{
    if n < 10 {
        seq![(48 + n) as u8]
    } else {
        spec_decimal(n / 10).push((48 + n % 10) as u8)
    }
}

pub proof fn lemma_decimal_ascii(n: nat)
    ensures
        all_ascii(spec_decimal(n)),
        spec_decimal(n).len() >= 1,
        forall|i: int| 0 <= i < spec_decimal(n).len() ==> is_digit(#[trigger] spec_decimal(n)[i]),
    decreases n,
{
    if n >= 10 {
        lemma_decimal_ascii(n / 10);
    }
}

/// The decimal digits of `n`.
pub fn decimal_bytes(n: usize) -> (r: Vec<u8>)
    ensures
        r@ == spec_decimal(n as nat),
    decreases n,
{
    if n < 10 {
        let mut v: Vec<u8> = Vec::new();
        v.push((48 + n) as u8);
        proof {
            assert(v@ =~= seq![(48 + n) as u8]);
        }
        v
    } else {
        let mut v = decimal_bytes(n / 10);
        v.push((48 + n % 10) as u8);
        v
    }
}

/// The decimal digits of a 64-bit number.
pub fn decimal_u64(n: u64) -> (r: Vec<u8>)
    ensures
        r@ == spec_decimal(n as nat),
    decreases n,
{
    if n < 10 {
        let mut v: Vec<u8> = Vec::new();
        v.push((48 + n) as u8);
        proof {
            assert(v@ =~= seq![(48 + n) as u8]);
        }
        v
    } else {
        let mut v = decimal_u64(n / 10);
        v.push((48 + n % 10) as u8);
        v
    }
}

/// `n.to_string()`.
pub fn usize_to_string(n: usize) -> (s: String)
    ensures
        s@ == ascii_chars(spec_decimal(n as nat)),
{
    let b = decimal_bytes(n);
    proof {
        lemma_decimal_ascii(n as nat);
    }
    ascii_to_string(b)
}

pub open spec fn is_digit(b: u8) -> bool {
    48 <= b <= 57
}

/// The number that a string of decimal digits stands for.
pub open spec fn digits_value(s: Seq<u8>) -> nat
    decreases s.len(),
{
    if s.len() == 0 {
        0
    } else {
        digits_value(s.drop_last()) * 10 + (s.last() - 48) as nat
    }
}

pub open spec fn all_digits(s: Seq<u8>) -> bool {
    forall|i: int| 0 <= i < s.len() ==> is_digit(#[trigger] s[i])
}

/// The digits of an unsigned number: the text without a leading `+`.
pub open spec fn unsigned_digits(s: Seq<u8>) -> Seq<u8> {
    if s.len() > 0 && s[0] == 43u8 {
        s.drop_first()
    } else {
        s
    }
}

/// What `str::parse` gives for an unsigned integer no larger than `bound`: an
/// optional `+`, then at least one decimal digit, and a value within range.
pub open spec fn spec_parse_unsigned(s: Seq<u8>, bound: nat) -> Option<nat> {
    let d = unsigned_digits(s);
    if d.len() > 0 && all_digits(d) && digits_value(d) <= bound {
        Some(digits_value(d))
    } else {
        None
    }
}

proof fn lemma_digits_value_decimal(n: nat)
    ensures
        digits_value(spec_decimal(n)) == n,
        all_digits(spec_decimal(n)),
    decreases n,
{
    lemma_decimal_ascii(n);
    if n >= 10 {
        lemma_digits_value_decimal(n / 10);
        assert(spec_decimal(n).drop_last() =~= spec_decimal(n / 10));
        assert((n / 10) * 10 + n % 10 == n) by (nonlinear_arith);
        let last = spec_decimal(n).last();
        assert(last == (48 + n % 10) as u8);
        assert((last - 48) as nat == n % 10);
        assert(digits_value(spec_decimal(n)) == digits_value(spec_decimal(n / 10)) * 10 + (last - 48) as nat);
    } else {
        assert(spec_decimal(n).drop_last() =~= Seq::<u8>::empty());
        assert(digits_value(Seq::<u8>::empty()) == 0);
        assert(spec_decimal(n).last() == (48 + n) as u8);
    }
}

/// Parsing the decimal digits of a number gives the number back.
pub proof fn lemma_parse_decimal(n: nat, bound: nat)
    requires
        n <= bound,
    ensures
        spec_parse_unsigned(spec_decimal(n), bound) == Some(n),
{
    lemma_digits_value_decimal(n);
    lemma_decimal_ascii(n);
    assert(spec_decimal(n)[0] != 43);
}

proof fn lemma_digits_value_monotone(s: Seq<u8>, k: int)
    requires
        all_digits(s),
        0 <= k <= s.len(),
    ensures
        digits_value(s.take(k)) <= digits_value(s),
    decreases s.len(),
{
    if k < s.len() {
        assert(s.drop_last().take(k) =~= s.take(k));
        lemma_digits_value_monotone(s.drop_last(), k);
    } else {
        assert(s.take(k) =~= s);
    }
}

/// Why a number does not parse, as `ParseIntError` names it.
#[derive(Debug, Clone, Copy, PartialEq, Eq)]
pub enum ParseFault {
    /// The text is empty.
    Empty,
    /// A character is not a digit.
    InvalidDigit,
    /// The number is too large for its type.
    PosOverflow,
}

/// The message of a parse fault.
pub open spec fn parse_fault_message(f: ParseFault) -> Seq<char> {
    match f {
        ParseFault::Empty => "cannot parse integer from empty string"@,
        ParseFault::InvalidDigit => "invalid digit found in string"@,
        ParseFault::PosOverflow => "number too large to fit in target type"@,
    }
}

impl ParseFault {
    /// The message of the fault.
    pub fn to_string(&self) -> (r: String)
        ensures
            r@ == parse_fault_message(*self),
    {
        match self {
            ParseFault::Empty => String::from_str("cannot parse integer from empty string"),
            ParseFault::InvalidDigit => String::from_str("invalid digit found in string"),
            ParseFault::PosOverflow => String::from_str("number too large to fit in target type"),
        }
    }
}

/// The first fault met when the digits `d` are read from the front after the
/// value `acc`: a byte that is not a digit, or a digit that takes the value
/// past `bound`; `None` when there is none.
pub open spec fn scan_fault(d: Seq<u8>, acc: nat, bound: nat) -> Option<ParseFault>
    decreases d.len(),
{
    if d.len() == 0 {
        None
    } else if !is_digit(d[0]) {
        Some(ParseFault::InvalidDigit)
    } else if acc * 10 + (d[0] - 48) > bound {
        Some(ParseFault::PosOverflow)
    } else {
        scan_fault(d.drop_first(), (acc * 10 + (d[0] - 48)) as nat, bound)
    }
}

/// Why `str::parse` refuses `s` as an unsigned integer no larger than
/// `bound`: an empty text; a lone `+`; or the first fault met reading the
/// digits.
pub open spec fn parse_fault(s: Seq<u8>, bound: nat) -> ParseFault {
    if s.len() == 0 {
        ParseFault::Empty
    } else if unsigned_digits(s).len() == 0 {
        ParseFault::InvalidDigit
    } else {
        match scan_fault(unsigned_digits(s), 0, bound) {
            Some(f) => f,
            None => ParseFault::InvalidDigit,
        }
    }
}

/// Parses an unsigned decimal number no larger than `bound`, as `str::parse`
/// does for unsigned integers, or gives why it does not parse.
pub fn parse_unsigned_why(s: &[u8], bound: u64) -> (r: Result<u64, ParseFault>)
    ensures
        r matches Ok(v) ==> spec_parse_unsigned(s@, bound as nat) == Some(v as nat),
        r matches Err(f) ==> spec_parse_unsigned(s@, bound as nat) is None && f == parse_fault(
            s@,
            bound as nat,
        ),
{
    let start: usize = if s.len() > 0 && s[0] == 43 {
        1
    } else {
        0
    };
    let ghost d = unsigned_digits(s@);
    proof {
        assert(d =~= s@.skip(start as int));
    }
    if start >= s.len() {
        if s.len() == 0 {
            return Err(ParseFault::Empty);
        }
        return Err(ParseFault::InvalidDigit);
    }
    let mut acc: u64 = 0;
    let mut i: usize = start;
    proof {
        assert(d.skip(0) =~= d);
    }
    while i < s.len()
        invariant
            start <= i <= s@.len(),
            d == unsigned_digits(s@),
            d =~= s@.skip(start as int),
            d.len() > 0,
            scan_fault(d, 0, bound as nat) == scan_fault(d.skip(i - start), acc as nat, bound as nat),
            all_digits(s@.subrange(start as int, i as int)),
            acc == digits_value(s@.subrange(start as int, i as int)),
            acc <= bound,
        decreases s@.len() - i,
    {
        let c = s[i];
        if c < 48 || c > 57 {
            proof {
                assert(d[i - start] == c);
                assert(!is_digit(d[i - start]));
                assert(!all_digits(d));
                assert(spec_parse_unsigned(s@, bound as nat) is None);
                assert(d.skip(i - start)[0] == c);
            }
            return Err(ParseFault::InvalidDigit);
        }
        let digit: u64 = (c - 48) as u64;
        proof {
            assert(s@.subrange(start as int, i + 1).drop_last() =~= s@.subrange(
                start as int,
                i as int,
            ));
        }
        if digit > bound || acc > (bound - digit) / 10 {
            proof {
                if digit <= bound {
                    assert(acc * 10 + digit > bound) by (nonlinear_arith)
                        requires
                            acc > (bound - digit) / 10,
                            bound >= digit,
                    ;
                }
                if all_digits(d) {
                    lemma_digits_value_monotone(d, i + 1 - start);
                    assert(d.take(i + 1 - start) =~= s@.subrange(start as int, i + 1));
                }
                assert(d.skip(i - start)[0] == c);
                assert(acc * 10 + digit > bound);
            }
            return Err(ParseFault::PosOverflow);
        }
        proof {
            assert(acc * 10 + digit <= bound) by (nonlinear_arith)
                requires
                    acc <= (bound - digit) / 10,
                    digit <= bound,
            ;
            assert(d.skip(i - start)[0] == c);
            assert(d.skip(i - start).drop_first() =~= d.skip(i + 1 - start));
        }
        acc = acc * 10 + digit;
        i = i + 1;
    }
    proof {
        assert(s@.subrange(start as int, i as int) =~= d);
    }
    Ok(acc)
}

/// Parses an unsigned decimal number no larger than `bound`, as `str::parse`
/// does for unsigned integers.
pub fn parse_unsigned(s: &[u8], bound: u64) -> (r: Option<u64>)
    ensures
        r matches Some(v) ==> spec_parse_unsigned(s@, bound as nat) == Some(v as nat),
        r is None ==> spec_parse_unsigned(s@, bound as nat) is None,
{
    match parse_unsigned_why(s, bound) {
        Ok(v) => Some(v),
        Err(_) => None,
    }
}

} // verus!
