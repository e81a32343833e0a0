//! The outpoint codec: parsing the `/<txid>:<vout>` resource path into an
//! [`Outpoint`] and formatting an [`Outpoint`] back to its `txid:vout` text.

use vstd::prelude::*;

verus! {

/// Path separator `/` as a byte.
pub const SLASH_BYTE: u8 = 47;
/// Separator `:` between the transaction hash and the output index.
pub const COLON_BYTE: u8 = 58;
/// Number of bytes in a transaction hash.
pub const TXID_LEN: usize = 32;
/// Number of hexadecimal digits in a transaction hash.
pub const TXID_HEX_LEN: usize = 64;

/// Identifier of one output of one transaction: a 32-byte transaction hash
/// and a non-negative output index. Values are never mutated after
/// construction; equality is structural.
#[derive(Debug)]
pub struct Outpoint {
    /// Transaction hash, exactly [`TXID_LEN`] bytes, in the byte order of its
    /// hexadecimal text form.
    pub txid: Vec<u8>,
    /// Output index within the transaction.
    pub vout: u32,
}

/// Mathematical model of an [`Outpoint`].
pub ghost struct OutpointView {
    pub txid: Seq<u8>,
    pub vout: u32,
}

impl View for Outpoint {
    type V = OutpointView;

    open spec fn view(&self) -> OutpointView {
        OutpointView { txid: self.txid@, vout: self.vout }
    }
}

impl OutpointView {
    /// The transaction hash has its fixed length.
    pub open spec fn wf(self) -> bool {
        self.txid.len() == TXID_LEN
    }
}

impl Outpoint {
    /// The transaction hash has its fixed length.
    pub open spec fn wf(self) -> bool {
        self@.wf()
    }
}

/// Why a resource path failed to parse; each variant covers one stage of
/// validation.
#[derive(Clone, Copy, Debug, PartialEq, Eq, Structural)]
pub enum ParseError {
    /// Splitting on `/` did not yield exactly an empty first part and one
    /// `txid:vout` pair.
    WrongSegmentCount,
    /// The pair holds no `:`, or more than one.
    BadColonCount,
    /// The transaction hash is not exactly 64 hexadecimal digits.
    InvalidHex,
    /// The output index is empty, non-numeric, or too large for its type.
    InvalidVout,
}

/// `b` is an ASCII hexadecimal digit (either case).
pub open spec fn is_hex_digit(b: u8) -> bool {
    (48 <= b && b <= 57) || (97 <= b && b <= 102) || (65 <= b && b <= 70)
}

/// Numeric value of a hexadecimal digit.
pub open spec fn hex_val(b: u8) -> u8 {
    if 48 <= b && b <= 57 {
        (b - 48) as u8
    } else if 97 <= b && b <= 102 {
        (b - 87) as u8
    } else {
        (b - 55) as u8
    }
}

/// Every byte of `s` is a hexadecimal digit.
pub open spec fn all_hex(s: Seq<u8>) -> bool {
    forall|i: int| 0 <= i < s.len() ==> is_hex_digit(#[trigger] s[i])
}

/// Bytes denoted by a sequence of hexadecimal digit pairs, two digits per
/// byte, high digit first.
pub open spec fn hex_decode(s: Seq<u8>) -> Seq<u8> {
    Seq::new((s.len() / 2) as nat, |i: int| (hex_val(s[2 * i]) * 16 + hex_val(s[2 * i + 1])) as u8)
}

/// `b` is an ASCII decimal digit.
pub open spec fn is_dec_digit(b: u8) -> bool {
    48 <= b && b <= 57
}

/// Every byte of `s` is a decimal digit.
pub open spec fn all_dec(s: Seq<u8>) -> bool {
    forall|i: int| 0 <= i < s.len() ==> is_dec_digit(#[trigger] s[i])
}

/// Value of `s` read as a decimal numeral.
pub open spec fn dec_value(s: Seq<u8>) -> int
    decreases s.len(),
{
    if s.len() == 0 {
        0
    } else {
        dec_value(s.drop_last()) * 10 + (s.last() - 48)
    }
}

/// The path is one leading `/` followed by a single segment: splitting on `/`
/// yields exactly an empty first part and the rest.
pub open spec fn path_shape_ok(s: Seq<u8>) -> bool {
    &&& s.len() >= 1
    &&& s[0] == SLASH_BYTE
    &&& forall|i: int| 1 <= i < s.len() ==> s[i] != SLASH_BYTE
}

/// `s` holds a colon at `i` and nowhere else.
pub open spec fn colon_at(s: Seq<u8>, i: int) -> bool {
    &&& 0 <= i < s.len()
    &&& s[i] == COLON_BYTE
    &&& forall|j: int| 0 <= j < s.len() && j != i ==> s[j] != COLON_BYTE
}

/// `s` holds exactly one colon.
pub open spec fn has_unique_colon(s: Seq<u8>) -> bool {
    exists|i: int| colon_at(s, i)
}

/// Position of the unique colon of `s`.
pub open spec fn colon_index(s: Seq<u8>) -> int {
    choose|i: int| colon_at(s, i)
}

/// What parsing a resource path returns, for every byte sequence: the
/// outpoint it denotes, or the first error in validation order (path shape,
/// colon count, transaction hash, output index).
pub open spec fn spec_parse(s: Seq<u8>) -> Result<OutpointView, ParseError> {
    if !path_shape_ok(s) {
        Err(ParseError::WrongSegmentCount)
    } else {
        let rest = s.skip(1);
        if !has_unique_colon(rest) {
            Err(ParseError::BadColonCount)
        } else {
            let ci = colon_index(rest);
            let hex = rest.take(ci);
            let digits = rest.skip(ci + 1);
            if !(hex.len() == TXID_HEX_LEN && all_hex(hex)) {
                Err(ParseError::InvalidHex)
            } else if !(digits.len() > 0 && all_dec(digits) && dec_value(digits) <= u32::MAX) {
                Err(ParseError::InvalidVout)
            } else {
                Ok(OutpointView { txid: hex_decode(hex), vout: dec_value(digits) as u32 })
            }
        }
    }
}

/// Lowercase hexadecimal digit for a value below 16.
pub open spec fn hex_char(n: u8) -> u8 {
    if n < 10 {
        (48 + n) as u8
    } else {
        (87 + n) as u8
    }
}

/// Lowercase hexadecimal text of `t`, two digits per byte, high digit first.
pub open spec fn hex_encode(t: Seq<u8>) -> Seq<u8> {
    Seq::new(
        (t.len() * 2) as nat,
        |i: int|
            if i % 2 == 0 {
                hex_char(t[i / 2] / 16)
            } else {
                hex_char((t[i / 2] % 16) as u8)
            },
    )
}

/// Decimal numeral of `v` without leading zeroes (`0` itself excepted).
pub open spec fn dec_digits(v: int) -> Seq<u8>
    recommends
        v >= 0,
    decreases v,
{
    if v < 10 {
        seq![(48 + v) as u8]
    } else {
        dec_digits(v / 10).push((48 + v % 10) as u8)
    }
}

/// The `txid:vout` text of an outpoint: the transaction hash in lowercase
/// hexadecimal, a colon, and the output index in decimal.
pub open spec fn spec_format(o: OutpointView) -> Seq<u8> {
    hex_encode(o.txid) + seq![COLON_BYTE] + dec_digits(o.vout as int)
}

/// A sequence with exactly one colon has that colon's position as its colon
/// index.
proof fn lemma_colon_index_is(s: Seq<u8>, i: int)
    requires
        colon_at(s, i),
    ensures
        has_unique_colon(s),
        colon_index(s) == i,
{
    assert(has_unique_colon(s));
    let w = colon_index(s);
    assert(colon_at(s, w));
    if w != i {
        assert(s[i] != COLON_BYTE);
    }
}

/// The value of a decimal numeral is non-negative.
proof fn lemma_dec_value_nonneg(s: Seq<u8>)
    requires
        all_dec(s),
    ensures
        dec_value(s) >= 0,
    decreases s.len(),
{
    if s.len() > 0 {
        assert(all_dec(s.drop_last())) by {
            assert(forall|i: int| 0 <= i < s.len() - 1 ==> s.drop_last()[i] == s[i]);
        }
        lemma_dec_value_nonneg(s.drop_last());
    }
}

/// A decimal numeral is worth at least any of its prefixes.
proof fn lemma_dec_value_prefix_le(s: Seq<u8>, i: int)
    requires
        all_dec(s),
        0 <= i <= s.len(),
    ensures
        dec_value(s.take(i)) <= dec_value(s),
    decreases s.len(),
{
    if i < s.len() {
        assert(all_dec(s.drop_last())) by {
            assert(forall|k: int| 0 <= k < s.len() - 1 ==> s.drop_last()[k] == s[k]);
        }
        assert(s.drop_last().take(i) =~= s.take(i));
        lemma_dec_value_prefix_le(s.drop_last(), i);
        lemma_dec_value_nonneg(s.drop_last());
        assert(dec_value(s) == dec_value(s.drop_last()) * 10 + (s.last() - 48));
        assert(dec_value(s.drop_last()) * 10 >= dec_value(s.drop_last())) by {
            lemma_dec_value_nonneg(s.drop_last());
        }
    } else {
        assert(s.take(i) =~= s);
    }
}

/// Value of one hexadecimal digit, or `None` where the byte is no such digit.
fn hex_val_of(b: u8) -> (r: Option<u8>)
    ensures
        match r {
            Some(v) => is_hex_digit(b) && v == hex_val(b) && v < 16,
            None => !is_hex_digit(b),
        },
{
    if 48 <= b && b <= 57 {
        Some(b - 48)
    } else if 97 <= b && b <= 102 {
        Some(b - 87)
    } else if 65 <= b && b <= 70 {
        Some(b - 55)
    } else {
        None
    }
}

/// Parse a resource path of the form `/<txid>:<vout>` into an outpoint.
///
/// Succeeds exactly on the paths [`spec_parse`] accepts, and returns for
/// every other input the error that names the first stage of validation the
/// path fails.
pub fn parse_outpoint(path: &[u8]) -> (r: Result<Outpoint, ParseError>)
    ensures
        match r {
            Ok(o) => o.wf() && spec_parse(path@) == Ok::<OutpointView, ParseError>(o@),
            Err(e) => spec_parse(path@) == Err::<OutpointView, ParseError>(e),
        },
{
    let n = path.len();
    if n == 0 || path[0] != SLASH_BYTE {
        return Err(ParseError::WrongSegmentCount);
    }
    let mut i: usize = 1;
    while i < n
        invariant
            1 <= i <= n == path@.len(),
            path@[0] == SLASH_BYTE,
            forall|k: int| 1 <= k < i ==> path@[k] != SLASH_BYTE,
        decreases n - i,
    {
        if path[i] == SLASH_BYTE {
            return Err(ParseError::WrongSegmentCount);
        }
        i += 1;
    }
    assert(path_shape_ok(path@));
    let ghost rest = path@.skip(1);
    assert(forall|k: int| 0 <= k < rest.len() ==> rest[k] == path@[k + 1]);

    // Find the unique colon, or reject.
    let mut colon: usize = 0;
    let mut seen_colon = false;
    i = 1;
    while i < n
        invariant
            1 <= i <= n == path@.len(),
            path_shape_ok(path@),
            rest == path@.skip(1),
            rest.len() == n - 1,
            forall|k: int| 0 <= k < rest.len() ==> rest[k] == path@[k + 1],
            seen_colon ==> 1 <= colon < i && path@[colon as int] == COLON_BYTE,
            forall|k: int|
                1 <= k < i && (!seen_colon || k != colon) ==> path@[k] != COLON_BYTE,
        decreases n - i,
    {
        if path[i] == COLON_BYTE {
            if seen_colon {
                proof {
                    assert(rest[colon - 1] == COLON_BYTE);
                    assert(rest[i - 1] == COLON_BYTE);
                    assert(!has_unique_colon(rest)) by {
                        if has_unique_colon(rest) {
                            let w = choose|w: int| colon_at(rest, w);
                            assert(colon_at(rest, w));
                            if w != colon - 1 {
                                assert(rest[colon - 1] != COLON_BYTE);
                            } else {
                                assert(rest[i - 1] != COLON_BYTE);
                            }
                        }
                    }
                }
                return Err(ParseError::BadColonCount);
            }
            colon = i;
            seen_colon = true;
        }
        i += 1;
    }
    if !seen_colon {
        proof {
            assert(forall|k: int| 0 <= k < rest.len() ==> rest[k] != COLON_BYTE);
            assert(!has_unique_colon(rest)) by {
                if has_unique_colon(rest) {
                    let w = choose|w: int| colon_at(rest, w);
                    assert(colon_at(rest, w));
                }
            }
        }
        return Err(ParseError::BadColonCount);
    }
    proof {
        lemma_colon_index_is(rest, colon - 1);
    }
    let ghost ci = colon - 1;
    let ghost hex = rest.take(ci);
    let ghost digits = rest.skip(ci + 1);
    assert(hex.len() == colon - 1);
    assert(forall|k: int| 0 <= k < hex.len() ==> hex[k] == path@[k + 1]);
    assert(forall|k: int| 0 <= k < digits.len() ==> digits[k] == path@[k + colon + 1]);

    // The transaction hash: exactly 64 hexadecimal digits.
    if colon - 1 != TXID_HEX_LEN {
        return Err(ParseError::InvalidHex);
    }
    let mut txid: Vec<u8> = Vec::new();
    let mut j: usize = 0;
    while j < TXID_LEN
        invariant
            0 <= j <= TXID_LEN,
            colon == TXID_HEX_LEN + 1,
            n == path@.len(),
            colon < n,
            path_shape_ok(path@),
            rest == path@.skip(1),
            has_unique_colon(rest),
            colon_index(rest) == colon - 1,
            hex == rest.take(colon - 1),
            txid@.len() == j,
            hex.len() == TXID_HEX_LEN,
            forall|k: int| 0 <= k < hex.len() ==> hex[k] == path@[k + 1],
            forall|k: int| 0 <= k < 2 * j ==> is_hex_digit(#[trigger] hex[k]),
            forall|k: int|
                0 <= k < j ==> txid@[k] == (hex_val(hex[2 * k]) * 16 + hex_val(
                    hex[2 * k + 1],
                )) as u8,
        decreases TXID_LEN - j,
    {
        let hi = match hex_val_of(path[1 + 2 * j]) {
            Some(v) => v,
            None => {
                assert(!is_hex_digit(hex[2 * j as int]));
                return Err(ParseError::InvalidHex);
            },
        };
        let lo = match hex_val_of(path[1 + 2 * j + 1]) {
            Some(v) => v,
            None => {
                assert(!is_hex_digit(hex[2 * j as int + 1]));
                return Err(ParseError::InvalidHex);
            },
        };
        txid.push(hi * 16 + lo);
        j += 1;
    }
    assert(all_hex(hex));
    assert(txid@ =~= hex_decode(hex));

    // The output index: a non-empty decimal numeral in range.
    if colon + 1 >= n {
        assert(digits.len() == 0);
        return Err(ParseError::InvalidVout);
    }
    let mut val: u64 = 0;
    let mut k: usize = colon + 1;
    while k < n
        invariant
            colon + 1 <= k <= n == path@.len(),
            colon == TXID_HEX_LEN + 1,
            path_shape_ok(path@),
            rest == path@.skip(1),
            has_unique_colon(rest),
            colon_index(rest) == colon - 1,
            hex == rest.take(colon - 1),
            hex.len() == TXID_HEX_LEN,
            all_hex(hex),
            txid@ == hex_decode(hex),
            txid@.len() == TXID_LEN,
            digits == rest.skip(colon as int),
            digits.len() == n - colon - 1,
            forall|m: int| 0 <= m < digits.len() ==> digits[m] == path@[m + colon + 1],
            forall|m: int| 0 <= m < k - colon - 1 ==> is_dec_digit(#[trigger] digits[m]),
            val == dec_value(digits.take(k - colon - 1)),
            val <= u32::MAX,
        decreases n - k,
    {
        let b = path[k];
        if !(48 <= b && b <= 57) {
            assert(!is_dec_digit(digits[k - colon - 1]));
            return Err(ParseError::InvalidVout);
        }
        proof {
            let t = digits.take(k - colon);
            assert(t.drop_last() =~= digits.take(k - colon - 1));
            assert(t.last() == digits[k - colon - 1]);
        }
        val = val * 10 + (b - 48) as u64;
        k += 1;
        if val > u32::MAX as u64 {
            proof {
                if all_dec(digits) && dec_value(digits) <= u32::MAX {
                    lemma_dec_value_prefix_le(digits, k - colon - 1);
                }
            }
            return Err(ParseError::InvalidVout);
        }
    }
    assert(digits.take(digits.len() as int) =~= digits);
    assert(all_dec(digits));
    let o = Outpoint { txid, vout: val as u32 };
    assert(spec_parse(path@) == Ok::<OutpointView, ParseError>(o@));
    Ok(o)
}

/// Append the decimal numeral of `n` to `out`.
fn push_dec(n: u32, out: &mut Vec<u8>)
    ensures
        final(out)@ == old(out)@ + dec_digits(n as int),
    decreases n,
{
    if n < 10 {
        out.push(48 + n as u8);
        assert(final(out)@ =~= old(out)@ + dec_digits(n as int));
    } else {
        push_dec(n / 10, out);
        out.push(48 + (n % 10) as u8);
        assert(final(out)@ =~= old(out)@ + dec_digits(n as int));
    }
}

/// Format an outpoint back to its `txid:vout` text, for logging and
/// diagnostics: the transaction hash as 64 lowercase hexadecimal digits, a
/// colon, and the output index in decimal.
pub fn format_outpoint(o: &Outpoint) -> (r: Vec<u8>)
    requires
        o.wf(),
    ensures
        r@ == spec_format(o@),
{
    let mut r: Vec<u8> = Vec::new();
    let mut i: usize = 0;
    while i < TXID_LEN
        invariant
            0 <= i <= TXID_LEN,
            o.wf(),
            r@ =~= hex_encode(o.txid@.take(i as int)),
        decreases TXID_LEN - i,
    {
        let b = o.txid[i];
        let hi = b / 16;
        let lo = b % 16;
        r.push(if hi < 10 { 48 + hi } else { 87 + hi });
        r.push(if lo < 10 { 48 + lo } else { 87 + lo });
        i += 1;
        assert(r@ =~= hex_encode(o.txid@.take(i as int)));
    }
    assert(o.txid@.take(TXID_LEN as int) =~= o.txid@);
    r.push(COLON_BYTE);
    push_dec(o.vout, &mut r);
    assert(r@ =~= spec_format(o@));
    r
}

/// A decimal numeral is non-empty, made of decimal digits, and worth the
/// value it was formed from.
proof fn lemma_dec_digits_props(v: int)
    requires
        v >= 0,
    ensures
        dec_digits(v).len() >= 1,
        all_dec(dec_digits(v)),
        dec_value(dec_digits(v)) == v,
    decreases v,
{
    if v < 10 {
        let d = dec_digits(v);
        assert(d.len() == 1);
        assert(d.last() == (48 + v) as u8);
        assert(d.drop_last() =~= Seq::<u8>::empty());
        assert(dec_value(d.drop_last()) == 0);
        assert((48 + v) as u8 == 48 + v);
        assert(dec_value(d) == dec_value(d.drop_last()) * 10 + (d.last() - 48));
    } else {
        lemma_dec_digits_props(v / 10);
        let d = dec_digits(v);
        assert(d.drop_last() =~= dec_digits(v / 10));
        assert(d.last() == (48 + v % 10) as u8);
        assert(dec_value(d) == (v / 10) * 10 + v % 10);
        assert((v / 10) * 10 + v % 10 == v) by {
            vstd::arithmetic::div_mod::lemma_fundamental_div_mod(v, 10);
        }
        assert(all_dec(d)) by {
            assert(forall|i: int| 0 <= i < d.len() - 1 ==> d[i] == dec_digits(v / 10)[i]);
        }
    }
}

/// Round trip of the outpoint codec: formatting a well-formed outpoint and
/// parsing the result back as a resource path yields the same outpoint.
pub proof fn lemma_format_parse_round_trip(o: OutpointView)
    requires
        o.wf(),
    ensures
        spec_parse(seq![SLASH_BYTE] + spec_format(o)) == Ok::<OutpointView, ParseError>(o),
{
    let he = hex_encode(o.txid);
    let dd = dec_digits(o.vout as int);
    let f = spec_format(o);
    let s = seq![SLASH_BYTE] + f;
    lemma_dec_digits_props(o.vout as int);
    assert(he.len() == 2 * TXID_LEN);
    assert(f.len() == he.len() + 1 + dd.len());
    assert(s.len() == f.len() + 1);
    let rest = s.skip(1);
    assert(rest =~= f);

    // Each byte of the hexadecimal part is a lowercase hexadecimal digit,
    // and in particular neither a slash nor a colon.
    assert forall|k: int| 0 <= k < he.len() implies is_hex_digit(#[trigger] he[k]) by {
        let b = o.txid[k / 2];
        assert(b / 16 < 16 && b % 16 < 16);
    }
    // Layout of the formatted text.
    assert(forall|k: int| 0 <= k < he.len() ==> f[k] == he[k]);
    assert(f[he.len() as int] == COLON_BYTE);
    assert(forall|k: int| 0 <= k < dd.len() ==> f[he.len() + 1 + k] == dd[k]);
    assert(forall|k: int| 0 <= k < f.len() ==> s[k + 1] == f[k]);

    // Path shape: the only slash is the leading one.
    assert(path_shape_ok(s)) by {
        assert forall|i: int| 1 <= i < s.len() implies s[i] != SLASH_BYTE by {
            let k = i - 1;
            if k < he.len() {
                assert(is_hex_digit(f[k]));
            } else if k > he.len() {
                assert(is_dec_digit(dd[k - he.len() - 1]));
            }
        }
    }

    // Exactly one colon, right after the hexadecimal part.
    assert(colon_at(rest, he.len() as int)) by {
        assert forall|j: int|
            0 <= j < rest.len() && j != he.len() implies rest[j] != COLON_BYTE by {
            if j < he.len() {
                assert(is_hex_digit(rest[j]));
            } else {
                assert(is_dec_digit(dd[j - he.len() - 1]));
            }
        }
    }
    lemma_colon_index_is(rest, he.len() as int);

    let hex = rest.take(he.len() as int);
    let digits = rest.skip((he.len() + 1) as int);
    assert(hex =~= he);
    assert(digits =~= dd);

    // The hexadecimal part decodes back to the transaction hash.
    assert(hex_decode(he) =~= o.txid) by {
        assert forall|i: int| 0 <= i < o.txid.len() implies hex_decode(he)[i] == o.txid[i] by {
            let b = o.txid[i];
            assert(he[2 * i] == hex_char(b / 16));
            assert(he[2 * i + 1] == hex_char((b % 16) as u8));
            assert(hex_val(hex_char(b / 16)) == b / 16);
            assert(hex_val(hex_char((b % 16) as u8)) == b % 16);
            assert((b / 16) * 16 + b % 16 == b) by {
                vstd::arithmetic::div_mod::lemma_fundamental_div_mod(b as int, 16);
            }
        }
    }
    assert(dec_value(digits) == o.vout);
    assert(spec_parse(s) == Ok::<OutpointView, ParseError>(OutpointView {
        txid: hex_decode(hex),
        vout: dec_value(digits) as u32,
    }));
}

} // verus!
