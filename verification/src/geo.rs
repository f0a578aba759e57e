use vstd::prelude::*;

verus! {

/// Why geo enrichment failed for an address: the text is not an address, or
/// the database holds no country code for it.
#[derive(Clone, Copy, PartialEq, Eq, Structural, Debug)]
pub enum GeoError {
    InvalidAddress,
    NotFound,
}

/// Decimal digit, by code point.
pub open spec fn is_digit(c: char) -> bool {
    48 <= c as int <= 57
}

/// The value of a decimal digit character.
pub open spec fn digit_val(c: char) -> int {
    c as int - 48
}

/// The character for a decimal digit value.
pub open spec fn digit_char(d: int) -> char {
    if d == 0 {
        '0'
    } else if d == 1 {
        '1'
    } else if d == 2 {
        '2'
    } else if d == 3 {
        '3'
    } else if d == 4 {
        '4'
    } else if d == 5 {
        '5'
    } else if d == 6 {
        '6'
    } else if d == 7 {
        '7'
    } else if d == 8 {
        '8'
    } else {
        '9'
    }
}

/// The canonical decimal text of an octet value: no leading zeros, one to
/// three digits.
pub open spec fn spec_dec(n: int) -> Seq<char> {
    if n < 10 {
        seq![digit_char(n)]
    } else if n < 100 {
        seq![digit_char(n / 10), digit_char(n % 10)]
    } else {
        seq![digit_char(n / 100), digit_char((n / 10) % 10), digit_char(n % 10)]
    }
}

/// The value a short digit string denotes.
pub open spec fn octet_val(s: Seq<char>) -> int {
    if s.len() == 1 {
        digit_val(s[0])
    } else if s.len() == 2 {
        10 * digit_val(s[0]) + digit_val(s[1])
    } else {
        100 * digit_val(s[0]) + 10 * digit_val(s[1]) + digit_val(s[2])
    }
}

/// The canonical dotted-quad text of an address.
pub open spec fn spec_ipv4(a: u8, b: u8, c: u8, d: u8) -> Seq<char> {
    spec_dec(a as int) + seq!['.'] + spec_dec(b as int) + seq!['.'] + spec_dec(c as int)
        + seq!['.'] + spec_dec(d as int)
}

/// Whether a text is the canonical dotted-quad form of some address.
pub open spec fn is_ipv4_text(s: Seq<char>) -> bool {
    exists|a: u8, b: u8, c: u8, d: u8| s == spec_ipv4(a, b, c, d)
}

/// An octet of value `v` written canonically from `start` to `end`, with no
/// digit following it.
pub open spec fn octet_at(s: Seq<char>, start: int, v: u8, end: int) -> bool {
    &&& 0 <= start < end <= s.len()
    &&& s.subrange(start, end) == spec_dec(v as int)
    &&& (end == s.len() || !is_digit(s[end]))
}

proof fn lemma_digit_char_inv(c: char)
    requires
        is_digit(c),
    ensures
        digit_char(digit_val(c)) == c,
{
    if c as int == 48 {
        assert(c == '0');
    } else if c as int == 49 {
        assert(c == '1');
    } else if c as int == 50 {
        assert(c == '2');
    } else if c as int == 51 {
        assert(c == '3');
    } else if c as int == 52 {
        assert(c == '4');
    } else if c as int == 53 {
        assert(c == '5');
    } else if c as int == 54 {
        assert(c == '6');
    } else if c as int == 55 {
        assert(c == '7');
    } else if c as int == 56 {
        assert(c == '8');
    } else {
        assert(c == '9');
    }
}

proof fn lemma_dec_props(n: int)
    requires
        0 <= n <= 255,
    ensures
        1 <= spec_dec(n).len() <= 3,
        forall|k: int| 0 <= k < spec_dec(n).len() ==> is_digit(#[trigger] spec_dec(n)[k]),
        spec_dec(n).len() > 1 ==> spec_dec(n)[0] != '0',
        octet_val(spec_dec(n)) == n,
        spec_dec(n).len() == 1 <==> n < 10,
        spec_dec(n).len() == 2 <==> 10 <= n < 100,
        spec_dec(n).len() == 3 <==> 100 <= n,
{
    if n < 10 {
    } else if n < 100 {
        assert(n == 10 * (n / 10) + n % 10) by (nonlinear_arith)
            requires 0 <= n;
        assert(1 <= n / 10 <= 9) by (nonlinear_arith)
            requires 10 <= n < 100;
        assert(0 <= n % 10 <= 9) by (nonlinear_arith)
            requires 0 <= n;
    } else {
        assert(n == 100 * (n / 100) + 10 * ((n / 10) % 10) + n % 10) by (nonlinear_arith)
            requires 0 <= n < 1000;
        assert(1 <= n / 100 <= 9) by (nonlinear_arith)
            requires 100 <= n < 1000;
        assert(0 <= (n / 10) % 10 <= 9) by (nonlinear_arith)
            requires 0 <= n;
        assert(0 <= n % 10 <= 9) by (nonlinear_arith)
            requires 0 <= n;
    }
}

proof fn lemma_dec_injective(n1: int, n2: int)
    requires
        0 <= n1 <= 255,
        0 <= n2 <= 255,
        spec_dec(n1) == spec_dec(n2),
    ensures
        n1 == n2,
{
    lemma_dec_props(n1);
    lemma_dec_props(n2);
    assert(octet_val(spec_dec(n1)) == octet_val(spec_dec(n2)));
}

proof fn lemma_octet_at_unique(s: Seq<char>, start: int, v1: u8, e1: int, v2: u8, e2: int)
    requires
        octet_at(s, start, v1, e1),
        octet_at(s, start, v2, e2),
    ensures
        v1 == v2,
        e1 == e2,
{
    lemma_dec_props(v1 as int);
    lemma_dec_props(v2 as int);
    if e1 < e2 {
        // the char at e1 sits inside the longer octet, so it is a digit,
        // which the shorter octet's end condition forbids
        assert(s[e1] == s.subrange(start, e2)[e1 - start]);
        assert(is_digit(s[e1]));
        assert(false);
    } else if e2 < e1 {
        assert(s[e2] == s.subrange(start, e1)[e2 - start]);
        assert(is_digit(s[e2]));
        assert(false);
    }
    lemma_dec_injective(v1 as int, v2 as int);
}

proof fn lemma_ipv4_decomposes(a: u8, b: u8, c: u8, d: u8)
    ensures
        ({
            let s = spec_ipv4(a, b, c, d);
            let la = spec_dec(a as int).len() as int;
            let lb = spec_dec(b as int).len() as int;
            let lc = spec_dec(c as int).len() as int;
            let ld = spec_dec(d as int).len() as int;
            &&& s.len() == la + lb + lc + ld + 3
            &&& octet_at(s, 0, a, la)
            &&& s[la] == '.'
            &&& octet_at(s, la + 1, b, la + 1 + lb)
            &&& s[la + 1 + lb] == '.'
            &&& octet_at(s, la + 1 + lb + 1, c, la + 1 + lb + 1 + lc)
            &&& s[la + 1 + lb + 1 + lc] == '.'
            &&& octet_at(s, la + 1 + lb + 1 + lc + 1, d, s.len() as int)
        }),
{
    lemma_dec_props(a as int);
    lemma_dec_props(b as int);
    lemma_dec_props(c as int);
    lemma_dec_props(d as int);
    let s = spec_ipv4(a, b, c, d);
    let la = spec_dec(a as int).len() as int;
    let lb = spec_dec(b as int).len() as int;
    let lc = spec_dec(c as int).len() as int;
    let ld = spec_dec(d as int).len() as int;
    assert(s.subrange(0, la) =~= spec_dec(a as int));
    assert(s.subrange(la + 1, la + 1 + lb) =~= spec_dec(b as int));
    assert(s.subrange(la + 1 + lb + 1, la + 1 + lb + 1 + lc) =~= spec_dec(c as int));
    assert(s.subrange(la + 1 + lb + 1 + lc + 1, s.len() as int) =~= spec_dec(d as int));
    assert(!is_digit('.'));
}

/// Whether `c` is a decimal digit.
fn digit(c: char) -> (r: bool)
    ensures
        r == is_digit(c),
{
    let u = c as u32;
    48 <= u && u <= 57
}

/// The value of a digit character.
fn digit_value(c: char) -> (r: u8)
    requires
        is_digit(c),
    ensures
        r as int == digit_val(c),
        r < 10,
{
    ((c as u32) - 48) as u8
}

/// Scan one canonical octet starting at `start`: one to three digits, no
/// leading zero, value at most 255, not followed by a further digit.
fn parse_octet(s: &str, start: usize, n: usize) -> (r: Option<(u8, usize)>)
    requires
        n == s@.len(),
        start <= n,
    ensures
        r matches Some(p) ==> octet_at(s@, start as int, p.0, p.1 as int),
        r is None ==> forall|v: u8, e: int| !octet_at(s@, start as int, v, e),
{
    proof {
        assert forall|v: u8, e: int| octet_at(s@, start as int, v, e) implies is_digit(
            s@[start as int],
        ) && start < n by {
            lemma_dec_props(v as int);
            assert(s@[start as int] == s@.subrange(start as int, e)[0]);
        }
    }
    if start >= n {
        return None;
    }
    let c0 = s.get_char(start);
    if !digit(c0) {
        return None;
    }
    let d0 = digit_value(c0);
    proof {
        lemma_digit_char_inv(c0);
    }
    if d0 == 0 {
        // only the single octet "0" may start with a zero
        if start + 1 < n && digit(s.get_char(start + 1)) {
            proof {
                assert forall|v: u8, e: int| !octet_at(s@, start as int, v, e) by {
                    if octet_at(s@, start as int, v, e) {
                        lemma_dec_props(v as int);
                        assert(spec_dec(v as int)[0] == s@[start as int]);
                        assert(e - start == 1);
                        assert(is_digit(s@[e]));
                    }
                }
            }
            return None;
        }
        proof {
            assert(s@.subrange(start as int, start + 1) =~= spec_dec(0));
        }
        return Some((0, start + 1));
    }
    if start + 1 >= n || !digit(s.get_char(start + 1)) {
        proof {
            assert(s@.subrange(start as int, start + 1) =~= spec_dec(d0 as int));
        }
        return Some((d0, start + 1));
    }
    let c1 = s.get_char(start + 1);
    let d1 = digit_value(c1);
    proof {
        lemma_digit_char_inv(c1);
    }
    if start + 2 >= n || !digit(s.get_char(start + 2)) {
        let v: u8 = 10 * d0 + d1;
        proof {
            assert(v as int / 10 == d0 as int && v as int % 10 == d1 as int)
                by (nonlinear_arith)
                requires 1 <= d0 < 10 && 0 <= d1 < 10 && v == 10 * d0 + d1;
            assert(s@.subrange(start as int, start + 2) =~= spec_dec(v as int));
        }
        return Some((v, start + 2));
    }
    let c2 = s.get_char(start + 2);
    let d2 = digit_value(c2);
    proof {
        lemma_digit_char_inv(c2);
    }
    if start + 3 < n && digit(s.get_char(start + 3)) {
        // a fourth digit leaves no admissible end for an octet here
        proof {
            assert forall|v: u8, e: int| !octet_at(s@, start as int, v, e) by {
                if octet_at(s@, start as int, v, e) {
                    lemma_dec_props(v as int);
                    assert(e <= start + 3);
                    assert(e < n);
                    assert(is_digit(s@[e]));
                }
            }
        }
        return None;
    }
    let v32: u32 = 100 * (d0 as u32) + 10 * (d1 as u32) + (d2 as u32);
    proof {
        assert forall|v: u8, e: int| octet_at(s@, start as int, v, e) implies e == start + 3
            && v as int == v32 as int by {
            lemma_dec_props(v as int);
            if e < start + 3 {
                assert(is_digit(s@[e]));
                assert(false);
            }
            assert(s@.subrange(start as int, e)[0] == s@[start as int]);
            assert(s@.subrange(start as int, e)[1] == s@[start + 1]);
            assert(s@.subrange(start as int, e)[2] == s@[start + 2]);
            assert(octet_val(spec_dec(v as int)) == v as int);
        }
    }
    if v32 > 255 {
        return None;
    }
    let v: u8 = v32 as u8;
    proof {
        assert(v as int / 100 == d0 as int && (v as int / 10) % 10 == d1 as int && v as int % 10
            == d2 as int) by (nonlinear_arith)
            requires
                1 <= d0 < 10 && 0 <= d1 < 10 && 0 <= d2 < 10 && v == 100 * d0 + 10 * d1 + d2;
        assert(s@.subrange(start as int, start + 3) =~= spec_dec(v as int));
    }
    Some((v, start + 3))
}

/// Parse the canonical dotted-quad form of an address; anything else is
/// refused.
#[verifier::rlimit(100)]
pub fn parse_ipv4(s: &str) -> (r: Option<(u8, u8, u8, u8)>)
    ensures
        r matches Some(q) ==> s@ == spec_ipv4(q.0, q.1, q.2, q.3),
        r is None ==> !is_ipv4_text(s@),
{
    let n = s.unicode_len();
    let (a, i) = match parse_octet(s, 0, n) {
        Some(p) => p,
        None => {
            proof {
                if is_ipv4_text(s@) {
                    let (a0, b0, c0, d0) = choose|a0: u8, b0: u8, c0: u8, d0: u8|
                        s@ == spec_ipv4(a0, b0, c0, d0);
                    lemma_ipv4_decomposes(a0, b0, c0, d0);
                }
            }
            return None;
        },
    };
    if i >= n || s.get_char(i) != '.' {
        proof {
            if is_ipv4_text(s@) {
                let (a0, b0, c0, d0) = choose|a0: u8, b0: u8, c0: u8, d0: u8|
                    s@ == spec_ipv4(a0, b0, c0, d0);
                lemma_ipv4_decomposes(a0, b0, c0, d0);
                lemma_octet_at_unique(
                    s@,
                    0,
                    a,
                    i as int,
                    a0,
                    spec_dec(a0 as int).len() as int,
                );
            }
        }
        return None;
    }
    let (b, j) = match parse_octet(s, i + 1, n) {
        Some(p) => p,
        None => {
            proof {
                if is_ipv4_text(s@) {
                    let (a0, b0, c0, d0) = choose|a0: u8, b0: u8, c0: u8, d0: u8|
                        s@ == spec_ipv4(a0, b0, c0, d0);
                    lemma_ipv4_decomposes(a0, b0, c0, d0);
                    lemma_octet_at_unique(
                        s@,
                        0,
                        a,
                        i as int,
                        a0,
                        spec_dec(a0 as int).len() as int,
                    );
                }
            }
            return None;
        },
    };
    if j >= n || s.get_char(j) != '.' {
        proof {
            if is_ipv4_text(s@) {
                let (a0, b0, c0, d0) = choose|a0: u8, b0: u8, c0: u8, d0: u8|
                    s@ == spec_ipv4(a0, b0, c0, d0);
                lemma_ipv4_decomposes(a0, b0, c0, d0);
                let la = spec_dec(a0 as int).len() as int;
                lemma_octet_at_unique(s@, 0, a, i as int, a0, la);
                lemma_octet_at_unique(
                    s@,
                    i + 1,
                    b,
                    j as int,
                    b0,
                    la + 1 + spec_dec(b0 as int).len(),
                );
            }
        }
        return None;
    }
    let (c, k) = match parse_octet(s, j + 1, n) {
        Some(p) => p,
        None => {
            proof {
                if is_ipv4_text(s@) {
                    let (a0, b0, c0, d0) = choose|a0: u8, b0: u8, c0: u8, d0: u8|
                        s@ == spec_ipv4(a0, b0, c0, d0);
                    lemma_ipv4_decomposes(a0, b0, c0, d0);
                    let la = spec_dec(a0 as int).len() as int;
                    lemma_octet_at_unique(s@, 0, a, i as int, a0, la);
                    lemma_octet_at_unique(
                        s@,
                        i + 1,
                        b,
                        j as int,
                        b0,
                        la + 1 + spec_dec(b0 as int).len(),
                    );
                }
            }
            return None;
        },
    };
    if k >= n || s.get_char(k) != '.' {
        proof {
            if is_ipv4_text(s@) {
                let (a0, b0, c0, d0) = choose|a0: u8, b0: u8, c0: u8, d0: u8|
                    s@ == spec_ipv4(a0, b0, c0, d0);
                lemma_ipv4_decomposes(a0, b0, c0, d0);
                let la = spec_dec(a0 as int).len() as int;
                let lb = spec_dec(b0 as int).len() as int;
                lemma_octet_at_unique(s@, 0, a, i as int, a0, la);
                lemma_octet_at_unique(s@, i + 1, b, j as int, b0, la + 1 + lb);
                lemma_octet_at_unique(
                    s@,
                    j + 1,
                    c,
                    k as int,
                    c0,
                    la + 1 + lb + 1 + spec_dec(c0 as int).len(),
                );
            }
        }
        return None;
    }
    let (d, l) = match parse_octet(s, k + 1, n) {
        Some(p) => p,
        None => {
            proof {
                if is_ipv4_text(s@) {
                    let (a0, b0, c0, d0) = choose|a0: u8, b0: u8, c0: u8, d0: u8|
                        s@ == spec_ipv4(a0, b0, c0, d0);
                    lemma_ipv4_decomposes(a0, b0, c0, d0);
                    let la = spec_dec(a0 as int).len() as int;
                    let lb = spec_dec(b0 as int).len() as int;
                    lemma_octet_at_unique(s@, 0, a, i as int, a0, la);
                    lemma_octet_at_unique(s@, i + 1, b, j as int, b0, la + 1 + lb);
                    lemma_octet_at_unique(
                        s@,
                        j + 1,
                        c,
                        k as int,
                        c0,
                        la + 1 + lb + 1 + spec_dec(c0 as int).len(),
                    );
                }
            }
            return None;
        },
    };
    if l != n {
        proof {
            if is_ipv4_text(s@) {
                let (a0, b0, c0, d0) = choose|a0: u8, b0: u8, c0: u8, d0: u8|
                    s@ == spec_ipv4(a0, b0, c0, d0);
                lemma_ipv4_decomposes(a0, b0, c0, d0);
                let la = spec_dec(a0 as int).len() as int;
                let lb = spec_dec(b0 as int).len() as int;
                let lc = spec_dec(c0 as int).len() as int;
                lemma_octet_at_unique(s@, 0, a, i as int, a0, la);
                lemma_octet_at_unique(s@, i + 1, b, j as int, b0, la + 1 + lb);
                lemma_octet_at_unique(s@, j + 1, c, k as int, c0, la + 1 + lb + 1 + lc);
                lemma_octet_at_unique(
                    s@,
                    k + 1,
                    d,
                    l as int,
                    d0,
                    s@.len() as int,
                );
            }
        }
        return None;
    }
    proof {
        assert(s@ =~= s@.subrange(0, i as int) + seq!['.'] + s@.subrange(i + 1, j as int)
            + seq!['.'] + s@.subrange(j + 1, k as int) + seq!['.'] + s@.subrange(
            k + 1,
            n as int,
        ));
    }
    Some((a, b, c, d))
}

/// Two canonical dotted-quad texts are the same only for the same address.
pub proof fn lemma_ipv4_injective(a: u8, b: u8, c: u8, d: u8, a2: u8, b2: u8, c2: u8, d2: u8)
    requires
        spec_ipv4(a, b, c, d) == spec_ipv4(a2, b2, c2, d2),
    ensures
        a == a2 && b == b2 && c == c2 && d == d2,
{
    let s = spec_ipv4(a, b, c, d);
    lemma_ipv4_decomposes(a, b, c, d);
    lemma_ipv4_decomposes(a2, b2, c2, d2);
    let la = spec_dec(a as int).len() as int;
    let la2 = spec_dec(a2 as int).len() as int;
    lemma_octet_at_unique(s, 0, a, la, a2, la2);
    let lb = spec_dec(b as int).len() as int;
    let lb2 = spec_dec(b2 as int).len() as int;
    lemma_octet_at_unique(s, la + 1, b, la + 1 + lb, b2, la2 + 1 + lb2);
    let lc = spec_dec(c as int).len() as int;
    let lc2 = spec_dec(c2 as int).len() as int;
    lemma_octet_at_unique(s, la + 1 + lb + 1, c, la + 1 + lb + 1 + lc, c2, la2 + 1 + lb2 + 1 + lc2);
    lemma_octet_at_unique(s, la + 1 + lb + 1 + lc + 1, d, s.len() as int, d2, s.len() as int);
}

/// The offline geo database, held through the outside reader crate; its
/// contents are opaque here and reached only through the lookup below.
#[verifier::external_body]
pub struct GeoDb {
    reader: maxminddb::Reader<Vec<u8>>,
}

impl GeoDb {
    /// Relies on maxminddb::Reader::from_source: builds a reader over the
    /// raw database bytes, refusing malformed data.
    #[verifier::external_body]
    pub fn from_bytes(bytes: Vec<u8>) -> (r: Option<GeoDb>) {
        match maxminddb::Reader::from_source(bytes) {
            Ok(reader) => Some(GeoDb { reader }),
            Err(_) => None,
        }
    }
}

/// The country code the database associates with an address, if any: what
/// the offline lookup returns for given database contents and octets.
pub uninterp spec fn geo_country_of(db: GeoDb, a: u8, b: u8, c: u8, d: u8) -> Option<Seq<char>>;

/// Relies on maxminddb::Reader::lookup and LookupResult::decode: the record
/// found for an address is read from the immutable in-memory database alone,
/// so the returned ISO country code is a function of the database contents
/// and the four octets; absent records, records without a country code, and
/// lookup failures all yield nothing.
#[verifier::external_body]
fn lookup_country_code(db: &GeoDb, a: u8, b: u8, c: u8, d: u8) -> (r: Option<String>)
    ensures
        r is Some <==> geo_country_of(*db, a, b, c, d) is Some,
        r matches Some(code) ==> geo_country_of(*db, a, b, c, d) == Some(code@),
{
    let looked = match db.reader.lookup([a, b, c, d].into()) {
        Ok(l) => l,
        Err(_) => return None,
    };
    let record: Option<maxminddb::geoip2::Country> = match looked.decode() {
        Ok(rec) => rec,
        Err(_) => return None,
    };
    match record.and_then(|rec| rec.country.iso_code) {
        Some(code) => Some(code.to_string()),
        None => None,
    }
}

/// The country tag a flush attaches to an address: the database's country
/// code when the text is a canonical dotted quad with a known country, and
/// nothing otherwise.
pub open spec fn spec_country_tag(db: GeoDb, addr: Seq<char>) -> Option<Seq<char>> {
    if is_ipv4_text(addr) {
        let (a, b, c, d) = choose|a: u8, b: u8, c: u8, d: u8| addr == spec_ipv4(a, b, c, d);
        geo_country_of(db, a, b, c, d)
    } else {
        None
    }
}

/// Resolve a textual address to its ISO country code through the offline
/// database; unparsable text and unknown addresses fail without harm.
pub fn geo_ip_decode(db: &GeoDb, address: &str) -> (r: Result<String, GeoError>)
    ensures
        r == Err::<String, GeoError>(GeoError::InvalidAddress) <==> !is_ipv4_text(address@),
        r matches Ok(code) ==> spec_country_tag(*db, address@) == Some(code@),
        r == Err::<String, GeoError>(GeoError::NotFound) ==> spec_country_tag(*db, address@)
            is None,
        r is Err <==> spec_country_tag(*db, address@) is None,
{
    match parse_ipv4(address) {
        None => Err(GeoError::InvalidAddress),
        Some((a, b, c, d)) => {
            proof {
                let (a0, b0, c0, d0) = choose|a0: u8, b0: u8, c0: u8, d0: u8|
                    address@ == spec_ipv4(a0, b0, c0, d0);
                lemma_ipv4_injective(a, b, c, d, a0, b0, c0, d0);
            }
            match lookup_country_code(db, a, b, c, d) {
                Some(code) => Ok(code),
                None => Err(GeoError::NotFound),
            }
        },
    }
}

} // verus!
