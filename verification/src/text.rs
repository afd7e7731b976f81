//! Verified byte-level text: decimal numbers, lowercase hex, and ASCII
//! case folding. Rendering and parsing round-trip exactly, which the
//! config and header formats built on them inherit.

use vstd::prelude::*;

verus! {

/// The decimal digit for a value below ten.
pub open spec fn dec_digit(d: nat) -> u8 {
    (48 + d) as u8
}

/// Decimal rendering of a number, most significant digit first.
pub open spec fn spec_dec(n: nat) -> Seq<u8>
    decreases n,
{
    if n < 10 {
        seq![dec_digit(n)]
    } else {
        spec_dec(n / 10).push(dec_digit(n % 10))
    }
}

/// The number a digit string denotes.
pub open spec fn dec_value(s: Seq<u8>) -> nat
    decreases s.len(),
{
    if s.len() == 0 {
        0
    } else {
        (dec_value(s.drop_last()) * 10 + (s.last() - 48)) as nat
    }
}

/// A canonical decimal token: digits only, no redundant leading zero.
pub open spec fn is_dec(s: Seq<u8>) -> bool {
    &&& s.len() > 0
    &&& forall|i: int| 0 <= i < s.len() ==> 48 <= #[trigger] s[i] <= 57
    &&& (s[0] != 48 || s.len() == 1)
}

/// Rendering is canonical and denotes the number it was made from.
pub proof fn lemma_dec_round_trip(n: nat)
    ensures
        is_dec(spec_dec(n)),
        dec_value(spec_dec(n)) == n,
    decreases n,
{
    if n < 10 {
        let s = spec_dec(n);
        assert(s =~= seq![dec_digit(n)]);
        assert(s.drop_last() =~= Seq::<u8>::empty());
        assert(dec_value(s.drop_last()) == 0);
        assert(s.last() == dec_digit(n));
        assert(dec_value(s) == n);
    } else {
        lemma_dec_round_trip(n / 10);
        lemma_dec_len(n / 10);
        let s = spec_dec(n);
        assert(s == spec_dec(n / 10).push(dec_digit(n % 10)));
        assert(s.drop_last() =~= spec_dec(n / 10));
        assert(s.last() == dec_digit(n % 10));
        assert(dec_value(s) == (n / 10) * 10 + n % 10);
        assert((n / 10) * 10 + n % 10 == n) by (nonlinear_arith);
        assert(spec_dec(n / 10)[0] != 48) by {
            if n / 10 < 10 {
                assert(spec_dec(n / 10) == seq![dec_digit(n / 10)]);
                assert(n / 10 >= 1);
            } else {
                lemma_dec_len(n / 100);
                assert(spec_dec(n / 10) == spec_dec(n / 10 / 10).push(
                    dec_digit((n / 10) % 10),
                ));
                assert(n / 10 / 10 == n / 100) by (nonlinear_arith);
                assert(spec_dec(n / 10).len() >= 2);
            }
        }
        assert(s[0] == spec_dec(n / 10)[0]);
    }
}

/// Decimal renderings are never empty.
pub proof fn lemma_dec_len(n: nat)
    ensures
        spec_dec(n).len() >= 1,
    decreases n,
{
    if n >= 10 {
        lemma_dec_len(n / 10);
    }
}

/// Decimal rendering of `n`.
pub fn render_dec(n: u64) -> (r: Vec<u8>)
    ensures
        r@ == spec_dec(n as nat),
    decreases n,
{
    if n < 10 {
        let mut v: Vec<u8> = Vec::new();
        v.push(48 + n as u8);
        proof {
            assert(v@ =~= spec_dec(n as nat));
        }
        v
    } else {
        let mut v = render_dec(n / 10);
        v.push(48 + (n % 10) as u8);
        v
    }
}

/// Parse a canonical decimal token. `None` when the bytes are not a
/// canonical decimal or the value exceeds `u64::MAX`.
pub fn parse_dec(s: &[u8]) -> (r: Option<u64>)
    ensures
        match r {
            Some(v) => is_dec(s@) && dec_value(s@) == v,
            None => !is_dec(s@) || dec_value(s@) > u64::MAX,
        },
{
    let n = s.len();
    if n == 0 {
        return None;
    }
    if s[0] == 48 && n > 1 {
        return None;
    }
    let mut acc: u64 = 0;
    let mut i: usize = 0;
    while i < n
        invariant
            i <= n,
            n == s@.len(),
            n > 0,
            s@[0] != 48 || n == 1,
            forall|k: int| 0 <= k < i ==> 48 <= #[trigger] s@[k] <= 57,
            acc == dec_value(s@.take(i as int)),
        decreases n - i,
    {
        let c = s[i];
        if c < 48 || c > 57 {
            return None;
        }
        let d = (c - 48) as u64;
        if acc > (u64::MAX - d) / 10 {
            proof {
                assert(s@.take(i as int + 1).drop_last() =~= s@.take(i as int));
                assert(s@.take(i as int + 1).last() == s@[i as int]);
                assert(acc * 10 + d > u64::MAX) by (nonlinear_arith)
                    requires
                        acc > (u64::MAX - d) / 10 && d < 10 && acc >= 0,
                ;
                if forall|k: int| 0 <= k < s@.len() ==> 48 <= #[trigger] s@[k] <= 57 {
                    lemma_dec_value_monotone(s@.take(i as int + 1), s@);
                }
            }
            return None;
        }
        proof {
            assert(s@.take(i as int + 1).drop_last() =~= s@.take(i as int));
            assert(s@.take(i as int + 1).last() == s@[i as int]);
            assert(acc * 10 + d <= u64::MAX) by (nonlinear_arith)
                requires
                    acc <= (u64::MAX - d) / 10 && d < 10 && acc >= 0,
            ;
        }
        acc = acc * 10 + d;
        i = i + 1;
    }
    proof {
        assert(s@.take(n as int) =~= s@);
    }
    Some(acc)
}

/// A longer canonical digit string denotes at least as much; used to show
/// that a parse that overflows `u64` denotes a too-large number.
pub proof fn lemma_dec_value_monotone(prefix: Seq<u8>, s: Seq<u8>)
    requires
        prefix.len() <= s.len(),
        forall|i: int| 0 <= i < s.len() ==> 48 <= #[trigger] s[i] <= 57,
        prefix =~= s.take(prefix.len() as int),
    ensures
        dec_value(s) >= dec_value(prefix),
    decreases s.len() - prefix.len(),
{
    if prefix.len() < s.len() {
        let next = s.take(prefix.len() as int + 1);
        assert(next.drop_last() =~= prefix);
        assert(48 <= next.last() <= 57);
        assert(dec_value(next) == dec_value(prefix) * 10 + (next.last() - 48));
        assert(dec_value(prefix) * 10 >= dec_value(prefix)) by (nonlinear_arith)
            requires
                dec_value(prefix) >= 0,
        ;
        lemma_dec_value_monotone(next, s);
    } else {
        assert(prefix =~= s);
    }
}

/// The lowercase hex digit for a value below sixteen.
pub open spec fn hex_digit(d: nat) -> u8 {
    if d < 10 {
        (48 + d) as u8
    } else {
        (87 + d) as u8
    }
}

/// The value of a lowercase or uppercase hex digit, or 16 for other bytes.
pub open spec fn hex_digit_value(c: u8) -> nat {
    if 48 <= c <= 57 {
        (c - 48) as nat
    } else if 97 <= c <= 102 {
        (c - 87) as nat
    } else if 65 <= c <= 70 {
        (c - 55) as nat
    } else {
        16
    }
}

/// Lowercase hex rendering of a byte string, two digits per byte.
pub open spec fn spec_hex(bytes: Seq<u8>) -> Seq<u8>
    decreases bytes.len(),
{
    if bytes.len() == 0 {
        Seq::empty()
    } else {
        spec_hex(bytes.drop_last()) + seq![
            hex_digit(bytes.last() as nat / 16),
            hex_digit(bytes.last() as nat % 16),
        ]
    }
}

/// Hex rendering of a byte string.
pub fn render_hex(bytes: &[u8]) -> (r: Vec<u8>)
    ensures
        r@ == spec_hex(bytes@),
{
    let n = bytes.len();
    let mut r: Vec<u8> = Vec::new();
    let mut i: usize = 0;
    while i < n
        invariant
            i <= n,
            n == bytes@.len(),
            r@ == spec_hex(bytes@.take(i as int)),
        decreases n - i,
    {
        let b = bytes[i];
        let hi = b / 16;
        let lo = b % 16;
        r.push(
            if hi < 10 {
                48 + hi
            } else {
                87 + hi
            },
        );
        r.push(
            if lo < 10 {
                48 + lo
            } else {
                87 + lo
            },
        );
        proof {
            assert(bytes@.take(i as int + 1).drop_last() =~= bytes@.take(i as int));
            assert(bytes@.take(i as int + 1).last() == bytes@[i as int]);
            assert(r@ =~= spec_hex(bytes@.take(i as int + 1)));
        }
        i = i + 1;
    }
    proof {
        assert(bytes@.take(n as int) =~= bytes@);
    }
    r
}

/// Parse a hex string of even length into bytes. `None` when the length is
/// odd or a byte is not a hex digit.
pub fn parse_hex(s: &[u8]) -> (r: Option<Vec<u8>>)
    ensures
        match r {
            Some(v) => s@.len() % 2 == 0 && v@.len() * 2 == s@.len() && spec_hex(v@)
                == spec_lower_hex(s@),
            None => s@.len() % 2 != 0 || exists|i: int|
                0 <= i < s@.len() && hex_digit_value(#[trigger] s@[i]) == 16,
        },
{
    let n = s.len();
    if n % 2 != 0 {
        return None;
    }
    let mut v: Vec<u8> = Vec::new();
    let mut i: usize = 0;
    while i < n
        invariant
            i <= n,
            i % 2 == 0,
            n % 2 == 0,
            n == s@.len(),
            v@.len() * 2 == i,
            spec_hex(v@) =~= spec_lower_hex(s@.take(i as int)),
            forall|k: int| 0 <= k < i ==> hex_digit_value(#[trigger] s@[k]) != 16,
        decreases n - i,
    {
        let hi = hex_value(s[i]);
        let lo = hex_value(s[i + 1]);
        if hi == 16 || lo == 16 {
            return None;
        }
        let ghost v_pre = v@;
        let ghost a = s@[i as int];
        let ghost b = s@[i as int + 1];
        v.push(hi * 16 + lo);
        proof {
            assert(v@.drop_last() =~= v_pre);
            assert(v@.last() == hi * 16 + lo);
            assert(v@.last() as nat / 16 == hi && v@.last() as nat % 16 == lo)
                by (nonlinear_arith)
                requires
                    v@.last() == hi * 16 + lo && hi < 16 && lo < 16,
            ;
            assert(s@.take(i as int + 2) =~= s@.take(i as int) + seq![a, b]);
            lemma_lower_hex_snoc2(s@.take(i as int), a, b);
            assert(spec_hex(v@) == spec_hex(v_pre) + seq![
                hex_digit(v@.last() as nat / 16),
                hex_digit(v@.last() as nat % 16),
            ]);
            assert(hex_digit_value(a) % 16 == hex_digit_value(a));
            assert(hex_digit_value(b) % 16 == hex_digit_value(b));
            assert(spec_hex(v@) =~= spec_lower_hex(s@.take(i as int + 2)));
        }
        i = i + 2;
    }
    proof {
        assert(s@.take(n as int) =~= s@);
    }
    Some(v)
}

/// The hex string with its digits lowercased, each digit replaced by the
/// canonical digit of its value.
pub open spec fn spec_lower_hex(s: Seq<u8>) -> Seq<u8>
    decreases s.len(),
{
    if s.len() == 0 {
        Seq::empty()
    } else {
        spec_lower_hex(s.drop_last()).push(hex_digit(hex_digit_value(s.last()) % 16))
    }
}

proof fn lemma_lower_hex_snoc2(s: Seq<u8>, a: u8, b: u8)
    ensures
        spec_lower_hex(s + seq![a, b]) == spec_lower_hex(s).push(
            hex_digit(hex_digit_value(a) % 16),
        ).push(hex_digit(hex_digit_value(b) % 16)),
{
    let s2 = s + seq![a, b];
    let s1 = s + seq![a];
    assert(s2.drop_last() =~= s1);
    assert(s2.last() == b);
    assert(s1.drop_last() =~= s);
    assert(s1.last() == a);
    assert(spec_lower_hex(s2) == spec_lower_hex(s2.drop_last()).push(
        hex_digit(hex_digit_value(s2.last()) % 16),
    ));
    assert(spec_lower_hex(s2.drop_last()) == spec_lower_hex(s1));
    assert(spec_lower_hex(s1) == spec_lower_hex(s1.drop_last()).push(
        hex_digit(hex_digit_value(s1.last()) % 16),
    ));
    assert(spec_lower_hex(s1.drop_last()) == spec_lower_hex(s));
}

/// The value of one hex digit, 16 for a byte that is not one.
pub fn hex_value(c: u8) -> (r: u8)
    ensures
        r as nat == hex_digit_value(c),
{
    if 48 <= c && c <= 57 {
        c - 48
    } else if 97 <= c && c <= 102 {
        c - 87
    } else if 65 <= c && c <= 70 {
        c - 55
    } else {
        16
    }
}

/// Hex rendering then parsing returns the bytes unchanged.
pub proof fn lemma_hex_round_trip(bytes: Seq<u8>)
    ensures
        spec_hex(bytes).len() == bytes.len() * 2,
        spec_lower_hex(spec_hex(bytes)) == spec_hex(bytes),
        forall|i: int| 0 <= i < spec_hex(bytes).len() ==> hex_digit_value(
            #[trigger] spec_hex(bytes)[i],
        ) != 16,
    decreases bytes.len(),
{
    if bytes.len() > 0 {
        lemma_hex_round_trip(bytes.drop_last());
        let h = spec_hex(bytes);
        let hp = spec_hex(bytes.drop_last());
        assert(h == hp + seq![
            hex_digit(bytes.last() as nat / 16),
            hex_digit(bytes.last() as nat % 16),
        ]);
        lemma_lower_hex_snoc2(
            hp,
            hex_digit(bytes.last() as nat / 16),
            hex_digit(bytes.last() as nat % 16),
        );
        assert(hex_digit_value(hex_digit(bytes.last() as nat / 16)) == bytes.last() as nat / 16);
        assert(hex_digit_value(hex_digit(bytes.last() as nat % 16)) == bytes.last() as nat % 16);
        assert(spec_lower_hex(spec_lower_hex(hp) + seq![
            hex_digit(bytes.last() as nat / 16),
            hex_digit(bytes.last() as nat % 16),
        ]) == spec_lower_hex(hp).push(hex_digit(bytes.last() as nat / 16)).push(
            hex_digit(bytes.last() as nat % 16),
        )) by {
            lemma_lower_hex_snoc2(
                spec_lower_hex(hp),
                hex_digit(bytes.last() as nat / 16),
                hex_digit(bytes.last() as nat % 16),
            );
        }
        assert(spec_lower_hex(h) =~= h);
        assert forall|i: int| 0 <= i < h.len() implies hex_digit_value(#[trigger] h[i]) != 16 by {
            if i < hp.len() {
                assert(h[i] == hp[i]);
            }
        }
    }
}

/// Two byte strings with the same hex rendering are the same.
pub proof fn lemma_hex_injective(a: Seq<u8>, b: Seq<u8>)
    requires
        spec_hex(a) == spec_hex(b),
    ensures
        a == b,
    decreases a.len(),
{
    lemma_hex_round_trip(a);
    lemma_hex_round_trip(b);
    if a.len() == 0 {
        assert(a =~= b);
    } else {
        let ha = spec_hex(a);
        assert(ha.len() >= 2);
        assert(spec_hex(a.drop_last()) =~= spec_hex(b.drop_last())) by {
            assert(spec_hex(a.drop_last()) =~= ha.take(ha.len() - 2));
            assert(spec_hex(b.drop_last()) =~= ha.take(ha.len() - 2));
        }
        lemma_hex_injective(a.drop_last(), b.drop_last());
        assert(hex_digit_value(ha[ha.len() - 2]) == a.last() as nat / 16);
        assert(hex_digit_value(ha[ha.len() - 1]) == a.last() as nat % 16);
        assert(hex_digit_value(ha[ha.len() - 2]) == b.last() as nat / 16);
        assert(hex_digit_value(ha[ha.len() - 1]) == b.last() as nat % 16);
        assert(a.last() as nat == (a.last() as nat / 16) * 16 + a.last() as nat % 16);
        assert(b.last() as nat == (b.last() as nat / 16) * 16 + b.last() as nat % 16);
        assert(a.last() == b.last());
        assert(a.drop_last() == b.drop_last());
        assert(a.len() == b.len()) by {
            assert(spec_hex(a).len() == a.len() * 2 && spec_hex(b).len() == b.len() * 2);
        }
        assert forall|i: int| 0 <= i < a.len() implies a[i] == b[i] by {
            if i < a.len() - 1 {
                assert(a[i] == a.drop_last()[i] && b[i] == b.drop_last()[i]);
            }
        }
        assert(a =~= b);
    }
}

/// ASCII lowercase of one byte.
pub open spec fn ascii_lower(c: u8) -> u8 {
    if 65 <= c <= 90 {
        (c + 32) as u8
    } else {
        c
    }
}

/// ASCII lowercase of a byte string; bytes outside A..Z are unchanged.
pub open spec fn spec_ascii_lowercase(s: Seq<u8>) -> Seq<u8> {
    s.map_values(|c: u8| ascii_lower(c))
}

/// Lowercase a byte string in ASCII.
pub fn ascii_lowercase(s: &[u8]) -> (r: Vec<u8>)
    ensures
        r@ == spec_ascii_lowercase(s@),
{
    let n = s.len();
    let mut r: Vec<u8> = Vec::new();
    let mut i: usize = 0;
    while i < n
        invariant
            i <= n,
            n == s@.len(),
            r@.len() == i,
            forall|k: int| 0 <= k < i ==> #[trigger] r@[k] == ascii_lower(s@[k]),
        decreases n - i,
    {
        let c = s[i];
        if 65 <= c && c <= 90 {
            r.push(c + 32);
        } else {
            r.push(c);
        }
        i = i + 1;
    }
    proof {
        assert(r@ =~= spec_ascii_lowercase(s@));
    }
    r
}

/// A copy of a byte string.
pub fn copy_bytes(b: &Vec<u8>) -> (r: Vec<u8>)
    ensures
        r@ == b@,
{
    let mut v: Vec<u8> = Vec::new();
    let n = b.len();
    let mut i: usize = 0;
    while i < n
        invariant
            i <= n,
            n == b@.len(),
            v@ == b@.take(i as int),
        decreases n - i,
    {
        v.push(b[i]);
        proof {
            assert(v@ =~= b@.take(i as int + 1));
        }
        i = i + 1;
    }
    proof {
        assert(b@.take(n as int) =~= b@);
    }
    v
}

} // verus!
