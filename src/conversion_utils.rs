use vstd::prelude::*;

verus! {

/// Whether `c` is an ASCII decimal digit.
pub open spec fn is_digit(c: char) -> bool {
    '0' <= c && c <= '9'
}

/// The value of the decimal digit `c`.
pub open spec fn digit_value(c: char) -> nat {
    ((c as int) - ('0' as int)) as nat
}

/// The character of the decimal digit `d`.
pub open spec fn digit_char(d: nat) -> char {
    if d == 0 { '0' }
    else if d == 1 { '1' }
    else if d == 2 { '2' }
    else if d == 3 { '3' }
    else if d == 4 { '4' }
    else if d == 5 { '5' }
    else if d == 6 { '6' }
    else if d == 7 { '7' }
    else if d == 8 { '8' }
    else { '9' }
}

/// The decimal text of `n`, without leading zeros.
pub open spec fn decimal(n: nat) -> Seq<char>
    decreases n,
{
    if n < 10 {
        seq![digit_char(n)]
    } else {
        decimal(n / 10).push(digit_char(n % 10))
    }
}

/// The four octets of `k`, most significant first.
pub open spec fn octet(k: u32, i: nat) -> nat {
    ((k as nat) / pow256(3 - i)) % 256
}

pub open spec fn pow256(e: int) -> nat {
    if e <= 0 { 1 } else if e == 1 { 256 } else if e == 2 { 65536 } else { 16777216 }
}

/// The dotted-quad text of a key: its four octets in decimal, most significant
/// first, joined by dots.
pub open spec fn quad_text(k: u32) -> Seq<char> {
    decimal(octet(k, 0)) + seq!['.'] + decimal(octet(k, 1)) + seq!['.'] + decimal(octet(k, 2))
        + seq!['.'] + decimal(octet(k, 3))
}

fn digit_str(d: u32) -> (r: &'static str)
    requires
        d < 10,
    ensures
        r@ == seq![digit_char(d as nat)],
{
    if d == 0 {
        proof { reveal_strlit("0"); }
        "0"
    } else if d == 1 {
        proof { reveal_strlit("1"); }
        "1"
    } else if d == 2 {
        proof { reveal_strlit("2"); }
        "2"
    } else if d == 3 {
        proof { reveal_strlit("3"); }
        "3"
    } else if d == 4 {
        proof { reveal_strlit("4"); }
        "4"
    } else if d == 5 {
        proof { reveal_strlit("5"); }
        "5"
    } else if d == 6 {
        proof { reveal_strlit("6"); }
        "6"
    } else if d == 7 {
        proof { reveal_strlit("7"); }
        "7"
    } else if d == 8 {
        proof { reveal_strlit("8"); }
        "8"
    } else {
        proof { reveal_strlit("9"); }
        "9"
    }
}

/// Appends the decimal text of a byte value to `out`.
fn append_decimal(out: &mut String, n: u32)
    requires
        n < 256,
    ensures
        final(out)@ == old(out)@ + decimal(n as nat),
{
    let ghost m = n as nat;
    if n >= 100 {
        assert(decimal(m / 10 / 10) == seq![digit_char(m / 10 / 10)]);
        assert(decimal(m / 10) == decimal(m / 10 / 10).push(digit_char((m / 10) % 10)));
        assert(decimal(m) == decimal(m / 10).push(digit_char(m % 10)));
        assert(m / 10 / 10 == (n / 100) as nat);
        out.append(digit_str(n / 100));
        out.append(digit_str((n / 10) % 10));
        out.append(digit_str(n % 10));
    } else if n >= 10 {
        assert(decimal(m / 10) == seq![digit_char(m / 10)]);
        assert(decimal(m) == decimal(m / 10).push(digit_char(m % 10)));
        out.append(digit_str(n / 10));
        out.append(digit_str(n % 10));
    } else {
        out.append(digit_str(n));
    }
    assert(out@ =~= old(out)@ + decimal(m));
}

/// Converts a key back to the dotted-quad text of its address. Total: every
/// 32-bit value has one.
pub fn u32_to_ip(ip: u32) -> (r: String)
    ensures
        r@ == quad_text(ip),
{
    let mut out = String::new();
    append_decimal(&mut out, ip / 16777216 % 256);
    proof { reveal_strlit("."); }
    out.append(".");
    append_decimal(&mut out, ip / 65536 % 256);
    out.append(".");
    append_decimal(&mut out, ip / 256 % 256);
    out.append(".");
    append_decimal(&mut out, ip % 256);
    assert(out@ =~= quad_text(ip));
    out
}

/// The state of a left-to-right scan of the host part of an address.
pub struct Scan {
    pub failed: bool,
    /// Dots seen so far.
    pub dots: nat,
    /// Whether the octet being read has at least one digit.
    pub has_digit: bool,
    /// Value of the octet being read.
    pub octet: nat,
    /// Value of the completed octets, most significant first.
    pub acc: nat,
}

pub open spec fn scan_start() -> Scan {
    Scan { failed: false, dots: 0, has_digit: false, octet: 0, acc: 0 }
}

pub open spec fn scan_failed(st: Scan) -> Scan {
    Scan { failed: true, dots: st.dots, has_digit: st.has_digit, octet: st.octet, acc: st.acc }
}

/// One character of the host: a dot closes a non-empty octet (at most three
/// dots), a digit extends the current octet as long as its value stays within
/// a byte, anything else fails.
pub open spec fn scan_step(st: Scan, c: char) -> Scan {
    if st.failed {
        st
    } else if c == '.' {
        if !st.has_digit || st.dots >= 3 {
            scan_failed(st)
        } else {
            Scan { failed: false, dots: st.dots + 1, has_digit: false, octet: 0, acc: st.acc * 256 + st.octet }
        }
    } else if is_digit(c) && st.octet * 10 + digit_value(c) <= 255 {
        Scan { failed: false, dots: st.dots, has_digit: true, octet: st.octet * 10 + digit_value(c), acc: st.acc }
    } else {
        scan_failed(st)
    }
}

pub open spec fn scan(st: Scan, s: Seq<char>) -> Scan
    decreases s.len(),
{
    if s.len() == 0 {
        st
    } else {
        scan(scan_step(st, s[0]), s.drop_first())
    }
}

/// The index of the first ':' at or after `i`, or the length of `s`.
pub open spec fn colon_pos(s: Seq<char>, i: int) -> int
    decreases s.len() - i,
{
    if i >= s.len() {
        s.len() as int
    } else if s[i] == ':' {
        i
    } else {
        colon_pos(s, i + 1)
    }
}

/// The address without a trailing `:port`.
pub open spec fn host(s: Seq<char>) -> Seq<char> {
    s.subrange(0, colon_pos(s, 0))
}

/// The key of an address text: its host must be exactly four non-empty
/// decimal octets, each at most 255, joined by dots; the key packs them
/// big-endian.
pub open spec fn address_key(s: Seq<char>) -> Option<u32> {
    let st = scan(scan_start(), host(s));
    if !st.failed && st.dots == 3 && st.has_digit {
        Some((st.acc * 256 + st.octet) as u32)
    } else {
        None
    }
}

proof fn lemma_scan_stays_failed(st: Scan, s: Seq<char>)
    requires
        st.failed,
    ensures
        scan(st, s) == st,
    decreases s.len(),
{
    if s.len() > 0 {
        lemma_scan_stays_failed(scan_step(st, s[0]), s.drop_first());
    }
}

/// Converts an address text, with or without a `:port` suffix, to its key.
/// Returns `None` unless the host part is four dot-separated decimal octets
/// in 0..=255.
pub fn ip_to_u32(ip: String) -> (r: Option<u32>)
    ensures
        r == address_key(ip@),
{
    let s = ip.as_str();
    let n = s.unicode_len();
    let mut p: usize = 0;
    while p < n && s.get_char(p) != ':'
        invariant
            p <= n,
            n == s@.len(),
            s@ == ip@,
            colon_pos(s@, 0) == colon_pos(s@, p as int),
        decreases n - p,
    {
        p = p + 1;
    }
    let ghost h = s@.subrange(0, p as int);
    assert(h == host(ip@));
    let mut dots: u32 = 0;
    let mut has_digit = false;
    let mut octet: u32 = 0;
    let mut acc: u32 = 0;
    let mut i: usize = 0;
    assert(h.subrange(0, p as int) =~= h);
    while i < p
        invariant
            i <= p <= n,
            n == s@.len(),
            h == s@.subrange(0, p as int),
            h == host(ip@),
            dots <= 3,
            octet <= 255,
            acc < pow256(dots as int),
            scan(
                Scan { failed: false, dots: dots as nat, has_digit, octet: octet as nat, acc: acc as nat },
                h.subrange(i as int, p as int),
            ) == scan(scan_start(), h),
        decreases p - i,
    {
        let ghost cur = Scan { failed: false, dots: dots as nat, has_digit, octet: octet as nat, acc: acc as nat };
        let c = s.get_char(i);
        assert(h.subrange(i as int, p as int).drop_first() =~= h.subrange(i + 1, p as int));
        assert(h.subrange(i as int, p as int)[0] == c);
        assert(scan(cur, h.subrange(i as int, p as int)) == scan(scan_step(cur, c), h.subrange(i + 1, p as int)));
        if c == '.' {
            if !has_digit || dots >= 3 {
                proof { lemma_scan_stays_failed(scan_step(cur, c), h.subrange(i + 1, p as int)); }
                return None;
            }
            assert((acc as nat) * 256 + (octet as nat) < pow256(dots as int) * 256) by (nonlinear_arith)
                requires acc < pow256(dots as int), octet <= 255;
            acc = acc * 256 + octet;
            dots = dots + 1;
            has_digit = false;
            octet = 0;
        } else if '0' <= c && c <= '9' && octet * 10 + (c as u32 - '0' as u32) <= 255 {
            octet = octet * 10 + (c as u32 - '0' as u32);
            has_digit = true;
        } else {
            proof { lemma_scan_stays_failed(scan_step(cur, c), h.subrange(i + 1, p as int)); }
            return None;
        }
        i = i + 1;
    }
    assert(h.subrange(i as int, p as int) =~= Seq::<char>::empty());
    if dots == 3 && has_digit {
        Some(acc * 256 + octet)
    } else {
        None
    }
}

proof fn lemma_scan_concat(st: Scan, x: Seq<char>, y: Seq<char>)
    ensures
        scan(st, x + y) == scan(scan(st, x), y),
    decreases x.len(),
{
    if x.len() > 0 {
        assert((x + y).drop_first() =~= x.drop_first() + y);
        lemma_scan_concat(scan_step(st, x[0]), x.drop_first(), y);
    } else {
        assert(x + y =~= y);
    }
}

proof fn lemma_scan_one(st: Scan, c: char)
    ensures
        scan(st, seq![c]) == scan_step(st, c),
{
    assert(seq![c].drop_first() =~= Seq::<char>::empty());
    assert(scan(scan_step(st, c), Seq::<char>::empty()) == scan_step(st, c));
}

proof fn lemma_digit_char(d: nat)
    requires
        d < 10,
    ensures
        is_digit(digit_char(d)),
        digit_value(digit_char(d)) == d,
        digit_char(d) != '.',
        digit_char(d) != ':',
{
}

proof fn lemma_decimal_no_colon(n: nat)
    ensures
        forall|i: int| 0 <= i < decimal(n).len() ==> is_digit(#[trigger] decimal(n)[i]),
    decreases n,
{
    lemma_digit_char(n % 10);
    if n >= 10 {
        lemma_decimal_no_colon(n / 10);
        assert forall|i: int| 0 <= i < decimal(n).len() implies is_digit(#[trigger] decimal(n)[i]) by {
            if i < decimal(n / 10).len() {
                assert(decimal(n)[i] == decimal(n / 10)[i]);
            }
        }
    } else {
        lemma_digit_char(n);
    }
}

/// Scanning the decimal text of a byte value from the start of an octet
/// reads exactly that value.
proof fn lemma_scan_decimal(st: Scan, n: nat)
    requires
        !st.failed,
        st.octet == 0,
        n <= 255,
    ensures
        scan(st, decimal(n)) == (Scan { failed: false, dots: st.dots, has_digit: true, octet: n, acc: st.acc }),
    decreases n,
{
    if n < 10 {
        lemma_digit_char(n);
        lemma_scan_one(st, digit_char(n));
    } else {
        lemma_scan_decimal(st, n / 10);
        lemma_digit_char(n % 10);
        lemma_scan_concat(st, decimal(n / 10), seq![digit_char(n % 10)]);
        assert(decimal(n / 10).push(digit_char(n % 10)) =~= decimal(n / 10) + seq![digit_char(n % 10)]);
        lemma_scan_one(scan(st, decimal(n / 10)), digit_char(n % 10));
    }
}

proof fn lemma_no_colon_pos(s: Seq<char>, i: int)
    requires
        0 <= i <= s.len(),
        forall|j: int| 0 <= j < s.len() ==> s[j] != ':',
    ensures
        colon_pos(s, i) == s.len(),
    decreases s.len() - i,
{
    if i < s.len() {
        lemma_no_colon_pos(s, i + 1);
    }
}

/// Decoding then encoding is the identity: the dotted-quad text of every key
/// is accepted and encodes back to that key.
pub proof fn lemma_encode_decode(k: u32)
    ensures
        address_key(quad_text(k)) == Some(k),
{
    let o0 = octet(k, 0);
    let o1 = octet(k, 1);
    let o2 = octet(k, 2);
    let o3 = octet(k, 3);
    let dot = seq!['.'];
    let t = quad_text(k);
    lemma_decimal_no_colon(o0);
    lemma_decimal_no_colon(o1);
    lemma_decimal_no_colon(o2);
    lemma_decimal_no_colon(o3);
    assert forall|j: int| 0 <= j < t.len() implies t[j] != ':' by {
        let l0 = decimal(o0).len() as int;
        let l1 = decimal(o1).len() as int;
        let l2 = decimal(o2).len() as int;
        if j < l0 {
            assert(t[j] == decimal(o0)[j]);
        } else if j == l0 {
        } else if j < l0 + 1 + l1 {
            assert(t[j] == decimal(o1)[j - l0 - 1]);
        } else if j == l0 + 1 + l1 {
        } else if j < l0 + l1 + 2 + l2 {
            assert(t[j] == decimal(o2)[j - l0 - l1 - 2]);
        } else if j == l0 + l1 + 2 + l2 {
        } else {
            assert(t[j] == decimal(o3)[j - l0 - l1 - l2 - 3]);
        }
    }
    lemma_no_colon_pos(t, 0);
    assert(host(t) =~= t);

    let p1 = decimal(o0);
    let p2 = p1 + dot;
    let p3 = p2 + decimal(o1);
    let p4 = p3 + dot;
    let p5 = p4 + decimal(o2);
    let p6 = p5 + dot;
    assert(t == p6 + decimal(o3));
    lemma_scan_concat(scan_start(), p6, decimal(o3));
    lemma_scan_concat(scan_start(), p5, dot);
    lemma_scan_concat(scan_start(), p4, decimal(o2));
    lemma_scan_concat(scan_start(), p3, dot);
    lemma_scan_concat(scan_start(), p2, decimal(o1));
    lemma_scan_concat(scan_start(), p1, dot);

    lemma_scan_decimal(scan_start(), o0);
    lemma_scan_one(scan(scan_start(), p1), '.');
    let s2 = scan(scan_start(), p2);
    assert(s2 == Scan { failed: false, dots: 1, has_digit: false, octet: 0, acc: o0 });
    lemma_scan_decimal(s2, o1);
    lemma_scan_one(scan(scan_start(), p3), '.');
    let s4 = scan(scan_start(), p4);
    assert(s4 == Scan { failed: false, dots: 2, has_digit: false, octet: 0, acc: o0 * 256 + o1 });
    lemma_scan_decimal(s4, o2);
    lemma_scan_one(scan(scan_start(), p5), '.');
    let s6 = scan(scan_start(), p6);
    assert(s6 == Scan { failed: false, dots: 3, has_digit: false, octet: 0, acc: (o0 * 256 + o1) * 256 + o2 });
    lemma_scan_decimal(s6, o3);
    assert(((o0 * 256 + o1) * 256 + o2) * 256 + o3 == k) by {
        assert(k as nat / 16777216 % 256 == k as nat / 16777216);
        assert(((k as nat / 16777216) * 256 + (k as nat / 65536) % 256) == k as nat / 65536);
        assert(((k as nat / 65536) * 256 + (k as nat / 256) % 256) == k as nat / 256);
        assert(((k as nat / 256) * 256 + k as nat % 256) == k as nat);
    }
}

/// A valid dotted-quad text: one that writes each of four octets in decimal
/// without leading zeros, as `u32_to_ip` does.
pub open spec fn is_dotted_quad(s: Seq<char>) -> bool {
    exists|k: u32| quad_text(k) == s
}

/// Encoding then decoding is the identity on valid dotted-quad texts.
pub proof fn lemma_decode_encode(s: Seq<char>)
    requires
        is_dotted_quad(s),
    ensures
        address_key(s) is Some,
        quad_text(address_key(s)->0) == s,
{
    let k = choose|k: u32| quad_text(k) == s;
    lemma_encode_decode(k);
}

/// The number of dots in `s`.
pub open spec fn dot_count(s: Seq<char>) -> nat
    decreases s.len(),
{
    if s.len() == 0 {
        0
    } else {
        (if s[0] == '.' { 1nat } else { 0nat }) + dot_count(s.drop_first())
    }
}

proof fn lemma_scan_accepts_only_quads(st: Scan, x: Seq<char>)
    ensures
        !scan(st, x).failed ==> {
            &&& !st.failed
            &&& scan(st, x).dots == st.dots + dot_count(x)
            &&& forall|i: int| 0 <= i < x.len() ==> is_digit(#[trigger] x[i]) || x[i] == '.'
        },
    decreases x.len(),
{
    if x.len() > 0 {
        let next = scan_step(st, x[0]);
        lemma_scan_accepts_only_quads(next, x.drop_first());
        if next.failed {
            lemma_scan_stays_failed(next, x.drop_first());
        }
        if !scan(st, x).failed {
            assert forall|i: int| 0 <= i < x.len() implies is_digit(#[trigger] x[i]) || x[i] == '.' by {
                if i > 0 {
                    assert(x[i] == x.drop_first()[i - 1]);
                }
            }
        }
    } else if st.failed {
        lemma_scan_stays_failed(st, x);
    }
}

/// Malformed addresses are rejected: an address is accepted only if its host
/// part consists of digits and dots alone, with exactly three dots (four
/// octets). Octets above 255: see `lemma_large_octet_rejected`.
pub proof fn lemma_malformed_rejected(s: Seq<char>)
    ensures
        (exists|i: int| 0 <= i < host(s).len() && !is_digit(#[trigger] host(s)[i]) && host(s)[i] != '.')
            ==> address_key(s) is None,
        dot_count(host(s)) != 3 ==> address_key(s) is None,
{
    lemma_scan_accepts_only_quads(scan_start(), host(s));
}

proof fn lemma_scan_at_octet_start(x: Seq<char>)
    requires
        x.len() == 0 || x.last() == '.',
    ensures
        scan(scan_start(), x).failed || !scan(scan_start(), x).has_digit,
{
    if x.len() > 0 {
        assert(x =~= x.drop_last() + seq!['.']);
        lemma_scan_concat(scan_start(), x.drop_last(), seq!['.']);
        lemma_scan_one(scan(scan_start(), x.drop_last()), '.');
    }
}

/// Empty octets are rejected: an address whose host starts with a dot, ends
/// with a dot, or holds two dots in a row has no key.
pub proof fn lemma_empty_octet_rejected(s: Seq<char>, i: int)
    requires
        0 <= i < host(s).len(),
        host(s)[i] == '.',
        i == 0 || host(s)[i - 1] == '.' || i == host(s).len() - 1,
    ensures
        address_key(s) is None,
{
    let h = host(s);
    let pre = h.subrange(0, i);
    let post = h.subrange(i + 1, h.len() as int);
    assert(h =~= pre + seq!['.'] + post);
    lemma_scan_concat(scan_start(), pre + seq!['.'], post);
    lemma_scan_concat(scan_start(), pre, seq!['.']);
    let a = scan(scan_start(), pre);
    lemma_scan_one(a, '.');
    let b = scan(a, seq!['.']);
    if i == 0 || h[i - 1] == '.' {
        if i > 0 {
            assert(pre.last() == h[i - 1]);
        }
        lemma_scan_at_octet_start(pre);
        lemma_scan_stays_failed(b, post);
    } else {
        assert(post =~= Seq::<char>::empty());
        assert(scan(b, post) == b);
    }
}

/// The value of the digits `t` read after an octet prefix of value `o`.
pub open spec fn extend_octet(o: nat, t: Seq<char>) -> nat
    decreases t.len(),
{
    if t.len() == 0 {
        o
    } else {
        extend_octet(o * 10 + digit_value(t[0]), t.drop_first())
    }
}

/// The value of the decimal digits `t`.
pub open spec fn digits_value(t: Seq<char>) -> nat {
    extend_octet(0, t)
}

proof fn lemma_scan_digits(st: Scan, t: Seq<char>)
    requires
        !scan(st, t).failed,
        st.octet <= 255,
        forall|k: int| 0 <= k < t.len() ==> is_digit(#[trigger] t[k]),
    ensures
        extend_octet(st.octet, t) <= 255,
    decreases t.len(),
{
    if t.len() > 0 {
        let next = scan_step(st, t[0]);
        if next.failed {
            lemma_scan_stays_failed(next, t.drop_first());
        } else {
            assert forall|k: int| 0 <= k < t.drop_first().len() implies is_digit(#[trigger] t.drop_first()[k]) by {
                assert(t.drop_first()[k] == t[k + 1]);
            }
            lemma_scan_digits(next, t.drop_first());
        }
    }
}

/// An octet above 255 is rejected: if the host holds a run of digits that
/// starts an octet (at the start or after a dot) and whose value exceeds
/// 255, the address has no key.
pub proof fn lemma_large_octet_rejected(s: Seq<char>, i: int, j: int)
    requires
        0 <= i <= j <= host(s).len(),
        i == 0 || host(s)[i - 1] == '.',
        forall|k: int| i <= k < j ==> is_digit(#[trigger] host(s)[k]),
        digits_value(host(s).subrange(i, j)) > 255,
    ensures
        address_key(s) is None,
{
    let h = host(s);
    let pre = h.subrange(0, i);
    let t = h.subrange(i, j);
    let post = h.subrange(j, h.len() as int);
    assert(h =~= pre + t + post);
    lemma_scan_concat(scan_start(), pre + t, post);
    lemma_scan_concat(scan_start(), pre, t);
    let a = scan(scan_start(), pre);
    let b = scan(a, t);
    if !scan(b, post).failed {
        if b.failed {
            lemma_scan_stays_failed(b, post);
        }
        if a.failed {
            lemma_scan_stays_failed(a, t);
        }
        if i > 0 {
            assert(pre =~= pre.drop_last() + seq!['.']);
            lemma_scan_concat(scan_start(), pre.drop_last(), seq!['.']);
            lemma_scan_one(scan(scan_start(), pre.drop_last()), '.');
        } else {
            assert(pre =~= Seq::<char>::empty());
        }
        assert(a.octet == 0);
        assert forall|k: int| 0 <= k < t.len() implies is_digit(#[trigger] t[k]) by {
            assert(t[k] == h[i + k]);
        }
        lemma_scan_digits(a, t);
    }
}

} // verus!
