//! Big-endian integer encodings and byte-string comparison.
use vstd::prelude::*;

verus! {

/// `256` raised to the power `k`.
pub open spec fn pow256(k: nat) -> nat
    decreases k,
{
    if k == 0 {
        1
    } else {
        256 * pow256((k - 1) as nat)
    }
}

/// The unsigned integer that the bytes `s` spell in big-endian order.
pub open spec fn be_value(s: Seq<u8>) -> nat
    decreases s.len(),
{
    if s.len() == 0 {
        0
    } else {
        be_value(s.drop_last()) * 256 + s.last() as nat
    }
}

/// The `width` bytes that spell `n` in big-endian order (the low `width` bytes of `n`).
pub open spec fn be_bytes(n: nat, width: nat) -> Seq<u8>
    decreases width,
{
    if width == 0 {
        Seq::empty()
    } else {
        be_bytes(n / 256, (width - 1) as nat).push((n % 256) as u8)
    }
}

pub proof fn lemma_be_bytes_value(n: nat, width: nat)
    requires
        n < pow256(width),
    ensures
        be_bytes(n, width).len() == width,
        be_value(be_bytes(n, width)) == n,
    decreases width,
{
    if width > 0 {
        let w = (width - 1) as nat;
        assert(n / 256 < pow256(w)) by (nonlinear_arith)
            requires
                n < 256 * pow256(w),
        ;
        lemma_be_bytes_value(n / 256, w);
        let t = be_bytes(n, width);
        assert(t.drop_last() =~= be_bytes(n / 256, w));
    }
}

/// Two byte strings of one length that spell the same value are equal.
pub proof fn lemma_be_value_injective(s: Seq<u8>, t: Seq<u8>)
    requires
        s.len() == t.len(),
        be_value(s) == be_value(t),
    ensures
        s == t,
    decreases s.len(),
{
    if s.len() > 0 {
        let a = be_value(s.drop_last());
        let b = be_value(t.drop_last());
        let x = s.last() as nat;
        let y = t.last() as nat;
        assert(a == b && x == y) by (nonlinear_arith)
            requires
                a * 256 + x == b * 256 + y,
                x < 256,
                y < 256,
        ;
        lemma_be_value_injective(s.drop_last(), t.drop_last());
        assert(s =~= s.drop_last().push(s.last()));
        assert(t =~= t.drop_last().push(t.last()));
    }
    else {
        assert(s =~= t);
    }
}

pub proof fn lemma_pow256_positive(k: nat)
    ensures
        pow256(k) > 0,
    decreases k,
{
    if k > 0 {
        lemma_pow256_positive((k - 1) as nat);
    }
}

pub proof fn lemma_pow256_16()
    ensures
        pow256(16) == 0x1_0000_0000_0000_0000_0000_0000_0000_0000,
        pow256(8) == 0x1_0000_0000_0000_0000,
        pow256(2) == 0x1_0000,
{
    reveal_with_fuel(pow256, 17);
}

/// A value spelled with `s.len()` bytes stays below `256^s.len()`.
pub proof fn lemma_be_value_bound(s: Seq<u8>)
    ensures
        be_value(s) < pow256(s.len()),
    decreases s.len(),
{
    if s.len() > 0 {
        let p = s.drop_last();
        lemma_be_value_bound(p);
        let v = be_value(p);
        let q = pow256(p.len());
        let b = s.last() as nat;
        assert(v * 256 + b < q * 256) by (nonlinear_arith)
            requires
                v < q,
                b < 256,
        ;
    }
}

/// Putting a byte in front adds it at the highest position.
pub proof fn lemma_be_value_prepend(b: u8, s: Seq<u8>)
    ensures
        be_value(seq![b] + s) == b as nat * pow256(s.len()) + be_value(s),
    decreases s.len(),
{
    let t = seq![b] + s;
    if s.len() == 0 {
        assert(t.drop_last() =~= Seq::<u8>::empty());
        assert(be_value(t) == be_value(t.drop_last()) * 256 + t.last() as nat);
        assert(pow256(0) == 1);
    } else {
        let p = s.drop_last();
        assert(t.drop_last() =~= seq![b] + p);
        assert(t.last() == s.last());
        assert(be_value(t) == be_value(t.drop_last()) * 256 + t.last() as nat);
        assert(be_value(s) == be_value(p) * 256 + s.last() as nat);
        lemma_be_value_prepend(b, p);
        let x = b as nat;
        let q = pow256(p.len());
        assert(pow256(s.len()) == 256 * q);
        assert((x * q + be_value(p)) * 256 + s.last() as nat == x * (256 * q) + (be_value(p) * 256
            + s.last() as nat)) by (nonlinear_arith);
    }
}

/// The `width` bytes that spell `n` in big-endian order (`to_be_bytes` of an integer of that
/// width).
pub fn to_be_bytes(n: u128, width: usize) -> (r: Vec<u8>)
    requires
        width <= 16,
        n < pow256(width as nat),
    ensures
        r@ == be_bytes(n as nat, width as nat),
{
    let mut r: Vec<u8> = Vec::new();
    let mut x: u128 = n;
    let mut i: usize = width;
    proof {
        assert(pow256(0) == 1);
        assert(be_value(r@) == 0);
        assert((width - i) as nat == 0);
        assert(x * pow256(0) == x);
    }
    while i > 0
        invariant
            i <= width,
            r@.len() == width - i,
            x < pow256(i as nat),
            n == x * pow256((width - i) as nat) + be_value(r@),
        decreases i,
    {
        let b: u8 = (x % 256) as u8;
        let y: u128 = x / 256;
        proof {
            let k = (width - i) as nat;
            let p = pow256(k);
            lemma_be_value_prepend(b, r@);
            assert(x == y * 256 + b as nat);
            assert(x * p == (y * (256 * p)) + b as nat * p) by (nonlinear_arith)
                requires
                    x == y * 256 + b as nat,
            ;
            assert(pow256((i - 1) as nat) * 256 == pow256(i as nat));
            assert(y < pow256((i - 1) as nat)) by (nonlinear_arith)
                requires
                    x < pow256((i - 1) as nat) * 256,
                    y == x / 256,
            ;
            assert(pow256(k + 1) == 256 * p);
        }
        let ghost old_r = r@;
        r.insert(0, b);
        proof {
            assert(r@ =~= seq![b] + old_r);
        }
        x = y;
        i = i - 1;
    }
    proof {
        assert(pow256(0) == 1);
        lemma_be_bytes_value(n as nat, width as nat);
        lemma_be_value_injective(r@, be_bytes(n as nat, width as nat));
    }
    r
}

/// The integer that the first `len` bytes of `s` spell in big-endian order (`from_be_bytes`).
pub fn from_be_bytes(s: &[u8], len: usize) -> (r: u128)
    requires
        len <= s@.len(),
        len <= 16,
    ensures
        r == be_value(s@.take(len as int)),
{
    let mut acc: u128 = 0;
    let mut i: usize = 0;
    while i < len
        invariant
            i <= len <= s@.len(),
            len <= 16,
            acc == be_value(s@.take(i as int)),
        decreases len - i,
    {
        proof {
            let t = s@.take(i as int + 1);
            assert(t.drop_last() =~= s@.take(i as int));
            lemma_be_value_bound(t);
            lemma_be_value_bound(s@.take(i as int));
            lemma_pow256_16();
            assert(pow256(i as nat + 1) <= pow256(16)) by {
                lemma_pow256_monotone(i as nat + 1, 16);
            }
            assert(pow256(i as nat + 1) == 256 * pow256(i as nat));
        }
        acc = acc * 256 + s[i] as u128;
        i = i + 1;
    }
    acc
}

pub proof fn lemma_pow256_monotone(a: nat, b: nat)
    requires
        a <= b,
    ensures
        pow256(a) <= pow256(b),
    decreases b,
{
    if a < b {
        lemma_pow256_monotone(a, (b - 1) as nat);
        lemma_pow256_positive((b - 1) as nat);
    }
}

/// A value spelled by two byte strings one after the other.
pub proof fn lemma_be_value_concat(a: Seq<u8>, b: Seq<u8>)
    ensures
        be_value(a + b) == be_value(a) * pow256(b.len()) + be_value(b),
    decreases b.len(),
{
    if b.len() == 0 {
        assert(a + b =~= a);
        assert(pow256(0) == 1);
        assert(be_value(a) * 1 == be_value(a));
    } else {
        let p = b.drop_last();
        assert((a + b).drop_last() =~= a + p);
        assert((a + b).last() == b.last());
        lemma_be_value_concat(a, p);
        let x = be_value(a);
        let q = pow256(p.len());
        assert(pow256(b.len()) == 256 * q);
        assert((x * q + be_value(p)) * 256 + b.last() as nat == x * (256 * q) + (be_value(p) * 256
            + b.last() as nat)) by (nonlinear_arith);
    }
}

/// The low 128 bits of the integer that the bytes `s` spell in big-endian order: what shifting
/// each byte into a 128-bit accumulator leaves.
pub fn fold_be_u128(s: &[u8]) -> (r: u128)
    ensures
        r == be_value(s@) % pow256(16),
{
    let start: usize = if s.len() > 16 {
        s.len() - 16
    } else {
        0
    };
    let mut acc: u128 = 0;
    let mut i: usize = start;
    proof {
        assert(s@.subrange(start as int, start as int) =~= Seq::<u8>::empty());
    }
    while i < s.len()
        invariant
            start <= i <= s@.len(),
            s@.len() - start <= 16,
            acc == be_value(s@.subrange(start as int, i as int)),
        decreases s@.len() - i,
    {
        proof {
            let t = s@.subrange(start as int, i as int + 1);
            assert(t.drop_last() =~= s@.subrange(start as int, i as int));
            lemma_be_value_bound(s@.subrange(start as int, i as int));
            lemma_pow256_16();
            lemma_pow256_monotone((i - start) as nat + 1, 16);
            assert(pow256((i - start) as nat + 1) == 256 * pow256((i - start) as nat));
        }
        acc = acc * 256 + s[i] as u128;
        i = i + 1;
    }
    proof {
        let head = s@.subrange(0, start as int);
        let tail = s@.subrange(start as int, s@.len() as int);
        assert(s@ =~= head + tail);
        lemma_be_value_concat(head, tail);
        lemma_be_value_bound(tail);
        lemma_pow256_monotone(tail.len(), 16);
        lemma_pow256_positive(16);
        if start > 0 {
            assert(tail.len() == 16);
            vstd::arithmetic::div_mod::lemma_fundamental_div_mod_converse_mod(
                be_value(s@) as int,
                pow256(16) as int,
                be_value(head) as int,
                be_value(tail) as int,
            );
        } else {
            assert(head =~= Seq::<u8>::empty());
            vstd::arithmetic::div_mod::lemma_fundamental_div_mod_converse_mod(
                be_value(s@) as int,
                pow256(16) as int,
                0,
                be_value(tail) as int,
            );
        }
    }
    acc
}

/// A copy of a byte string.
pub fn copy_bytes(v: &[u8]) -> (r: Vec<u8>)
    ensures
        r@ == v@,
{
    vstd::slice::slice_to_vec(v)
}

/// Whether two byte strings are equal.
pub fn bytes_equal(a: &[u8], b: &[u8]) -> (r: bool)
    ensures
        r == (a@ == b@),
{
    if a.len() != b.len() {
        return false;
    }
    let mut i: usize = 0;
    while i < a.len()
        invariant
            i <= a@.len() == b@.len(),
            a@.take(i as int) == b@.take(i as int),
        decreases a@.len() - i,
    {
        if a[i] != b[i] {
            return false;
        }
        proof {
            assert(a@.take(i as int + 1) =~= a@.take(i as int).push(a@[i as int]));
            assert(b@.take(i as int + 1) =~= b@.take(i as int).push(b@[i as int]));
        }
        i = i + 1;
    }
    proof {
        assert(a@.take(a@.len() as int) =~= a@);
        assert(b@.take(b@.len() as int) =~= b@);
    }
    true
}

/// Lexicographic order on byte strings: `a` comes before `b`.
pub open spec fn bytes_lt(a: Seq<u8>, b: Seq<u8>) -> bool
    decreases a.len(),
{
    if a.len() == 0 {
        b.len() > 0
    } else if b.len() == 0 {
        false
    } else if a[0] != b[0] {
        a[0] < b[0]
    } else {
        bytes_lt(a.drop_first(), b.drop_first())
    }
}

/// The order on byte strings is transitive.
pub proof fn lemma_bytes_lt_trans(a: Seq<u8>, b: Seq<u8>, c: Seq<u8>)
    requires
        bytes_lt(a, b),
        bytes_lt(b, c),
    ensures
        bytes_lt(a, c),
    decreases a.len(),
{
    if a.len() > 0 && b.len() > 0 && c.len() > 0 && a[0] == b[0] && b[0] == c[0] {
        lemma_bytes_lt_trans(a.drop_first(), b.drop_first(), c.drop_first());
    }
}

/// Two different byte strings are ordered one way or the other, never both.
pub proof fn lemma_bytes_lt_total(a: Seq<u8>, b: Seq<u8>)
    ensures
        a != b ==> (bytes_lt(a, b) || bytes_lt(b, a)),
        !(bytes_lt(a, b) && bytes_lt(b, a)),
        !bytes_lt(a, a),
    decreases a.len(),
{
    if a.len() > 0 && b.len() > 0 && a[0] == b[0] {
        lemma_bytes_lt_total(a.drop_first(), b.drop_first());
        if a != b {
            assert(a =~= seq![a[0]] + a.drop_first());
            assert(b =~= seq![b[0]] + b.drop_first());
        }
    }
    if a.len() > 0 {
        lemma_bytes_lt_total(a.drop_first(), a.drop_first());
    }
    if a.len() == 0 && b.len() == 0 {
        assert(a =~= b);
    }
}

/// Whether `a` comes before `b` in lexicographic order.
pub fn bytes_less(a: &[u8], b: &[u8]) -> (r: bool)
    ensures
        r == bytes_lt(a@, b@),
{
    let mut i: usize = 0;
    proof {
        assert(a@.skip(0) =~= a@);
        assert(b@.skip(0) =~= b@);
    }
    loop
        invariant
            i <= a@.len(),
            i <= b@.len(),
            bytes_lt(a@, b@) == bytes_lt(a@.skip(i as int), b@.skip(i as int)),
        decreases a@.len() - i,
    {
        if i == a.len() {
            return i < b.len();
        }
        if i == b.len() {
            return false;
        }
        if a[i] != b[i] {
            return a[i] < b[i];
        }
        proof {
            assert(a@.skip(i as int).drop_first() =~= a@.skip(i as int + 1));
            assert(b@.skip(i as int).drop_first() =~= b@.skip(i as int + 1));
        }
        i = i + 1;
    }
}

} // verus!
