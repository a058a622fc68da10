//! Fixed-width little-endian byte encodings, and sequences of fixed-width encodings.
use vstd::prelude::*;
use vstd::arithmetic::div_mod::{lemma_mod_breakdown, lemma_fundamental_div_mod, lemma_small_mod};
use vstd::arithmetic::mul::{lemma_mul_is_distributive_add, lemma_mul_inequality, lemma_mul_strict_inequality};

verus! {

/// `256` raised to the power `n`.
pub open spec fn pow256(n: nat) -> nat
    decreases n,
{
    if n == 0 {
        1
    } else {
        256 * pow256((n - 1) as nat)
    }
}

/// The `n` lowest bytes of `v`, least significant first.
pub open spec fn le_encode(v: nat, n: nat) -> Seq<u8>
    decreases n,
{
    if n == 0 {
        Seq::empty()
    } else {
        seq![(v % 256) as u8] + le_encode(v / 256, (n - 1) as nat)
    }
}

/// The number whose bytes, least significant first, are `b`.
pub open spec fn le_decode(b: Seq<u8>) -> nat
    decreases b.len(),
{
    if b.len() == 0 {
        0
    } else {
        b[0] as nat + 256 * le_decode(b.drop_first())
    }
}

pub proof fn lemma_pow256_values()
    ensures
        pow256(1) == 0x100,
        pow256(2) == 0x1_0000,
        pow256(4) == 0x1_0000_0000,
        pow256(8) == 0x1_0000_0000_0000_0000,
{
    reveal_with_fuel(pow256, 9);
}

pub proof fn lemma_pow256_positive(n: nat)
    ensures
        pow256(n) > 0,
    decreases n,
{
    if n > 0 {
        lemma_pow256_positive((n - 1) as nat);
    }
}

pub proof fn lemma_le_encode_len(v: nat, n: nat)
    ensures
        le_encode(v, n).len() == n,
    decreases n,
{
    if n > 0 {
        lemma_le_encode_len(v / 256, (n - 1) as nat);
    }
}

pub proof fn lemma_le_decode_bound(b: Seq<u8>)
    ensures
        le_decode(b) < pow256(b.len()),
    decreases b.len(),
{
    if b.len() > 0 {
        lemma_le_decode_bound(b.drop_first());
    }
}

/// Decoding the `n`-byte encoding of `v` gives `v` modulo `256^n`.
pub proof fn lemma_le_decode_encode(v: nat, n: nat)
    ensures
        le_decode(le_encode(v, n)) == v % pow256(n),
    decreases n,
{
    lemma_le_encode_len(v, n);
    if n == 0 {
        assert(v % 1 == 0);
    } else {
        let e = le_encode(v, n);
        assert(e.drop_first() =~= le_encode(v / 256, (n - 1) as nat));
        lemma_le_decode_encode(v / 256, (n - 1) as nat);
        lemma_pow256_positive((n - 1) as nat);
        lemma_mod_breakdown(v as int, 256, pow256((n - 1) as nat) as int);
    }
}

/// Encoding a decoded byte string in as many bytes gives the byte string back.
pub proof fn lemma_le_encode_decode(b: Seq<u8>)
    ensures
        le_encode(le_decode(b), b.len()) == b,
    decreases b.len(),
{
    if b.len() > 0 {
        let r = b.drop_first();
        lemma_le_encode_decode(r);
        let d = le_decode(b);
        assert(d == b[0] as nat + 256 * le_decode(r));
        assert(d % 256 == b[0] as nat) by {
            lemma_fundamental_div_mod(d as int, 256);
        }
        assert(d / 256 == le_decode(r)) by {
            lemma_fundamental_div_mod(d as int, 256);
        }
        assert(le_encode(d, b.len()) =~= b);
    }
}

/// Concatenation of the encodings of the items of `s`, first item first.
pub open spec fn encode_seq<T>(s: Seq<T>, enc: spec_fn(T) -> Seq<u8>) -> Seq<u8>
    decreases s.len(),
{
    if s.len() == 0 {
        Seq::empty()
    } else {
        encode_seq(s.drop_last(), enc) + enc(s.last())
    }
}

/// The items whose encodings of `size` bytes each, laid end to end, make up `b`
/// (a trailing part shorter than `size` is ignored).
pub open spec fn decode_seq<T>(b: Seq<u8>, size: nat, dec: spec_fn(Seq<u8>) -> T) -> Seq<T> {
    Seq::new(b.len() / size, |i: int| dec(b.subrange(i * size, i * size + size)))
}

/// Every encoding made by `enc` is `size` bytes long, and `size` is positive.
pub open spec fn fixed_width<T>(enc: spec_fn(T) -> Seq<u8>, size: nat) -> bool {
    &&& size > 0
    &&& forall|x: T| #[trigger] enc(x).len() == size
}

pub proof fn lemma_encode_seq_push<T>(s: Seq<T>, x: T, enc: spec_fn(T) -> Seq<u8>)
    ensures
        encode_seq(s.push(x), enc) == encode_seq(s, enc) + enc(x),
{
    assert(s.push(x).drop_last() =~= s);
}

pub proof fn lemma_encode_seq_len<T>(s: Seq<T>, enc: spec_fn(T) -> Seq<u8>, size: nat)
    requires
        fixed_width(enc, size),
    ensures
        encode_seq(s, enc).len() == s.len() * size,
    decreases s.len(),
{
    if s.len() > 0 {
        lemma_encode_seq_len(s.drop_last(), enc, size);
        assert(enc(s.last()).len() == size);
        lemma_mul_is_distributive_add(size as int, (s.len() - 1) as int, 1);
        assert((s.len() - 1) * size + size == s.len() * size) by (nonlinear_arith);
    }
}

/// The `i`-th chunk of `size` bytes of an encoded sequence is the encoding of its `i`-th item.
pub proof fn lemma_encode_seq_chunk<T>(s: Seq<T>, enc: spec_fn(T) -> Seq<u8>, size: nat, i: int)
    requires
        fixed_width(enc, size),
        0 <= i < s.len(),
    ensures
        i * size + size <= s.len() * size,
        encode_seq(s, enc).subrange(i * size, i * size + size) == enc(s[i]),
    decreases s.len(),
{
    let p = s.drop_last();
    lemma_encode_seq_len(p, enc, size);
    lemma_encode_seq_len(s, enc, size);
    assert(i * size + size <= s.len() * size) by (nonlinear_arith)
        requires
            0 <= i < s.len(),
            size > 0,
    ;
    assert(p.len() * size == s.len() * size - size) by (nonlinear_arith)
        requires
            p.len() == s.len() - 1,
    ;
    if i == s.len() - 1 {
        assert(i * size == p.len() * size);
        assert(encode_seq(s, enc).subrange(i * size, i * size + size) =~= enc(s[i]));
    } else {
        lemma_encode_seq_chunk(p, enc, size, i);
        assert(encode_seq(s, enc).subrange(i * size, i * size + size) =~= encode_seq(
            p,
            enc,
        ).subrange(i * size, i * size + size));
    }
}

/// Decoding an encoded sequence gives the sequence back.
pub proof fn lemma_decode_encode_seq<T>(
    s: Seq<T>,
    enc: spec_fn(T) -> Seq<u8>,
    dec: spec_fn(Seq<u8>) -> T,
    size: nat,
)
    requires
        fixed_width(enc, size),
        forall|x: T| #[trigger] dec(enc(x)) == x,
    ensures
        decode_seq(encode_seq(s, enc), size, dec) == s,
{
    lemma_encode_seq_len(s, enc, size);
    let e = encode_seq(s, enc);
    assert(e.len() / size == s.len()) by {
        vstd::arithmetic::div_mod::lemma_div_by_multiple(s.len() as int, size as int);
    }
    let d = decode_seq(e, size, dec);
    assert forall|i: int| 0 <= i < s.len() implies d[i] == s[i] by {
        lemma_encode_seq_chunk(s, enc, size, i);
    }
    assert(d =~= s);
}

/// Encoding a decoded byte string whose length is a multiple of `size` gives it back.
pub proof fn lemma_encode_decode_seq<T>(
    b: Seq<u8>,
    enc: spec_fn(T) -> Seq<u8>,
    dec: spec_fn(Seq<u8>) -> T,
    size: nat,
)
    requires
        fixed_width(enc, size),
        forall|c: Seq<u8>| c.len() == size ==> #[trigger] enc(dec(c)) == c,
        b.len() % size == 0,
    ensures
        encode_seq(decode_seq(b, size, dec), enc) == b,
    decreases b.len(),
{
    if b.len() > 0 {
        let n = b.len() / size;
        lemma_fundamental_div_mod(b.len() as int, size as int);
        assert(b.len() == size * n);
        assert(n >= 1) by (nonlinear_arith)
            requires
                b.len() == size * n,
                b.len() > 0,
                size > 0,
        ;
        assert(size <= b.len()) by (nonlinear_arith)
            requires
                b.len() == size * n,
                n >= 1,
        ;
        let p = b.subrange(0, b.len() - size);
        assert(p.len() == size * (n - 1)) by (nonlinear_arith)
            requires
                p.len() == b.len() - size,
                b.len() == size * n,
        ;
        assert(p.len() % size == 0) by {
            vstd::arithmetic::div_mod::lemma_mod_multiples_basic((n - 1) as int, size as int);
            assert(size * (n - 1) == (n - 1) * size) by (nonlinear_arith);
        }
        assert(p.len() / size == n - 1) by {
            vstd::arithmetic::div_mod::lemma_div_by_multiple((n - 1) as int, size as int);
            assert(size * (n - 1) == (n - 1) * size) by (nonlinear_arith);
        }
        lemma_encode_decode_seq(p, enc, dec, size);
        let ds = decode_seq(b, size, dec);
        let dp = decode_seq(p, size, dec);
        assert(ds.drop_last() =~= dp) by {
            assert forall|i: int| 0 <= i < n - 1 implies ds[i] == dp[i] by {
                assert(i * size + size <= (n - 1) * size) by (nonlinear_arith)
                    requires
                        0 <= i < n - 1,
                        size > 0,
                ;
                assert((n - 1) * size == p.len()) by (nonlinear_arith)
                    requires
                        p.len() == size * (n - 1),
                ;
                assert(b.subrange(i * size, i * size + size) =~= p.subrange(
                    i * size,
                    i * size + size,
                ));
            }
        }
        let last = b.subrange(b.len() - size, b.len() as int);
        assert((n - 1) * size == b.len() - size) by (nonlinear_arith)
            requires
                b.len() == size * n,
        ;
        assert(ds.last() == dec(last));
        assert(enc(dec(last)) == last);
        assert(encode_seq(ds, enc) == encode_seq(dp, enc) + enc(ds.last()));
        assert(encode_seq(ds, enc) =~= b);
    }
}

/// Pushes the `n` lowest bytes of `v` onto `out`, least significant first.
pub fn push_le(v: u64, n: usize, out: &mut Vec<u8>)
    requires
        n <= 8,
    ensures
        final(out)@ == old(out)@ + le_encode(v as nat, n as nat),
{
    let mut x: u64 = v;
    let mut i: usize = 0;
    while i < n
        invariant
            i <= n,
            out@ + le_encode(x as nat, (n - i) as nat) == old(out)@ + le_encode(v as nat, n as nat),
        decreases n - i,
    {
        let ghost before = out@;
        out.push((x % 256) as u8);
        assert(le_encode(x as nat, (n - i) as nat) == seq![(x % 256) as u8] + le_encode(
            (x / 256) as nat,
            (n - i - 1) as nat,
        ));
        assert(out@ + le_encode((x / 256) as nat, (n - i - 1) as nat) =~= before + le_encode(
            x as nat,
            (n - i) as nat,
        ));
        x = x / 256;
        i = i + 1;
    }
    assert(out@ =~= out@ + le_encode(x as nat, 0));
}

/// Reads `n` bytes of `data` from position `at` on as a little-endian number.
pub fn read_le(data: &[u8], at: usize, n: usize) -> (r: u64)
    requires
        n <= 8,
        at + n <= data@.len(),
    ensures
        r as nat == le_decode(data@.subrange(at as int, at + n)),
{
    let mut r: u64 = 0;
    let mut k: usize = n;
    proof {
        lemma_pow256_values();
    }
    assert(data@.subrange(at + k, at + n).len() == 0);
    while k > 0
        invariant
            k <= n <= 8,
            at + n <= data.len(),
            r as nat == le_decode(data@.subrange(at + k, at + n)),
            (r as nat) < pow256((n - k) as nat),
            pow256(8) == 0x1_0000_0000_0000_0000,
        decreases k,
    {
        k = k - 1;
        let ghost tail = data@.subrange(at + k + 1, at + n);
        let ghost cur = data@.subrange(at + k, at + n);
        assert(cur.drop_first() =~= tail);
        assert(cur[0] == data@[at + k]);
        proof {
            lemma_le_decode_bound(cur);
            lemma_pow256_monotone((n - k) as nat, 8);
        }
        assert(pow256((n - k) as nat) == 256 * pow256((n - k - 1) as nat));
        assert(r * 256 + 255 < pow256((n - k) as nat));
        let byte: u8 = data[at + k];
        assert(pow256((n - k) as nat) <= 0x1_0000_0000_0000_0000);
        assert(r * 256 + byte < 0x1_0000_0000_0000_0000);
        r = r * 256 + byte as u64;
    }
    r
}

pub proof fn lemma_pow256_monotone(a: nat, b: nat)
    requires
        a <= b,
    ensures
        pow256(a) <= pow256(b),
    decreases b,
{
    if a < b {
        lemma_pow256_monotone(a, (b - 1) as nat);
        lemma_pow256_positive((b - 1) as nat);
    }
}

} // verus!
