use vstd::prelude::*;
use crate::encoding::{
    decode_seq, encode_seq, fixed_width, lemma_decode_encode_seq, lemma_encode_decode_seq, lemma_encode_seq_len, le_decode, le_encode, lemma_encode_seq_push,
    lemma_le_decode_bound, lemma_le_decode_encode, lemma_le_encode_decode, lemma_le_encode_len,
    lemma_pow256_values, pow256, push_le, read_le,
};
use vstd::arithmetic::div_mod::lemma_small_mod;
use crate::graph::node::Port;
use crate::graph::{graph_wf, lemma_target, target, with_data, Graph, InPortID, Node, NodeID, NodeView, OutPortID};

verus! {

/// The encoding of one value of `T`, as a function.
pub open spec fn enc_fn<T: ByteConvertible>() -> spec_fn(T) -> Seq<u8> {
    |x: T| T::encode(x)
}

/// The decoding of one value of `T`, as a function.
pub open spec fn dec_fn<T: ByteConvertible>() -> spec_fn(Seq<u8>) -> T {
    |c: Seq<u8>| T::decode(c)
}

/// The bytes of the items of `s` laid end to end, as `T` encodes them.
pub open spec fn bytes_of<T: ByteConvertible>(s: Seq<T>) -> Seq<u8> {
    encode_seq(s, enc_fn::<T>())
}

/// The items of `T` that the bytes `b` encode, one per `T::byte_size()` bytes.
pub open spec fn items_of<T: ByteConvertible>(b: Seq<u8>) -> Seq<T> {
    decode_seq(b, T::byte_size(), dec_fn::<T>())
}

/// The encoding of one value of `T`, as a function.
pub open spec fn raw_enc_fn<T: TransmuteByteConvertible>() -> spec_fn(T) -> Seq<u8> {
    |x: T| T::encode(x)
}

/// The decoding of one value of `T`, as a function.
pub open spec fn raw_dec_fn<T: TransmuteByteConvertible>() -> spec_fn(Seq<u8>) -> T {
    |c: Seq<u8>| T::decode(c)
}

/// The bytes of the items of `s` laid end to end, as `T` encodes them.
pub open spec fn raw_bytes_of<T: TransmuteByteConvertible>(s: Seq<T>) -> Seq<u8> {
    encode_seq(s, raw_enc_fn::<T>())
}

/// The items of `T` that the bytes `b` encode, one per `T::byte_size()` bytes.
pub open spec fn raw_items_of<T: TransmuteByteConvertible>(b: Seq<u8>) -> Seq<T> {
    decode_seq(b, T::byte_size(), raw_dec_fn::<T>())
}

/**
 * An array of any type which is `ByteConvertible` can be converted to an array of bytes and back
 * again.
 */
pub trait ByteConvertible: Sized + Copy {
    /// Number of bytes that one value takes.
    spec fn byte_size() -> nat;

    /// The bytes of one value.
    spec fn encode(x: Self) -> Seq<u8>;

    /// The value that `byte_size()` bytes stand for.
    spec fn decode(b: Seq<u8>) -> Self;

    proof fn lemma_encoding(x: Self)
        ensures
            Self::byte_size() > 0,
            Self::encode(x).len() == Self::byte_size(),
            Self::decode(Self::encode(x)) == x,
    ;

    proof fn lemma_decoding(b: Seq<u8>)
        requires
            b.len() == Self::byte_size(),
        ensures
            Self::encode(Self::decode(b)) == b,
    ;

    /// Number of bytes that one value takes.
    fn size() -> (r: usize)
        requires
            Self::byte_size() <= usize::MAX,
        ensures
            r == Self::byte_size(),
            r > 0,
    ;

    /// Converts a slice of this into a vector of bytes, returning `None` on failure.
    fn to_bytes(data: &[Self]) -> (r: Result<Vec<u8>, ()>)
        ensures
            r is Ok,
            r->Ok_0@ == encode_seq(data@, |x: Self| Self::encode(x)),
    ;

    /// Converts a slice of bytes into a vector of this, returning `None` on failure.
    fn from_bytes(data: &[u8]) -> (r: Result<Vec<Self>, ()>)
        requires
            Self::byte_size() <= usize::MAX,
        ensures
            r is Ok <==> data@.len() % Self::byte_size() == 0,
            r matches Ok(v) ==> v@ == decode_seq(data@, Self::byte_size(), |c: Seq<u8>| Self::decode(c)),
    ;
}

/**
 * Any type which is `TransmuteByteConvertible` can be converted to an array of bytes by laying
 * the bytes of its values end to end.
 */
pub trait TransmuteByteConvertible: Sized {
    /// Number of bytes that one value takes.
    spec fn byte_size() -> nat;

    /// The bytes of one value.
    spec fn encode(x: Self) -> Seq<u8>;

    /// The value that `byte_size()` bytes stand for.
    spec fn decode(b: Seq<u8>) -> Self;

    proof fn lemma_encoding(x: Self)
        ensures
            Self::byte_size() > 0,
            Self::encode(x).len() == Self::byte_size(),
            Self::decode(Self::encode(x)) == x,
    ;

    proof fn lemma_decoding(b: Seq<u8>)
        requires
            b.len() == Self::byte_size(),
        ensures
            Self::encode(Self::decode(b)) == b,
    ;

    /// Number of bytes that one value takes.
    fn size() -> (r: usize)
        requires
            Self::byte_size() <= usize::MAX,
        ensures
            r == Self::byte_size(),
            r > 0,
    ;

    /// Appends the bytes of `x` to `out`.
    fn push_bytes(x: &Self, out: &mut Vec<u8>)
        ensures
            final(out)@ == old(out)@ + Self::encode(*x),
    ;

    /// The value whose bytes start at position `at` of `data`.
    fn read_bytes(data: &[u8], at: usize) -> (r: Self)
        requires
            at + Self::byte_size() <= data@.len(),
        ensures
            r == Self::decode(data@.subrange(at as int, at + Self::byte_size())),
    ;

    /**
     * Always returns `Ok`.
     */
    fn to_bytes(data: &[Self]) -> (r: Result<Vec<u8>, ()>)
        ensures
            r is Ok,
            r->Ok_0@ == encode_seq(data@, |x: Self| Self::encode(x)),
    {
        let mut out: Vec<u8> = Vec::new();
        let mut i: usize = 0;
        while i < data.len()
            invariant
                i <= data@.len(),
                out@ == encode_seq(data@.take(i as int), |x: Self| Self::encode(x)),
            decreases data@.len() - i,
        {
            Self::push_bytes(&data[i], &mut out);
            proof {
                assert(data@.take(i + 1) =~= data@.take(i as int).push(data@[i as int]));
                lemma_encode_seq_push(data@.take(i as int), data@[i as int], |x: Self| Self::encode(x));
            }
            i = i + 1;
        }
        assert(data@.take(i as int) =~= data@);
        Ok(out)
    }

    /**
     * Returns `Err` if the number of bytes given is not a multiple of the data size.
     */
    fn from_bytes(data: &[u8]) -> (r: Result<Vec<Self>, ()>)
        requires
            Self::byte_size() <= usize::MAX,
        ensures
            r is Ok <==> data@.len() % Self::byte_size() == 0,
            r matches Ok(v) ==> v@ == decode_seq(data@, Self::byte_size(), |c: Seq<u8>| Self::decode(c)),
    {
        let size = Self::size();
        if data.len() % size != 0 {
            return Err(());
        }
        let count = data.len() / size;
        let mut out: Vec<Self> = Vec::new();
        let mut i: usize = 0;
        while i < count
            invariant
                i <= count,
                count == data.len() / size,
                data@.len() == data.len(),
                size == Self::byte_size(),
                size > 0,
                out@ == decode_seq(data@, Self::byte_size(), |c: Seq<u8>| Self::decode(c)).take(i as int),
            decreases count - i,
        {
            proof {
                lemma_chunk_in_bounds(i as int, count as int, size as int, data.len() as int);
            }
            let x = Self::read_bytes(data, i * size);
            proof {
                assert(out@.push(x) =~= decode_seq(data@, Self::byte_size(), |c: Seq<u8>| Self::decode(c)).take(i + 1));
            }
            out.push(x);
            i = i + 1;
        }
        assert(decode_seq(data@, Self::byte_size(), |c: Seq<u8>| Self::decode(c)).take(count as int) =~= decode_seq(data@, Self::byte_size(), |c: Seq<u8>| Self::decode(c)));
        Ok(out)
    }
}

/// The `i`-th chunk of `size` bytes lies inside a byte string of `count` such chunks or more.
pub proof fn lemma_chunk_in_bounds(i: int, count: int, size: int, len: int)
    requires
        0 <= i < count,
        size > 0,
        len >= 0,
        count == len / size,
    ensures
        i * size + size <= len,
        0 <= i * size,
{
    vstd::arithmetic::div_mod::lemma_fundamental_div_mod(len, size);
    vstd::arithmetic::div_mod::lemma_mod_bound(len, size);
    assert(i * size + size <= count * size) by (nonlinear_arith)
        requires
            0 <= i < count,
            size > 0,
    ;
    assert(0 <= i * size) by (nonlinear_arith)
        requires
            0 <= i,
            size > 0,
    ;
    assert(count * size == size * count) by (nonlinear_arith);
}

/// The encodings of a `TransmuteByteConvertible` type have a fixed width and decode back.
pub proof fn lemma_raw_fixed_width<T: TransmuteByteConvertible>()
    ensures
        fixed_width(raw_enc_fn::<T>(), T::byte_size()),
        forall|x: T| #[trigger] (raw_dec_fn::<T>())((raw_enc_fn::<T>())(x)) == x,
        forall|c: Seq<u8>|
            c.len() == T::byte_size() ==> #[trigger] (raw_enc_fn::<T>())((raw_dec_fn::<T>())(c)) == c,
{
    T::lemma_encoding(arbitrary());
    assert forall|x: T| #[trigger] (raw_enc_fn::<T>())(x).len() == T::byte_size() by {
        T::lemma_encoding(x);
    }
    assert forall|x: T| #[trigger] (raw_dec_fn::<T>())((raw_enc_fn::<T>())(x)) == x by {
        T::lemma_encoding(x);
    }
    assert forall|c: Seq<u8>|
        c.len() == T::byte_size() implies #[trigger] (raw_enc_fn::<T>())((raw_dec_fn::<T>())(c))
        == c by {
        T::lemma_decoding(c);
    }
}


/// Converting values to bytes by `TransmuteByteConvertible` and the bytes back gives the values
/// back.
pub proof fn law_raw_items_of_bytes_of<T: TransmuteByteConvertible>(s: Seq<T>)
    ensures
        raw_items_of::<T>(raw_bytes_of(s)) == s,
{
    lemma_raw_fixed_width::<T>();
    lemma_decode_encode_seq(s, raw_enc_fn::<T>(), raw_dec_fn::<T>(), T::byte_size());
}

/// Encoding one value of `T` gives `T::byte_size()` bytes, and decoding gives it back.
proof fn lemma_fixed_width<T: ByteConvertible>()
    ensures
        fixed_width(enc_fn::<T>(), T::byte_size()),
        forall|x: T| #[trigger] (dec_fn::<T>())((enc_fn::<T>())(x)) == x,
        forall|c: Seq<u8>| c.len() == T::byte_size() ==> #[trigger] (enc_fn::<T>())((dec_fn::<T>())(c)) == c,
{
    T::lemma_encoding(arbitrary());
    assert forall|x: T| #[trigger] (enc_fn::<T>())(x).len() == T::byte_size() by {
        T::lemma_encoding(x);
    }
    assert forall|x: T| #[trigger] (dec_fn::<T>())((enc_fn::<T>())(x)) == x by {
        T::lemma_encoding(x);
    }
    assert forall|c: Seq<u8>| c.len() == T::byte_size() implies #[trigger] (enc_fn::<T>())((dec_fn::<T>())(c))
        == c by {
        T::lemma_decoding(c);
    }
}

/// Converting values to bytes and the bytes back to values gives the values back.
pub proof fn law_items_of_bytes_of<T: ByteConvertible>(s: Seq<T>)
    ensures
        items_of::<T>(bytes_of(s)) == s,
        bytes_of(s).len() == s.len() * T::byte_size(),
{
    lemma_fixed_width::<T>();
    lemma_decode_encode_seq(s, enc_fn::<T>(), dec_fn::<T>(), T::byte_size());
    lemma_encode_seq_len(s, enc_fn::<T>(), T::byte_size());
}

/// Converting bytes to values and the values back to bytes gives the bytes back, when their
/// number is a multiple of the size of one value.
pub proof fn law_bytes_of_items_of<T: ByteConvertible>(b: Seq<u8>)
    requires
        b.len() % T::byte_size() == 0,
    ensures
        bytes_of(items_of::<T>(b)) == b,
{
    lemma_fixed_width::<T>();
    lemma_encode_decode_seq(b, enc_fn::<T>(), dec_fn::<T>(), T::byte_size());
}

/// Values written one batch after another read back as one batch: the bytes of `s + t` are the
/// bytes of `s` followed by the bytes of `t`.
pub proof fn law_bytes_of_concat<T: ByteConvertible>(s: Seq<T>, t: Seq<T>)
    ensures
        bytes_of(s + t) == bytes_of(s) + bytes_of(t),
    decreases t.len(),
{
    if t.len() == 0 {
        assert(s + t =~= s);
        assert(bytes_of(t) =~= Seq::<u8>::empty());
        assert(bytes_of(s) + bytes_of(t) =~= bytes_of(s));
    } else {
        let t0 = t.drop_last();
        law_bytes_of_concat(s, t0);
        assert((s + t).drop_last() =~= s + t0);
        assert((s + t).last() == t.last());
        assert(bytes_of(s) + bytes_of(t) =~= (bytes_of(s) + bytes_of(t0)) + enc_fn::<T>()(t.last()));
    }
}


impl TransmuteByteConvertible for u8 {
    open spec fn byte_size() -> nat {
        1
    }

    open spec fn encode(x: u8) -> Seq<u8> {
        le_encode(x as nat, 1)
    }

    open spec fn decode(b: Seq<u8>) -> u8 {
        le_decode(b) as u8
    }

    proof fn lemma_encoding(x: u8) {
        lemma_pow256_values();
        lemma_le_encode_len(x as nat, 1);
        lemma_le_decode_encode(x as nat, 1);
        lemma_small_mod(x as nat, pow256(1));
    }

    proof fn lemma_decoding(b: Seq<u8>) {
        lemma_pow256_values();
        lemma_le_decode_bound(b);
        lemma_le_encode_decode(b);
    }

    fn size() -> usize {
        1
    }

    fn push_bytes(x: &u8, out: &mut Vec<u8>) {
        push_le(*x as u64, 1, out);
    }

    fn read_bytes(data: &[u8], at: usize) -> u8 {
        proof {
            lemma_pow256_values();
            lemma_le_decode_bound(data@.subrange(at as int, at + 1));
        }
        read_le(data, at, 1) as u8
    }
}

impl TransmuteByteConvertible for u16 {
    open spec fn byte_size() -> nat {
        2
    }

    open spec fn encode(x: u16) -> Seq<u8> {
        le_encode(x as nat, 2)
    }

    open spec fn decode(b: Seq<u8>) -> u16 {
        le_decode(b) as u16
    }

    proof fn lemma_encoding(x: u16) {
        lemma_pow256_values();
        lemma_le_encode_len(x as nat, 2);
        lemma_le_decode_encode(x as nat, 2);
        lemma_small_mod(x as nat, pow256(2));
    }

    proof fn lemma_decoding(b: Seq<u8>) {
        lemma_pow256_values();
        lemma_le_decode_bound(b);
        lemma_le_encode_decode(b);
    }

    fn size() -> usize {
        2
    }

    fn push_bytes(x: &u16, out: &mut Vec<u8>) {
        push_le(*x as u64, 2, out);
    }

    fn read_bytes(data: &[u8], at: usize) -> u16 {
        proof {
            lemma_pow256_values();
            lemma_le_decode_bound(data@.subrange(at as int, at + 2));
        }
        read_le(data, at, 2) as u16
    }
}

impl TransmuteByteConvertible for u32 {
    open spec fn byte_size() -> nat {
        4
    }

    open spec fn encode(x: u32) -> Seq<u8> {
        le_encode(x as nat, 4)
    }

    open spec fn decode(b: Seq<u8>) -> u32 {
        le_decode(b) as u32
    }

    proof fn lemma_encoding(x: u32) {
        lemma_pow256_values();
        lemma_le_encode_len(x as nat, 4);
        lemma_le_decode_encode(x as nat, 4);
        lemma_small_mod(x as nat, pow256(4));
    }

    proof fn lemma_decoding(b: Seq<u8>) {
        lemma_pow256_values();
        lemma_le_decode_bound(b);
        lemma_le_encode_decode(b);
    }

    fn size() -> usize {
        4
    }

    fn push_bytes(x: &u32, out: &mut Vec<u8>) {
        push_le(*x as u64, 4, out);
    }

    fn read_bytes(data: &[u8], at: usize) -> u32 {
        proof {
            lemma_pow256_values();
            lemma_le_decode_bound(data@.subrange(at as int, at + 4));
        }
        read_le(data, at, 4) as u32
    }
}

impl TransmuteByteConvertible for u64 {
    open spec fn byte_size() -> nat {
        8
    }

    open spec fn encode(x: u64) -> Seq<u8> {
        le_encode(x as nat, 8)
    }

    open spec fn decode(b: Seq<u8>) -> u64 {
        le_decode(b) as u64
    }

    proof fn lemma_encoding(x: u64) {
        lemma_pow256_values();
        lemma_le_encode_len(x as nat, 8);
        lemma_le_decode_encode(x as nat, 8);
        lemma_small_mod(x as nat, pow256(8));
    }

    proof fn lemma_decoding(b: Seq<u8>) {
        lemma_pow256_values();
        lemma_le_decode_bound(b);
        lemma_le_encode_decode(b);
    }

    fn size() -> usize {
        8
    }

    fn push_bytes(x: &u64, out: &mut Vec<u8>) {
        push_le(*x as u64, 8, out);
    }

    fn read_bytes(data: &[u8], at: usize) -> u64 {
        proof {
            lemma_pow256_values();
            lemma_le_decode_bound(data@.subrange(at as int, at + 8));
        }
        read_le(data, at, 8) as u64
    }
}

impl TransmuteByteConvertible for i8 {
    open spec fn byte_size() -> nat {
        1
    }

    open spec fn encode(x: i8) -> Seq<u8> {
        le_encode(twos(x as int, 1), 1)
    }

    open spec fn decode(b: Seq<u8>) -> i8 {
        untwos(le_decode(b), 1) as i8
    }

    proof fn lemma_encoding(x: i8) {
        lemma_pow256_values();
        lemma_le_encode_len(twos(x as int, 1), 1);
        lemma_le_decode_encode(twos(x as int, 1), 1);
        lemma_small_mod(twos(x as int, 1), pow256(1));
    }

    proof fn lemma_decoding(b: Seq<u8>) {
        lemma_pow256_values();
        lemma_le_decode_bound(b);
        lemma_le_encode_decode(b);
    }

    fn size() -> usize {
        1
    }

    fn push_bytes(x: &i8, out: &mut Vec<u8>) {
        proof {
            lemma_pow256_values();
        }
        let u: u64 = if *x < 0 {
            (*x as i128 + 0x100i128) as u64
        } else {
            *x as u64
        };
        push_le(u, 1, out);
    }

    fn read_bytes(data: &[u8], at: usize) -> i8 {
        proof {
            lemma_pow256_values();
            lemma_le_decode_bound(data@.subrange(at as int, at + 1));
        }
        let u: u64 = read_le(data, at, 1);
        if u >= 0x80 {
            (u as i128 - 0x100i128) as i8
        } else {
            u as i8
        }
    }
}

impl TransmuteByteConvertible for i16 {
    open spec fn byte_size() -> nat {
        2
    }

    open spec fn encode(x: i16) -> Seq<u8> {
        le_encode(twos(x as int, 2), 2)
    }

    open spec fn decode(b: Seq<u8>) -> i16 {
        untwos(le_decode(b), 2) as i16
    }

    proof fn lemma_encoding(x: i16) {
        lemma_pow256_values();
        lemma_le_encode_len(twos(x as int, 2), 2);
        lemma_le_decode_encode(twos(x as int, 2), 2);
        lemma_small_mod(twos(x as int, 2), pow256(2));
    }

    proof fn lemma_decoding(b: Seq<u8>) {
        lemma_pow256_values();
        lemma_le_decode_bound(b);
        lemma_le_encode_decode(b);
    }

    fn size() -> usize {
        2
    }

    fn push_bytes(x: &i16, out: &mut Vec<u8>) {
        proof {
            lemma_pow256_values();
        }
        let u: u64 = if *x < 0 {
            (*x as i128 + 0x1_0000i128) as u64
        } else {
            *x as u64
        };
        push_le(u, 2, out);
    }

    fn read_bytes(data: &[u8], at: usize) -> i16 {
        proof {
            lemma_pow256_values();
            lemma_le_decode_bound(data@.subrange(at as int, at + 2));
        }
        let u: u64 = read_le(data, at, 2);
        if u >= 0x8000 {
            (u as i128 - 0x1_0000i128) as i16
        } else {
            u as i16
        }
    }
}

impl TransmuteByteConvertible for i32 {
    open spec fn byte_size() -> nat {
        4
    }

    open spec fn encode(x: i32) -> Seq<u8> {
        le_encode(twos(x as int, 4), 4)
    }

    open spec fn decode(b: Seq<u8>) -> i32 {
        untwos(le_decode(b), 4) as i32
    }

    proof fn lemma_encoding(x: i32) {
        lemma_pow256_values();
        lemma_le_encode_len(twos(x as int, 4), 4);
        lemma_le_decode_encode(twos(x as int, 4), 4);
        lemma_small_mod(twos(x as int, 4), pow256(4));
    }

    proof fn lemma_decoding(b: Seq<u8>) {
        lemma_pow256_values();
        lemma_le_decode_bound(b);
        lemma_le_encode_decode(b);
    }

    fn size() -> usize {
        4
    }

    fn push_bytes(x: &i32, out: &mut Vec<u8>) {
        proof {
            lemma_pow256_values();
        }
        let u: u64 = if *x < 0 {
            (*x as i128 + 0x1_0000_0000i128) as u64
        } else {
            *x as u64
        };
        push_le(u, 4, out);
    }

    fn read_bytes(data: &[u8], at: usize) -> i32 {
        proof {
            lemma_pow256_values();
            lemma_le_decode_bound(data@.subrange(at as int, at + 4));
        }
        let u: u64 = read_le(data, at, 4);
        if u >= 0x8000_0000 {
            (u as i128 - 0x1_0000_0000i128) as i32
        } else {
            u as i32
        }
    }
}

impl TransmuteByteConvertible for i64 {
    open spec fn byte_size() -> nat {
        8
    }

    open spec fn encode(x: i64) -> Seq<u8> {
        le_encode(twos(x as int, 8), 8)
    }

    open spec fn decode(b: Seq<u8>) -> i64 {
        untwos(le_decode(b), 8) as i64
    }

    proof fn lemma_encoding(x: i64) {
        lemma_pow256_values();
        lemma_le_encode_len(twos(x as int, 8), 8);
        lemma_le_decode_encode(twos(x as int, 8), 8);
        lemma_small_mod(twos(x as int, 8), pow256(8));
    }

    proof fn lemma_decoding(b: Seq<u8>) {
        lemma_pow256_values();
        lemma_le_decode_bound(b);
        lemma_le_encode_decode(b);
    }

    fn size() -> usize {
        8
    }

    fn push_bytes(x: &i64, out: &mut Vec<u8>) {
        proof {
            lemma_pow256_values();
        }
        let u: u64 = if *x < 0 {
            (*x as i128 + 0x1_0000_0000_0000_0000i128) as u64
        } else {
            *x as u64
        };
        push_le(u, 8, out);
    }

    fn read_bytes(data: &[u8], at: usize) -> i64 {
        proof {
            lemma_pow256_values();
            lemma_le_decode_bound(data@.subrange(at as int, at + 8));
        }
        let u: u64 = read_le(data, at, 8);
        if u >= 0x8000_0000_0000_0000 {
            (u as i128 - 0x1_0000_0000_0000_0000i128) as i64
        } else {
            u as i64
        }
    }
}

/// Number of bytes in a machine word.
pub open spec fn word_bytes() -> nat {
    (usize::BITS / 8) as nat
}

pub proof fn lemma_word_bytes()
    ensures
        word_bytes() == 4 || word_bytes() == 8,
        pow256(word_bytes()) == usize::MAX + 1,
        2 * (isize::MAX + 1) == pow256(word_bytes()),
        isize::MIN == -(isize::MAX + 1),
{
    lemma_pow256_values();
    assert(usize::BITS == 32 || usize::BITS == 64);
    assert(usize::BITS == 32 ==> usize::MAX == 0xffff_ffff);
    assert(usize::BITS == 64 ==> usize::MAX == 0xffff_ffff_ffff_ffff);
}

/// Number of bytes in a machine word.
fn word_size() -> (r: usize)
    ensures
        r == word_bytes(),
        r == 4 || r == 8,
{
    proof {
        lemma_word_bytes();
    }
    (usize::BITS / 8) as usize
}

impl TransmuteByteConvertible for usize {
    open spec fn byte_size() -> nat {
        word_bytes()
    }

    open spec fn encode(x: usize) -> Seq<u8> {
        le_encode(x as nat, word_bytes())
    }

    open spec fn decode(b: Seq<u8>) -> usize {
        le_decode(b) as usize
    }

    proof fn lemma_encoding(x: usize) {
        lemma_word_bytes();
        lemma_le_encode_len(x as nat, word_bytes());
        lemma_le_decode_encode(x as nat, word_bytes());
        lemma_small_mod(x as nat, pow256(word_bytes()));
    }

    proof fn lemma_decoding(b: Seq<u8>) {
        lemma_word_bytes();
        lemma_le_decode_bound(b);
        lemma_le_encode_decode(b);
    }

    fn size() -> usize {
        assert(<usize as TransmuteByteConvertible>::byte_size() == word_bytes());
        word_size()
    }

    fn push_bytes(x: &usize, out: &mut Vec<u8>) {
        proof {
            lemma_word_bytes();
            assert(<usize as TransmuteByteConvertible>::byte_size() == word_bytes());
            assert(<usize as TransmuteByteConvertible>::encode(*x) == le_encode(*x as nat, word_bytes()));
        }
        let n: usize = <usize as TransmuteByteConvertible>::size();
        push_le(*x as u64, n, out);
    }

    fn read_bytes(data: &[u8], at: usize) -> usize {
        proof {
            lemma_word_bytes();
            assert(<usize as TransmuteByteConvertible>::byte_size() == word_bytes());
            lemma_le_decode_bound(data@.subrange(at as int, at + word_bytes()));
        }
        let n: usize = <usize as TransmuteByteConvertible>::size();
        read_le(data, at, n) as usize
    }
}

impl TransmuteByteConvertible for isize {
    open spec fn byte_size() -> nat {
        word_bytes()
    }

    open spec fn encode(x: isize) -> Seq<u8> {
        le_encode(twos(x as int, word_bytes()), word_bytes())
    }

    open spec fn decode(b: Seq<u8>) -> isize {
        untwos(le_decode(b), word_bytes()) as isize
    }

    proof fn lemma_encoding(x: isize) {
        lemma_word_bytes();
        lemma_le_encode_len(twos(x as int, word_bytes()), word_bytes());
        lemma_le_decode_encode(twos(x as int, word_bytes()), word_bytes());
        lemma_small_mod(twos(x as int, word_bytes()), pow256(word_bytes()));
    }

    proof fn lemma_decoding(b: Seq<u8>) {
        lemma_word_bytes();
        lemma_le_decode_bound(b);
        lemma_le_encode_decode(b);
    }

    fn size() -> usize {
        assert(<isize as TransmuteByteConvertible>::byte_size() == word_bytes());
        word_size()
    }

    fn push_bytes(x: &isize, out: &mut Vec<u8>) {
        proof {
            lemma_word_bytes();
            assert(<isize as TransmuteByteConvertible>::byte_size() == word_bytes());
            assert(<isize as TransmuteByteConvertible>::encode(*x) == le_encode(twos(*x as int, word_bytes()), word_bytes()));
        }
        let n: usize = <isize as TransmuteByteConvertible>::size();
        let u: u64 = if *x < 0 {
            (*x as i128 + usize::MAX as i128 + 1) as u64
        } else {
            *x as u64
        };
        push_le(u, n, out);
    }

    fn read_bytes(data: &[u8], at: usize) -> isize {
        proof {
            lemma_word_bytes();
            assert(<isize as TransmuteByteConvertible>::byte_size() == word_bytes());
            lemma_le_decode_bound(data@.subrange(at as int, at + word_bytes()));
        }
        let n: usize = <isize as TransmuteByteConvertible>::size();
        let u: u64 = read_le(data, at, n);
        if u > isize::MAX as u64 {
            (u as i128 - usize::MAX as i128 - 1) as isize
        } else {
            u as isize
        }
    }
}

impl<A: TransmuteByteConvertible, B: TransmuteByteConvertible> TransmuteByteConvertible for (A, B) {
    open spec fn byte_size() -> nat {
        A::byte_size() + B::byte_size()
    }

    open spec fn encode(x: (A, B)) -> Seq<u8> {
        A::encode(x.0) + B::encode(x.1)
    }

    open spec fn decode(b: Seq<u8>) -> (A, B) {
        let sa = A::byte_size() as int;
        (A::decode(b.subrange(0, sa)), B::decode(b.subrange(sa, b.len() as int)))
    }

    proof fn lemma_encoding(x: (A, B)) {
        A::lemma_encoding(x.0);
        B::lemma_encoding(x.1);
        let e = Self::encode(x);
        assert(e.subrange(0, A::byte_size() as int) =~= A::encode(x.0));
        assert(e.subrange(A::byte_size() as int, e.len() as int) =~= B::encode(x.1));
    }

    proof fn lemma_decoding(b: Seq<u8>) {
        let sa = A::byte_size() as int;
        A::lemma_decoding(b.subrange(0, sa));
        B::lemma_decoding(b.subrange(sa, b.len() as int));
        assert(Self::encode(Self::decode(b)) =~= b);
    }

    fn size() -> usize {
        A::size() + B::size()
    }

    fn push_bytes(x: &(A, B), out: &mut Vec<u8>) {
        A::push_bytes(&x.0, out);
        B::push_bytes(&x.1, out);
        assert(out@ =~= old(out)@ + Self::encode(*x));
    }

    fn read_bytes(data: &[u8], at: usize) -> (A, B) {
        assert(<(A, B) as TransmuteByteConvertible>::byte_size() == A::byte_size() + B::byte_size());
        assert(data@.len() == data.len());
        let sa = A::size();
        let a = A::read_bytes(data, at);
        let b = B::read_bytes(data, at + sa);
        let ghost whole = data@.subrange(at as int, at + Self::byte_size());
        assert(whole.subrange(0, sa as int) =~= data@.subrange(at as int, at + sa));
        assert(whole.subrange(sa as int, whole.len() as int) =~= data@.subrange(
            at + sa,
            at + sa + B::byte_size(),
        ));
        (a, b)
    }
}

impl<
    A: TransmuteByteConvertible,
    B: TransmuteByteConvertible,
    C: TransmuteByteConvertible,
> TransmuteByteConvertible for (A, B, C) {
    open spec fn byte_size() -> nat {
        A::byte_size() + B::byte_size() + C::byte_size()
    }

    open spec fn encode(x: (A, B, C)) -> Seq<u8> {
        A::encode(x.0) + B::encode(x.1) + C::encode(x.2)
    }

    open spec fn decode(b: Seq<u8>) -> (A, B, C) {
        let sa = A::byte_size() as int;
        let sb = B::byte_size() as int;
        (
            A::decode(b.subrange(0, sa)),
            B::decode(b.subrange(sa, sa + sb)),
            C::decode(b.subrange(sa + sb, b.len() as int)),
        )
    }

    proof fn lemma_encoding(x: (A, B, C)) {
        A::lemma_encoding(x.0);
        B::lemma_encoding(x.1);
        C::lemma_encoding(x.2);
        let sa = A::byte_size() as int;
        let sb = B::byte_size() as int;
        let e = Self::encode(x);
        assert(e.subrange(0, sa) =~= A::encode(x.0));
        assert(e.subrange(sa, sa + sb) =~= B::encode(x.1));
        assert(e.subrange(sa + sb, e.len() as int) =~= C::encode(x.2));
    }

    proof fn lemma_decoding(b: Seq<u8>) {
        let sa = A::byte_size() as int;
        let sb = B::byte_size() as int;
        A::lemma_decoding(b.subrange(0, sa));
        B::lemma_decoding(b.subrange(sa, sa + sb));
        C::lemma_decoding(b.subrange(sa + sb, b.len() as int));
        assert(Self::encode(Self::decode(b)) =~= b);
    }

    fn size() -> usize {
        A::size() + B::size() + C::size()
    }

    fn push_bytes(x: &(A, B, C), out: &mut Vec<u8>) {
        A::push_bytes(&x.0, out);
        B::push_bytes(&x.1, out);
        C::push_bytes(&x.2, out);
        assert(out@ =~= old(out)@ + Self::encode(*x));
    }

    fn read_bytes(data: &[u8], at: usize) -> (A, B, C) {
        assert(<(A, B, C) as TransmuteByteConvertible>::byte_size() == A::byte_size()
            + B::byte_size() + C::byte_size());
        assert(data@.len() == data.len());
        let sa = A::size();
        let sb = B::size();
        let a = A::read_bytes(data, at);
        let b = B::read_bytes(data, at + sa);
        let c = C::read_bytes(data, at + sa + sb);
        let ghost whole = data@.subrange(at as int, at + Self::byte_size());
        assert(whole.subrange(0, sa as int) =~= data@.subrange(at as int, at + sa));
        assert(whole.subrange(sa as int, sa + sb) =~= data@.subrange(at + sa, at + sa + sb));
        assert(whole.subrange(sa + sb, whole.len() as int) =~= data@.subrange(
            at + sa + sb,
            at + sa + sb + C::byte_size(),
        ));
        (a, b, c)
    }
}

impl<T: TransmuteByteConvertible + Copy> ByteConvertible for T {
    open spec fn byte_size() -> nat {
        <T as TransmuteByteConvertible>::byte_size()
    }

    open spec fn encode(x: T) -> Seq<u8> {
        <T as TransmuteByteConvertible>::encode(x)
    }

    open spec fn decode(b: Seq<u8>) -> T {
        <T as TransmuteByteConvertible>::decode(b)
    }

    proof fn lemma_encoding(x: T) {
        <T as TransmuteByteConvertible>::lemma_encoding(x);
    }

    proof fn lemma_decoding(b: Seq<u8>) {
        <T as TransmuteByteConvertible>::lemma_decoding(b);
    }

    fn size() -> usize {
        <T as TransmuteByteConvertible>::size()
    }

    fn to_bytes(data: &[Self]) -> Result<Vec<u8>, ()> {
        let r = <T as TransmuteByteConvertible>::to_bytes(data);
        assert((|x: T| <T as ByteConvertible>::encode(x)) =~= (|x: T|
            <T as TransmuteByteConvertible>::encode(x)));
        r
    }

    fn from_bytes(data: &[u8]) -> Result<Vec<Self>, ()> {
        let r = <T as TransmuteByteConvertible>::from_bytes(data);
        assert((|c: Seq<u8>| <T as ByteConvertible>::decode(c)) =~= (|c: Seq<u8>|
            <T as TransmuteByteConvertible>::decode(c)));
        r
    }
}

/// Two's complement of `v` in `n` bytes, as an unsigned number.
pub open spec fn twos(v: int, n: nat) -> nat {
    if v < 0 {
        (v + pow256(n)) as nat
    } else {
        v as nat
    }
}

/// The signed number whose two's complement in `n` bytes is `u`.
pub open spec fn untwos(u: nat, n: nat) -> int {
    if 2 * u >= pow256(n) {
        u - pow256(n)
    } else {
        u as int
    }
}


/// Output port `port` of node `node`, when it exists, is connected.
pub open spec fn out_connected_if_present(g: Seq<NodeView>, node: NodeID, port: OutPortID) -> bool {
    port.0 < g[node.0 as int].outs.len() ==> g[node.0 as int].outs[port.0 as int] is Some
}

/**
 * A `NodeGuard` gives a node exclusive access to the `Graph` while it is in scope.
 */
pub struct NodeGuard<'a> {
    node: NodeID,
    graph: &'a mut Graph,
}

impl<'a> NodeGuard<'a> {
    /// The node this guard acts for.
    pub closed spec fn node_id(&self) -> NodeID {
        self.node
    }

    /// The graph as the guard sees it.
    pub closed spec fn graph_view(&self) -> Seq<NodeView> {
        self.graph@
    }

    /// The guard acts for a node of a well-formed graph.
    pub open spec fn valid(&self) -> bool {
        graph_wf(self.graph_view()) && self.node_id().0 < self.graph_view().len()
    }

    /// The bytes waiting on input port `port` of the guard's node.
    pub open spec fn waiting(&self, port: InPortID) -> Seq<u8> {
        self.graph_view()[self.node_id().0 as int].ins[port.0 as int].data
    }

    /// The guard's node has input port `port`.
    pub open spec fn has_in(&self, port: InPortID) -> bool {
        port.0 < self.graph_view()[self.node_id().0 as int].ins.len()
    }

    fn new(graph: &'a mut Graph, node: NodeID) -> (r: NodeGuard<'a>)
        ensures
            r.node_id() == node,
            r.graph_view() == old(graph)@,
    {
        NodeGuard { node, graph }
    }

    /**
     * Write `data` to `port`. Threads waiting on the graph are to be woken by the caller.
     */
    pub fn write<T: ByteConvertible>(&mut self, port: OutPortID, data: &[T]) -> (r: Result<(), ()>)
        requires
            old(self).valid(),
            out_connected_if_present(old(self).graph_view(), old(self).node_id(), port),
        ensures
            final(self).valid(),
            final(self).node_id() == old(self).node_id(),
            ({
                let g = old(self).graph_view();
                let k = old(self).node_id().0 as int;
                let (n, p) = target(g, old(self).node_id(), port);
                if port.0 < g[k].outs.len() {
                    &&& r is Ok
                    &&& final(self).graph_view() == with_data(g, n, p, g[n].ins[p].data + bytes_of(data@))
                } else {
                    &&& r is Err
                    &&& final(self).graph_view() == g
                }
            }),
    {
        let node = self.graph.node(self.node);
        if port.0 >= node.out_ports().len() {
            return Err(());
        }
        proof {
            lemma_target(self.graph_view(), self.node, port);
        }
        let edge = node.out_port(port).edge().unwrap();
        if edge.node.0 >= self.graph.num_nodes() {
            return Err(());
        }
        if edge.port.0 >= self.graph.node(edge.node).in_ports().len() {
            return Err(());
        }
        let converted = T::to_bytes(data);
        match converted {
            Ok(bytes) => {
                self.graph.append_data(edge.node, edge.port, bytes.as_slice());
                proof {
                    assert((|x: T| T::encode(x)) == enc_fn::<T>());
                }
                Ok(())
            },
            Err(e) => Err(e),
        }
    }

    /**
     * Read all available data from `port`.
     */
    pub fn read<T: ByteConvertible>(&mut self, port: InPortID) -> (r: Result<Vec<T>, ()>)
        requires
            old(self).valid(),
            T::byte_size() <= usize::MAX,
        ensures
            final(self).valid(),
            final(self).node_id() == old(self).node_id(),
            !old(self).has_in(port) ==> r is Err && final(self).graph_view() == old(self).graph_view(),
            old(self).has_in(port) ==> {
                let data = old(self).waiting(port);
                let cut = (data.len() / T::byte_size()) * T::byte_size();
                &&& r matches Ok(v) && v@ == items_of::<T>(data.take(cut as int))
                &&& final(self).graph_view() == with_data(
                    old(self).graph_view(),
                    old(self).node_id().0 as int,
                    port.0 as int,
                    data.skip(cut as int),
                )
            },
    {
        let n = match self.available_at::<T>(port, 0) {
            Ok(n) => n,
            Err(e) => return Err(e),
        };
        let size = T::size();
        proof {
            let len = self.waiting(port).len() as int;
            let sz = size as int;
            vstd::arithmetic::div_mod::lemma_fundamental_div_mod(len, sz);
            vstd::arithmetic::div_mod::lemma_mod_bound(len, sz);
            assert((len / sz) * sz == sz * (len / sz)) by (nonlinear_arith);
            self.graph.lemma_data_len(self.node, port);
        }
        self.read_n(port, n)
    }

    /**
     * Read exactly `n` objects of type `T` from `port`. Panics if `n` objects are not available.
     */
    pub fn read_n<T: ByteConvertible>(&mut self, port: InPortID, n: usize) -> (r: Result<Vec<T>, ()>)
        requires
            old(self).valid(),
            T::byte_size() <= usize::MAX,
            n * T::byte_size() <= usize::MAX,
            old(self).has_in(port) ==> n * T::byte_size() <= old(self).waiting(port).len(),
        ensures
            final(self).valid(),
            final(self).node_id() == old(self).node_id(),
            !old(self).has_in(port) ==> r is Err && final(self).graph_view() == old(self).graph_view(),
            old(self).has_in(port) ==> {
                let data = old(self).waiting(port);
                let cut = n * T::byte_size();
                &&& r matches Ok(v) && v@ == items_of::<T>(data.take(cut as int))
                &&& final(self).graph_view() == with_data(
                    old(self).graph_view(),
                    old(self).node_id().0 as int,
                    port.0 as int,
                    data.skip(cut as int),
                )
            },
    {
        let size = T::size();
        let n_bytes = n * size;
        if port.0 >= self.graph.node(self.node).in_ports().len() {
            return Err(());
        }
        let out = self.graph.take_data(self.node, port, n_bytes);
        proof {
            vstd::arithmetic::div_mod::lemma_mod_multiples_basic(n as int, size as int);
        }
        let r = T::from_bytes(out.as_slice());
        proof {
            assert((|c: Seq<u8>| T::decode(c)) == dec_fn::<T>());
        }
        r
    }

    /**
     * Read all available data from `port` without consuming it.
     */
    pub fn peek<T: ByteConvertible>(&self, port: InPortID) -> (r: Result<Vec<T>, ()>)
        requires
            self.valid(),
            T::byte_size() <= usize::MAX,
        ensures
            !self.has_in(port) ==> r is Err,
            self.has_in(port) ==> {
                let data = self.waiting(port);
                let n = data.len() / T::byte_size();
                r matches Ok(v) && v@ == items_of::<T>(data.subrange(0, (n * T::byte_size()) as int))
            },
    {
        self.peek_at(port, 0)
    }

    /**
     * Read all available data from `port` without consuming it, starting after `index` bytes:
     * every whole value that follows.
     *
     * Panics if there are not enough bytes available to skip to `index`.
     */
    pub fn peek_at<T: ByteConvertible>(&self, port: InPortID, index: usize) -> (r: Result<Vec<T>, ()>)
        requires
            self.valid(),
            T::byte_size() <= usize::MAX,
            self.has_in(port) ==> index <= self.waiting(port).len(),
        ensures
            !self.has_in(port) ==> r is Err,
            self.has_in(port) ==> {
                let data = self.waiting(port);
                let size = T::byte_size();
                let count = (data.len() - index) as nat / size;
                r matches Ok(v) && v@ == items_of::<T>(data.subrange(index as int, index + count * size))
            },
    {
        let n = match self.available_at::<T>(port, index) {
            Ok(n) => n,
            Err(e) => return Err(e),
        };
        let size = T::size();
        proof {
            self.graph.lemma_data_len(self.node, port);
            let len = (self.waiting(port).len() - index) as int;
            let sz = size as int;
            vstd::arithmetic::div_mod::lemma_fundamental_div_mod(len, sz);
            vstd::arithmetic::div_mod::lemma_mod_bound(len, sz);
            assert((len / sz) * sz == sz * (len / sz)) by (nonlinear_arith);
            assert(n as int == len / sz);
            assert(n * T::byte_size() == (len / sz) * sz);
        }
        self.peek_n_at(port, n, index)
    }

    /**
     * Read exactly `n` objects of type `T` from `port` without consuming it. Panics if `n` objects
     * of type `T` are not available starting at `index`.
     */
    pub fn peek_n<T: ByteConvertible>(&self, port: InPortID, n: usize) -> (r: Result<Vec<T>, ()>)
        requires
            self.valid(),
            T::byte_size() <= usize::MAX,
            n * T::byte_size() <= usize::MAX,
            self.has_in(port) ==> n * T::byte_size() <= self.waiting(port).len(),
        ensures
            !self.has_in(port) ==> r is Err,
            self.has_in(port) ==> (r matches Ok(v) && v@ == items_of::<T>(
                self.waiting(port).subrange(0, n * T::byte_size()),
            )),
    {
        self.peek_n_at(port, n, 0)
    }

    /**
     * Read exactly `n` objects of type `T` from `port` without consuming it, starting after
     * `index` bytes. Panics if `n` objects of type `T` are not available starting at `index`.
     */
    pub fn peek_n_at<T: ByteConvertible>(&self, port: InPortID, n: usize, index: usize) -> (r: Result<
        Vec<T>,
        (),
    >)
        requires
            self.valid(),
            T::byte_size() <= usize::MAX,
            n * T::byte_size() <= usize::MAX,
            self.has_in(port) ==> index <= self.waiting(port).len() && self.waiting(port).len() - index
                >= n * T::byte_size(),
        ensures
            !self.has_in(port) ==> r is Err,
            self.has_in(port) ==> (r matches Ok(v) && v@ == items_of::<T>(
                self.waiting(port).subrange(index as int, index + n * T::byte_size()),
            )),
    {
        let size = T::size();
        let n_bytes = n * size;
        if port.0 >= self.graph.node(self.node).in_ports().len() {
            return Err(());
        }
        let out = self.graph.copy_data(self.node, port, index, n_bytes);
        proof {
            vstd::arithmetic::div_mod::lemma_mod_multiples_basic(n as int, size as int);
        }
        let r = T::from_bytes(out.as_slice());
        proof {
            assert((|c: Seq<u8>| T::decode(c)) == dec_fn::<T>());
        }
        r
    }

    /**
     * Returns the number of bytes available to be read from the given input port.
     */
    pub fn available<T: ByteConvertible>(&self, port: InPortID) -> (r: Result<usize, ()>)
        requires
            self.valid(),
            T::byte_size() <= usize::MAX,
        ensures
            !self.has_in(port) ==> r is Err,
            self.has_in(port) ==> r == Ok::<usize, ()>(self.waiting(port).len() as usize),
    {
        if port.0 >= self.graph.node(self.node).in_ports().len() {
            return Err(());
        }
        Ok(self.graph.data_len(self.node, port))
    }

    /**
     * Returns the number of objects of type `T` available to be read from the given input port,
     * after skipping `index` bytes.
     */
    pub fn available_at<T: ByteConvertible>(&self, port: InPortID, index: usize) -> (r: Result<usize, ()>)
        requires
            self.valid(),
            T::byte_size() <= usize::MAX,
            self.has_in(port) ==> index <= self.waiting(port).len(),
        ensures
            !self.has_in(port) ==> r is Err,
            self.has_in(port) ==> r == Ok::<usize, ()>(
                ((self.waiting(port).len() - index) as nat / T::byte_size()) as usize,
            ),
    {
        if port.0 >= self.graph.node(self.node).in_ports().len() {
            return Err(());
        }
        let len = self.graph.data_len(self.node, port);
        let size = T::size();
        Ok((len - index) / size)
    }

    /**
     * Returns the number of objects of type `T` buffered (i.e. waiting to be read) from the given
     * output port.
     */
    pub fn buffered<T: ByteConvertible>(&self, port: OutPortID) -> (r: Result<usize, ()>)
        requires
            self.valid(),
            T::byte_size() <= usize::MAX,
            out_connected_if_present(self.graph_view(), self.node_id(), port),
        ensures
            ({
                let g = self.graph_view();
                let (n, p) = target(g, self.node_id(), port);
                if port.0 < g[self.node_id().0 as int].outs.len() {
                    r == Ok::<usize, ()>((g[n].ins[p].data.len() / T::byte_size()) as usize)
                } else {
                    r is Err
                }
            }),
    {
        let node = self.graph.node(self.node);
        if port.0 >= node.out_ports().len() {
            return Err(());
        }
        proof {
            lemma_target(self.graph_view(), self.node, port);
        }
        let edge = node.out_port(port).edge().unwrap();
        if edge.node.0 >= self.graph.num_nodes() {
            return Err(());
        }
        if edge.port.0 >= self.graph.node(edge.node).in_ports().len() {
            return Err(());
        }
        let len = self.graph.data_len(edge.node, edge.port);
        let size = T::size();
        Ok(len / size)
    }

    /**
     * Gets the associated `Node`.
     */
    pub fn node(&self) -> (r: &Node)
        requires
            self.valid(),
        ensures
            r@ == self.graph_view()[self.node_id().0 as int],
    {
        self.graph.node(self.node)
    }

    /**
     * Gets the associated `Graph`.
     */
    pub fn graph(&self) -> (r: &Graph)
        ensures
            r@ == self.graph_view(),
    {
        self.graph
    }
}

/**
 * Holds the context needed for a node thread to read, write, and access the graph.
 */
pub struct NodeContext {
    node: NodeID,
}

impl NodeContext {
    /// The node this context belongs to.
    pub closed spec fn node_id(&self) -> NodeID {
        self.node
    }

    /**
     * Lock the graph of `context`, returning a `NodeGuard` which can be used for interacting
     * with other nodes.
     */
    pub fn lock<'a>(&self, context: &'a mut Context) -> (r: NodeGuard<'a>)
        ensures
            r.node_id() == self.node_id(),
            r.graph_view() == old(context).graph_view(),
    {
        NodeGuard::new(&mut context.graph, self.node)
    }

    /**
     * Gets the `Graph` of `context`.
     */
    pub fn graph<'a>(&self, context: &'a Context) -> (r: &'a Graph)
        ensures
            r@ == context.graph_view(),
    {
        &context.graph
    }

    /**
     * Gets the associated `Node` in the graph of `context`.
     */
    pub fn node<'a>(&self, context: &'a Context) -> (r: &'a Node)
        requires
            self.node_id().0 < context.graph_view().len(),
        ensures
            r@ == context.graph_view()[self.node_id().0 as int],
    {
        context.graph.node(self.node)
    }

    /// Ends this context: its node is no longer attached to a thread.
    pub fn detach(self, context: &mut Context)
        requires
            graph_wf(old(context).graph_view()),
            self.node_id().0 < old(context).graph_view().len(),
            old(context).graph_view()[self.node_id().0 as int].attached,
        ensures
            final(context).graph_view() == old(context).graph_view().update(
                self.node_id().0 as int,
                NodeView { attached: false, ..old(context).graph_view()[self.node_id().0 as int] },
            ),
            graph_wf(final(context).graph_view()),
    {
        let r = context.graph.detach_thread(self.node);
    }
}

/**
 * A `Context` takes a `Graph` and enables connecting threads to nodes.
 */
pub struct Context {
    graph: Graph,
}

impl Context {
    /// The graph.
    pub closed spec fn graph_view(&self) -> Seq<NodeView> {
        self.graph@
    }

    /**
     * Construct a new `Context` using the given `Graph`.
     */
    pub fn new(graph: Graph) -> (r: Context)
        ensures
            r.graph_view() == graph@,
    {
        Context { graph }
    }

    /**
     * Create the context for a specific node. This context is required for the node to interact
     * with others.
     *
     * Returns `Err` if there is no such node or this node is already attached to another thread.
     */
    pub fn node_ctx(&mut self, node: NodeID) -> (r: Result<NodeContext, ()>)
        requires
            graph_wf(old(self).graph_view()),
        ensures
            graph_wf(final(self).graph_view()),
            node.0 >= old(self).graph_view().len() ==> r is Err && final(self).graph_view() == old(
                self,
            ).graph_view(),
            node.0 < old(self).graph_view().len() ==> {
                &&& r is Ok <==> !old(self).graph_view()[node.0 as int].attached
                &&& final(self).graph_view() == old(self).graph_view().update(
                    node.0 as int,
                    NodeView { attached: true, ..old(self).graph_view()[node.0 as int] },
                )
            },
            r matches Ok(c) ==> c.node_id() == node,
    {
        if node.0 >= self.graph.num_nodes() {
            return Err(());
        }
        match self.graph.attach_thread(node) {
            Ok(()) => Ok(NodeContext { node }),
            Err(()) => Err(()),
        }
    }

    /**
     * Gets the associated `Graph`.
     */
    pub fn graph(&self) -> (r: &Graph)
        ensures
            r@ == self.graph_view(),
    {
        &self.graph
    }
}

} // verus!
