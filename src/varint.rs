use vstd::prelude::*;

verus! {

/// Largest number of bytes an unsigned varint may take.
pub const MAX_VARINT_LEN: usize = 10;

/// `128` raised to the power `k`.
pub open spec fn pow128(k: nat) -> nat
    decreases k,
{
    if k == 0 {
        1
    } else {
        128 * pow128((k - 1) as nat)
    }
}

/// Value of a run of little-endian base-128 digits: each byte gives its low seven bits.
pub open spec fn digits_value(s: Seq<u8>) -> nat
    decreases s.len(),
{
    if s.len() == 0 {
        0
    } else {
        (s[0] % 128) as nat + 128 * digits_value(s.drop_first())
    }
}

/// The shortest unsigned LEB128 encoding of `n`.
pub open spec fn uvarint(n: nat) -> Seq<u8>
    decreases n,
{
    if n < 128 {
        seq![n as u8]
    } else {
        seq![(n % 128 + 128) as u8] + uvarint(n / 128)
    }
}

/// Index of the first byte whose continuation bit is clear, or `s.len()` when there is none.
pub open spec fn stop_index(s: Seq<u8>) -> nat
    decreases s.len(),
{
    if s.len() == 0 {
        0
    } else if s[0] < 128 {
        0
    } else {
        1 + stop_index(s.drop_first())
    }
}

/// What reading a varint at the front of some bytes gives.
#[derive(Debug, PartialEq, Eq, Structural)]
pub enum VarintRead {
    /// No byte at all: the end of the input, at a boundary.
    Eof,
    /// The value and the number of bytes it took.
    Value(u64, usize),
    /// The input ended after one or more continuation bytes.
    Truncated,
    /// Ten continuation bytes in a row, or a value beyond `u64`.
    Overflow,
}

/// Reading a varint from the front of `s`. Overlong encodings are accepted.
pub open spec fn varint_read(s: Seq<u8>) -> VarintRead {
    if s.len() == 0 {
        VarintRead::Eof
    } else {
        let k = stop_index(s) as int;
        if k >= MAX_VARINT_LEN {
            VarintRead::Overflow
        } else if k == s.len() {
            VarintRead::Truncated
        } else if digits_value(s.take(k + 1 as int)) > u64::MAX {
            VarintRead::Overflow
        } else {
            VarintRead::Value(digits_value(s.take(k + 1 as int)) as u64, (k + 1) as usize)
        }
    }
}

proof fn lemma_digits_step(t: Seq<u8>)
    requires
        t.len() > 0,
    ensures
        digits_value(t) == digits_value(t.take(t.len() - 1)) + (t[t.len() - 1] % 128) as nat
            * pow128((t.len() - 1) as nat),
    decreases t.len(),
{
    let n = t.len() - 1;
    if n == 0 {
        assert(t.drop_first().len() == 0);
        assert(t.take(0).len() == 0);
        assert((t[0] % 128) as nat * 1 == (t[0] % 128) as nat);
        assert(digits_value(t.drop_first()) == 0);
        assert(digits_value(t.take(0)) == 0);
        assert(pow128(0) == 1);
        assert(digits_value(t) == (t[0] % 128) as nat);
    } else {
        let rest = t.drop_first();
        lemma_digits_step(rest);
        assert(t.take(n).drop_first() =~= rest.take(n - 1));
        assert(t.take(n)[0] == t[0]);
        let a = digits_value(rest.take(n - 1));
        let b = (rest[n - 1] % 128) as nat;
        let p = pow128((n - 1) as nat);
        assert(128 * (a + b * p) == 128 * a + b * (128 * p)) by (nonlinear_arith);
        assert(rest[n - 1] == t[n as int]);
        assert(digits_value(t) == (t[0] % 128) as nat + 128 * digits_value(rest));
        assert(digits_value(t.take(n)) == (t[0] % 128) as nat + 128 * a);
        assert(pow128(n as nat) == 128 * p);
        assert(digits_value(rest) == a + b * p);
        assert(digits_value(t) == digits_value(t.take(n)) + b * pow128(n as nat));
    }
}

proof fn lemma_digits_bound(t: Seq<u8>)
    ensures
        digits_value(t) < pow128(t.len()),
    decreases t.len(),
{
    if t.len() > 0 {
        lemma_digits_bound(t.drop_first());
        let a = digits_value(t.drop_first());
        let p = pow128((t.len() - 1) as nat);
        assert(128 * a + 127 < 128 * p) by (nonlinear_arith)
            requires
                a < p,
        ;
    }
}

proof fn lemma_stop_at(s: Seq<u8>, i: nat)
    requires
        i <= s.len(),
        forall|j: int| 0 <= j < i ==> s[j] >= 128,
        i == s.len() || s[i as int] < 128,
    ensures
        stop_index(s) == i,
    decreases i,
{
    if i > 0 {
        lemma_stop_at(s.drop_first(), (i - 1) as nat);
    }
}

proof fn lemma_stop_past(s: Seq<u8>, i: nat)
    requires
        i <= s.len(),
        forall|j: int| 0 <= j < i ==> s[j] >= 128,
    ensures
        stop_index(s) >= i,
    decreases i,
{
    if i > 0 {
        lemma_stop_past(s.drop_first(), (i - 1) as nat);
    }
}

/// Appends the varint encoding of `n`.
pub fn write_uvarint(out: &mut Vec<u8>, n: u64)
    ensures
        final(out)@ == old(out)@ + uvarint(n as nat),
{
    let ghost start = out@;
    let mut m: u64 = n;
    while m >= 128
        invariant
            out@ + uvarint(m as nat) == start + uvarint(n as nat),
        decreases m,
    {
        let ghost before = out@;
        out.push((m % 128 + 128) as u8);
        m = m / 128;
        assert(out@ + uvarint(m as nat) =~= before + (seq![out@.last()] + uvarint(m as nat)));
    }
    out.push(m as u8);
    assert(out@ =~= start + uvarint(n as nat));
}

/// The varint encoding of `n`.
pub fn encode_uvarint(n: u64) -> (r: Vec<u8>)
    ensures
        r@ == uvarint(n as nat),
{
    let mut out: Vec<u8> = Vec::new();
    write_uvarint(&mut out, n);
    assert(out@ =~= uvarint(n as nat));
    out
}

/// Reads a varint from `data` at `pos`.
pub fn read_uvarint(data: &[u8], pos: usize) -> (r: VarintRead)
    requires
        pos <= data@.len(),
    ensures
        r == varint_read(data@.subrange(pos as int, data@.len() as int)),
{
    let ghost s = data@.subrange(pos as int, data@.len() as int);
    if pos == data.len() {
        return VarintRead::Eof;
    }
    proof {
        reveal_with_fuel(pow128, 10);
    }
    let rem: usize = data.len() - pos;
    let mut i: usize = 0;
    let mut acc: u128 = 0;
    let mut scale: u128 = 1;
    loop
        invariant
            i < MAX_VARINT_LEN,
            pos + i <= data@.len(),
            rem == data@.len() - pos,
            data@.len() <= usize::MAX,
            s == data@.subrange(pos as int, data@.len() as int),
            s.len() > 0,
            forall|j: int| 0 <= j < i ==> s[j] >= 128,
            acc == digits_value(s.take(i as int)),
            scale == pow128(i as nat),
            pow128(9) == 0x8000_0000_0000_0000,
        decreases MAX_VARINT_LEN - i,
    {
        if i == rem {
            proof {
                lemma_stop_at(s, i as nat);
            }
            return VarintRead::Truncated;
        }
        let b = data[pos + i];
        proof {
            lemma_digits_bound(s.take(i as int));
            lemma_pow128_mono(i as nat, 9);
            assert(s.take(i as int + 1).take(i as int) =~= s.take(i as int));
            lemma_digits_step(s.take(i as int + 1));
            assert((b % 128) as nat * pow128(i as nat) <= 127 * 0x8000_0000_0000_0000)
                by (nonlinear_arith)
                requires
                    pow128(i as nat) <= 0x8000_0000_0000_0000,
                    b % 128 <= 127,
            ;
        }
        acc = acc + (b % 128) as u128 * scale;
        if b < 128 {
            proof {
                lemma_stop_at(s, i as nat);
            }
            if acc > u64::MAX as u128 {
                return VarintRead::Overflow;
            }
            return VarintRead::Value(acc as u64, i + 1);
        }
        if i + 1 == MAX_VARINT_LEN {
            proof {
                lemma_stop_past(s, MAX_VARINT_LEN as nat);
            }
            return VarintRead::Overflow;
        }
        i = i + 1;
        scale = scale * 128;
    }
}

proof fn lemma_pow128_mono(a: nat, b: nat)
    requires
        a <= b,
    ensures
        pow128(a) <= pow128(b),
    decreases b,
{
    if a < b {
        lemma_pow128_mono(a, (b - 1) as nat);
    }
}

proof fn lemma_uvarint_shape(n: nat, rest: Seq<u8>)
    ensures
        uvarint(n).len() >= 1,
        digits_value(uvarint(n)) == n,
        stop_index(uvarint(n) + rest) == uvarint(n).len() - 1,
        forall|k: nat| k >= 1 && n < pow128(k) ==> uvarint(n).len() <= k,
    decreases n,
{
    if n < 128 {
        assert((uvarint(n) + rest)[0] == n as u8);
        assert(uvarint(n).drop_first().len() == 0);
        assert(digits_value(uvarint(n).drop_first()) == 0);
        assert(uvarint(n)[0] == n as u8);
    } else {
        lemma_uvarint_shape(n / 128, rest);
        let tail = uvarint(n / 128);
        assert(uvarint(n).drop_first() =~= tail);
        assert((uvarint(n) + rest).drop_first() =~= tail + rest);
        assert(uvarint(n)[0] == (n % 128 + 128) as u8);
        assert(digits_value(uvarint(n)) == n % 128 + 128 * (n / 128));
        assert forall|k: nat| k >= 1 && n < pow128(k) implies uvarint(n).len() <= k by {
            if k == 1 {
                assert(pow128(1) == 128 * pow128(0));
            } else {
                let p = pow128((k - 1) as nat);
                assert(n / 128 < p) by (nonlinear_arith)
                    requires
                        n < 128 * p,
                ;
            }
        }
    }
}

/// Reading back the encoding of any `u64`, whatever follows it, gives the value and the
/// length of the encoding.
pub proof fn lemma_uvarint_round_trip(n: u64, rest: Seq<u8>)
    ensures
        varint_read(uvarint(n as nat) + rest) == VarintRead::Value(n, uvarint(n as nat).len() as usize),
        uvarint(n as nat).len() <= MAX_VARINT_LEN,
{
    lemma_uvarint_shape(n as nat, rest);
    reveal_with_fuel(pow128, 11);
    assert(pow128(10) == 0x40_0000_0000_0000_0000);
    let e = uvarint(n as nat);
    assert((e + rest).take(e.len() as int) =~= e);
}

/// Ten continuation bytes in a row are refused.
pub proof fn lemma_overlong_refused(s: Seq<u8>)
    requires
        s.len() >= MAX_VARINT_LEN,
        forall|j: int| 0 <= j < MAX_VARINT_LEN ==> s[j] >= 128,
    ensures
        varint_read(s) == VarintRead::Overflow,
{
    lemma_stop_past(s, MAX_VARINT_LEN as nat);
}

/// No bytes at all read as a clean end of input.
pub proof fn lemma_empty_is_eof()
    ensures
        varint_read(Seq::<u8>::empty()) == VarintRead::Eof,
{
}

/// Every byte of an encoding but the last carries the continuation bit, so a cut encoding
/// reads as truncated.
pub proof fn lemma_uvarint_cut(n: u64, cut: nat)
    requires
        0 < cut < uvarint(n as nat).len(),
    ensures
        varint_read(uvarint(n as nat).take(cut as int)) == VarintRead::Truncated,
{
    lemma_uvarint_round_trip(n, Seq::empty());
    lemma_uvarint_continuation(n as nat);
    let s = uvarint(n as nat).take(cut as int);
    lemma_stop_at(s, cut);
}

proof fn lemma_uvarint_continuation(n: nat)
    ensures
        forall|i: int| 0 <= i < uvarint(n).len() - 1 ==> #[trigger] uvarint(n)[i] >= 128,
    decreases n,
{
    if n >= 128 {
        lemma_uvarint_continuation(n / 128);
        let tail = uvarint(n / 128);
        assert forall|i: int| 0 <= i < uvarint(n).len() - 1 implies #[trigger] uvarint(n)[i]
            >= 128 by {
            if i > 0 {
                assert(uvarint(n)[i] == tail[i - 1]);
            }
        }
    }
}

} // verus!
