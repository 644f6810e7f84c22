use vstd::prelude::*;

verus! {

/// 256 to the power of `width`.
pub open spec fn pow256(width: nat) -> nat
    decreases width,
{
    if width == 0 {
        1
    } else {
        256 * pow256((width - 1) as nat)
    }
}

/// The number that `bytes` spell, most significant byte first.
pub open spec fn be_value(bytes: Seq<u8>) -> nat
    decreases bytes.len(),
{
    if bytes.len() == 0 {
        0
    } else {
        be_value(bytes.drop_last()) * 256 + bytes.last() as nat
    }
}

/// The `width` low bytes of `value`, most significant byte first.
pub open spec fn be_bytes(value: nat, width: nat) -> Seq<u8>
    decreases width,
{
    if width == 0 {
        Seq::<u8>::empty()
    } else {
        be_bytes(value / 256, (width - 1) as nat).push((value % 256) as u8)
    }
}

/// The number spelt by the `width` bytes of `bytes` that begin at `at`.
pub open spec fn uint_at(bytes: Seq<u8>, at: int, width: int) -> nat {
    be_value(bytes.subrange(at, at + width))
}

/// The powers of 256 up to the eighth.
pub proof fn lemma_pow256_values()
    ensures
        pow256(0) == 1,
        pow256(1) == 0x100,
        pow256(2) == 0x1_0000,
        pow256(3) == 0x100_0000,
        pow256(4) == 0x1_0000_0000,
        pow256(5) == 0x100_0000_0000,
        pow256(6) == 0x1_0000_0000_0000,
        pow256(7) == 0x100_0000_0000_0000,
        pow256(8) == 0x1_0000_0000_0000_0000,
{
    reveal_with_fuel(pow256, 9);
}

/// `width` bytes spell a number below 256 to the power of `width`.
pub proof fn lemma_be_value_bound(bytes: Seq<u8>)
    ensures
        be_value(bytes) < pow256(bytes.len()),
    decreases bytes.len(),
{
    if bytes.len() > 0 {
        lemma_be_value_bound(bytes.drop_last());
    }
}

/// `be_bytes` gives as many bytes as it is asked for.
pub proof fn lemma_be_bytes_len(value: nat, width: nat)
    ensures
        be_bytes(value, width).len() == width,
    decreases width,
{
    if width > 0 {
        lemma_be_bytes_len(value / 256, (width - 1) as nat);
    }
}

/// Law: a number that fits into `width` bytes is read back from them.
pub proof fn lemma_be_round_trip(value: nat, width: nat)
    requires
        value < pow256(width),
    ensures
        be_value(be_bytes(value, width)) == value,
    decreases width,
{
    if width > 0 {
        let init = be_bytes(value / 256, (width - 1) as nat);
        lemma_be_round_trip(value / 256, (width - 1) as nat);
        assert(be_bytes(value, width).drop_last() == init);
    }
}

/// Reads the number spelt by the `width` bytes of `bytes` that begin at `at`.
pub fn read_uint(bytes: &Vec<u8>, at: usize, width: usize) -> (value: u64)
    requires
        width <= 8,
        at + width <= bytes.len(),
    ensures
        value == uint_at(bytes@, at as int, width as int),
{
    let ghost part = bytes@.subrange(at as int, at + width);
    let mut value: u64 = 0;
    let mut i: usize = 0;
    proof {
        assert(part.take(0) == Seq::<u8>::empty());
    }
    while i < width
        invariant
            i <= width <= 8,
            at + width <= bytes.len(),
            part == bytes@.subrange(at as int, at + width),
            value == be_value(part.take(i as int)),
        decreases width - i,
    {
        proof {
            lemma_be_value_bound(part.take(i as int));
            lemma_pow256_values();
            lemma_pow256_monotonic(i as nat, 7);
            assert(part.take(i + 1).drop_last() == part.take(i as int));
            assert(part.take(i + 1).last() == bytes@[at + i]);
        }
        value = value * 256 + bytes[at + i] as u64;
        i += 1;
    }
    proof {
        assert(part.take(width as int) == part);
    }
    value
}

/// A higher power of 256 is no smaller.
pub proof fn lemma_pow256_monotonic(low: nat, high: nat)
    requires
        low <= high,
    ensures
        pow256(low) <= pow256(high),
        pow256(low) >= 1,
    decreases high,
{
    if low < high {
        lemma_pow256_monotonic(low, (high - 1) as nat);
    } else if low > 0 {
        lemma_pow256_monotonic((low - 1) as nat, (low - 1) as nat);
    }
}

/// Appends the `width` low bytes of `value`, most significant byte first.
pub fn push_uint(buffer: &mut Vec<u8>, value: u64, width: usize)
    ensures
        final(buffer)@ == old(buffer)@ + be_bytes(value as nat, width as nat),
    decreases width,
{
    if width > 0 {
        push_uint(buffer, value / 256, width - 1);
        buffer.push((value % 256) as u8);
        proof {
            assert(buffer@ == old(buffer)@ + be_bytes(value as nat, width as nat));
        }
    } else {
        proof {
            assert(buffer@ == old(buffer)@ + be_bytes(value as nat, width as nat));
        }
    }
}

} // verus!
