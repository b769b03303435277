//! Reading and writing plain bytes: little-endian integers, copies into a
//! block of memory and moves inside it.
use vstd::prelude::*;

verus! {

/// The number that `bytes` spell, least significant byte first.
pub open spec fn le_value(bytes: Seq<u8>) -> nat
    decreases bytes.len(),
{
    if bytes.len() == 0 {
        0
    } else {
        bytes[0] as nat + 256 * le_value(bytes.skip(1))
    }
}

/// The `width` lowest bytes of `x`, least significant byte first.
pub open spec fn le_bytes(x: nat, width: nat) -> Seq<u8>
    decreases width,
{
    if width == 0 {
        Seq::empty()
    } else {
        seq![(x % 256) as u8] + le_bytes(x / 256, (width - 1) as nat)
    }
}

/// 256 to the power of `width`: one more than the largest number that `width`
/// bytes can spell.
pub open spec fn le_bound(width: nat) -> nat
    decreases width,
{
    if width == 0 {
        1
    } else {
        256 * le_bound((width - 1) as nat)
    }
}

/// `mem` with `bytes` written over it from `at` on.
pub open spec fn overwrite(mem: Seq<u8>, at: int, bytes: Seq<u8>) -> Seq<u8> {
    Seq::new(
        mem.len(),
        |i: int|
            if at <= i < at + bytes.len() {
                bytes[i - at]
            } else {
                mem[i]
            },
    )
}

/// `mem` after the `count` bytes at `src` have been moved to `dst`.
pub open spec fn slide(mem: Seq<u8>, dst: int, src: int, count: int) -> Seq<u8> {
    Seq::new(
        mem.len(),
        |i: int|
            if dst <= i < dst + count {
                mem[i - dst + src]
            } else {
                mem[i]
            },
    )
}

/// The smallest multiple of `multiple` that is not below `num`.
pub open spec fn round_up(num: int, multiple: int) -> int {
    if num % multiple == 0 {
        num
    } else {
        num + multiple - num % multiple
    }
}

pub(crate) proof fn lemma_le_bytes(x: nat, width: nat)
    ensures
        le_bytes(x, width).len() == width,
        x < le_bound(width) ==> le_value(le_bytes(x, width)) == x,
    decreases width,
{
    if width > 0 {
        let rest = le_bytes(x / 256, (width - 1) as nat);
        lemma_le_bytes(x / 256, (width - 1) as nat);
        assert(le_bytes(x, width).skip(1) =~= rest);
    }
}

pub(crate) proof fn lemma_le_value(bytes: Seq<u8>)
    ensures
        le_value(bytes) < le_bound(bytes.len()),
        le_bytes(le_value(bytes), bytes.len()) == bytes,
    decreases bytes.len(),
{
    if bytes.len() > 0 {
        lemma_le_value(bytes.skip(1));
        let x = le_value(bytes);
        assert(x / 256 == le_value(bytes.skip(1)));
        assert(x % 256 == bytes[0] as nat);
        assert(le_bytes(x, bytes.len()) =~= bytes);
    } else {
        assert(le_bytes(0, 0) =~= bytes);
    }
}

pub(crate) proof fn lemma_le_bounds()
    ensures
        le_bound(4) == 0x1_0000_0000,
        le_bound(8) == 0x1_0000_0000_0000_0000,
{
    reveal_with_fuel(le_bound, 9);
}

pub(crate) proof fn lemma_round_up(num: int, multiple: int)
    requires
        0 <= num,
        0 < multiple,
    ensures
        num <= round_up(num, multiple) < num + multiple,
        round_up(num, multiple) % multiple == 0,
        forall|m: int| num <= m && #[trigger] (m % multiple) == 0 ==> round_up(num, multiple) <= m,
{
    let r = num % multiple;
    let q = num / multiple;
    vstd::arithmetic::div_mod::lemma_fundamental_div_mod(num, multiple);
    if r != 0 {
        assert(num + multiple - r == multiple * (q + 1)) by (nonlinear_arith)
            requires
                num == multiple * q + r,
        ;
        vstd::arithmetic::div_mod::lemma_mod_multiples_basic(q + 1, multiple);
        assert(multiple * (q + 1) == (q + 1) * multiple) by (nonlinear_arith);
    }
    assert forall|m: int| num <= m && #[trigger] (m % multiple) == 0 implies round_up(
        num,
        multiple,
    ) <= m by {
        let p = m / multiple;
        vstd::arithmetic::div_mod::lemma_fundamental_div_mod(m, multiple);
        if r != 0 && m < num + multiple - r {
            assert(false) by (nonlinear_arith)
                requires
                    m == multiple * p,
                    num == multiple * q + r,
                    num <= m,
                    m < num + multiple - r,
                    0 < r < multiple,
            ;
        }
    }
}

/// Rounds `num` up to the next multiple of `multiple`.
pub fn round_to_boundary(num: usize, multiple: usize) -> (result: usize)
    requires
        0 < multiple,
        round_up(num as int, multiple as int) <= usize::MAX,
    ensures
        result == round_up(num as int, multiple as int),
        num <= result < num + multiple,
        result as int % multiple as int == 0,
        forall|m: int|
            num <= m && #[trigger] (m % (multiple as int)) == 0 ==> result <= m,
{
    proof {
        lemma_round_up(num as int, multiple as int);
    }
    if num % multiple == 0 {
        num
    } else {
        num + (multiple - num % multiple)
    }
}

/// Reads the eight-byte number at `at`.
pub fn read_u64(mem: &[u8], at: usize) -> (x: u64)
    requires
        at + 8 <= mem@.len(),
    ensures
        x == le_value(mem@.subrange(at as int, at + 8)),
{
    let mut x: u64 = 0;
    let mut left: usize = 8;
    proof {
        lemma_le_bounds();
        assert(mem@.subrange(at + 8, at + 8).len() == 0);
    }
    while left > 0
        invariant
            at + 8 <= mem.len(),
            0 <= left <= 8,
            x == le_value(mem@.subrange(at + left, at + 8)),
        decreases left,
    {
        let ghost tail = mem@.subrange(at + left, at + 8);
        left = left - 1;
        proof {
            let whole = mem@.subrange(at + left, at + 8);
            assert(whole.skip(1) =~= tail);
            lemma_le_value(whole);
            lemma_le_width(whole.len(), 8);
            lemma_le_bounds();
        }
        x = x * 256 + mem[at + left] as u64;
    }
    x
}

/// Reads the four-byte number at `at`.
pub fn read_u32(mem: &[u8], at: usize) -> (x: u32)
    requires
        at + 4 <= mem@.len(),
    ensures
        x == le_value(mem@.subrange(at as int, at + 4)),
{
    let mut x: u32 = 0;
    let mut left: usize = 4;
    proof {
        assert(mem@.subrange(at + 4, at + 4).len() == 0);
    }
    while left > 0
        invariant
            at + 4 <= mem.len(),
            0 <= left <= 4,
            x == le_value(mem@.subrange(at + left, at + 4)),
        decreases left,
    {
        let ghost tail = mem@.subrange(at + left, at + 4);
        left = left - 1;
        proof {
            let whole = mem@.subrange(at + left, at + 4);
            assert(whole.skip(1) =~= tail);
            lemma_le_value(whole);
            lemma_le_width(whole.len(), 4);
            lemma_le_bounds();
        }
        x = x * 256 + mem[at + left] as u32;
    }
    x
}

proof fn lemma_le_width(a: nat, b: nat)
    requires
        a <= b,
    ensures
        0 < le_bound(a) <= le_bound(b),
    decreases b,
{
    if a < b {
        lemma_le_width(a, (b - 1) as nat);
    } else if a > 0 {
        lemma_le_width((a - 1) as nat, (a - 1) as nat);
    }
}

/// Appends the `width` lowest bytes of `x` to `out`.
pub fn push_le(out: &mut Vec<u8>, x: u64, width: usize)
    ensures
        final(out)@ == old(out)@ + le_bytes(x as nat, width as nat),
{
    let mut rest: u64 = x;
    let mut left: usize = width;
    proof {
        assert(old(out)@ + le_bytes(x as nat, width as nat) =~= out@ + le_bytes(
            rest as nat,
            left as nat,
        ));
    }
    while left > 0
        invariant
            old(out)@ + le_bytes(x as nat, width as nat) == out@ + le_bytes(
                rest as nat,
                left as nat,
            ),
        decreases left,
    {
        let ghost before = out@;
        let low: u8 = (rest % 256) as u8;
        out.push(low);
        proof {
            assert(before + le_bytes(rest as nat, left as nat) =~= out@ + le_bytes(
                (rest / 256) as nat,
                (left - 1) as nat,
            ));
        }
        rest = rest / 256;
        left = left - 1;
    }
    assert(out@ + le_bytes(rest as nat, 0) =~= out@);
}

/// Copies `bytes` into `mem`, from `at` on.
pub fn write_bytes(mem: &mut Vec<u8>, at: usize, bytes: &[u8])
    requires
        at + bytes@.len() <= old(mem)@.len(),
    ensures
        final(mem)@ == overwrite(old(mem)@, at as int, bytes@),
{
    let mut i: usize = 0;
    assert(mem@ =~= overwrite(old(mem)@, at as int, bytes@.take(0)));
    while i < bytes.len()
        invariant
            at + bytes@.len() <= mem.len(),
            mem.len() == old(mem)@.len(),
            0 <= i <= bytes@.len(),
            mem@ == overwrite(old(mem)@, at as int, bytes@.take(i as int)),
        decreases bytes@.len() - i,
    {
        mem.set(at + i, bytes[i]);
        i = i + 1;
        assert(mem@ =~= overwrite(old(mem)@, at as int, bytes@.take(i as int)));
    }
    assert(bytes@.take(i as int) =~= bytes@);
}

/// Moves the `count` bytes at `src` down to `dst`.
pub fn move_down(mem: &mut Vec<u8>, dst: usize, src: usize, count: usize)
    requires
        dst <= src,
        src + count <= old(mem)@.len(),
    ensures
        final(mem)@ == slide(old(mem)@, dst as int, src as int, count as int),
{
    let mut i: usize = 0;
    assert(mem@ =~= slide(old(mem)@, dst as int, src as int, 0));
    while i < count
        invariant
            dst <= src,
            src + count <= mem.len(),
            mem.len() == old(mem)@.len(),
            0 <= i <= count,
            mem@ == slide(old(mem)@, dst as int, src as int, i as int),
        decreases count - i,
    {
        let byte: u8 = mem[src + i];
        mem.set(dst + i, byte);
        i = i + 1;
        assert(mem@ =~= slide(old(mem)@, dst as int, src as int, i as int));
    }
}

/// What is rounded up is the smallest multiple that is not below.
pub proof fn law_round_up(num: int, multiple: int, other: int)
    requires
        0 <= num,
        0 < multiple,
    ensures
        num <= round_up(num, multiple) < num + multiple,
        round_up(num, multiple) % multiple == 0,
        num <= other && other % multiple == 0 ==> round_up(num, multiple) <= other,
{
    lemma_round_up(num, multiple);
}

/// A number is spelt by its digits to the base 256, the lowest first, and is
/// read back from them.
pub proof fn law_le(x: nat, width: nat, bytes: Seq<u8>)
    ensures
        le_bytes(x, width).len() == width,
        width > 0 ==> le_bytes(x, width)[0] == x % 256,
        width > 0 ==> le_bytes(x, width).skip(1) == le_bytes(x / 256, (width - 1) as nat),
        width == 8 && x <= u64::MAX ==> le_value(le_bytes(x, width)) == x,
        width == 4 && x <= u32::MAX ==> le_value(le_bytes(x, width)) == x,
        bytes.len() == 0 ==> le_value(bytes) == 0,
        bytes.len() > 0 ==> le_value(bytes) == bytes[0] + 256 * le_value(bytes.skip(1)),
        le_bytes(le_value(bytes), bytes.len()) == bytes,
{
    lemma_le_bytes(x, width);
    lemma_le_bounds();
    lemma_le_value(bytes);
    if width > 0 {
        lemma_le_bytes(x / 256, (width - 1) as nat);
        assert(le_bytes(x, width).skip(1) =~= le_bytes(x / 256, (width - 1) as nat));
    }
}

/// Writing changes the bytes that are written over, and moving those that are
/// moved to, and no others.
pub proof fn law_write_and_move(mem: Seq<u8>, at: int, bytes: Seq<u8>, src: int, count: int, i: int)
    requires
        0 <= at <= src,
        0 <= count,
        src + count <= mem.len(),
        at + bytes.len() <= mem.len(),
        0 <= i < mem.len(),
    ensures
        overwrite(mem, at, bytes).len() == mem.len(),
        at <= i < at + bytes.len() ==> overwrite(mem, at, bytes)[i] == bytes[i - at],
        !(at <= i < at + bytes.len()) ==> overwrite(mem, at, bytes)[i] == mem[i],
        slide(mem, at, src, count).len() == mem.len(),
        at <= i < at + count ==> slide(mem, at, src, count)[i] == mem[i - at + src],
        !(at <= i < at + count) ==> slide(mem, at, src, count)[i] == mem[i],
{
}

/// What four bytes spell.
pub(crate) proof fn lemma_le_four(b: Seq<u8>)
    requires
        b.len() == 4,
    ensures
        le_value(b) == b[0] + 0x100 * b[1] + 0x1_0000 * b[2] + 0x100_0000 * b[3],
{
    reveal_with_fuel(le_value, 5);
    assert(b.skip(1).skip(1).skip(1).skip(1).len() == 0);
}

} // verus!
