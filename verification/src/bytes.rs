//! Little-endian integers and zero-terminated names inside page buffers.

use vstd::prelude::*;

verus! {

/// The 32-bit little-endian integer that starts at offset `at` of `s`.
pub open spec fn le_u32(s: Seq<u8>, at: int) -> int {
    s[at] as int + 0x100 * s[at + 1] as int + 0x1_0000 * s[at + 2] as int + 0x100_0000 * s[at
        + 3] as int
}

/// The 64-bit little-endian integer that starts at offset `at` of `s`.
pub open spec fn le_u64(s: Seq<u8>, at: int) -> int {
    le_u32(s, at) + 0x1_0000_0000 * le_u32(s, at + 4)
}

/// Byte `k` of the little-endian form of `x`.
pub open spec fn le_byte(x: int, k: int) -> u8 {
    if k == 0 {
        (x % 0x100) as u8
    } else if k == 1 {
        ((x / 0x100) % 0x100) as u8
    } else if k == 2 {
        ((x / 0x1_0000) % 0x100) as u8
    } else if k == 3 {
        ((x / 0x100_0000) % 0x100) as u8
    } else if k == 4 {
        ((x / 0x1_0000_0000) % 0x100) as u8
    } else if k == 5 {
        ((x / 0x100_0000_0000) % 0x100) as u8
    } else if k == 6 {
        ((x / 0x1_0000_0000_0000) % 0x100) as u8
    } else {
        ((x / 0x100_0000_0000_0000) % 0x100) as u8
    }
}

/// Reads a 32-bit little-endian integer at offset `at`.
pub fn read_le_u32(buf: &Vec<u8>, at: usize) -> (r: u32)
    requires
        at + 4 <= buf.len(),
    ensures
        r == le_u32(buf@, at as int),
{
    let b0: u32 = buf[at] as u32;
    let b1: u32 = buf[at + 1] as u32;
    let b2: u32 = buf[at + 2] as u32;
    let b3: u32 = buf[at + 3] as u32;
    b0 + 0x100 * b1 + 0x1_0000 * b2 + 0x100_0000 * b3
}

/// Reads a 64-bit little-endian integer at offset `at`.
pub fn read_le_u64(buf: &Vec<u8>, at: usize) -> (r: u64)
    requires
        at + 8 <= buf.len(),
    ensures
        r == le_u64(buf@, at as int),
{
    let lo: u64 = read_le_u32(buf, at) as u64;
    let hi: u64 = read_le_u32(buf, at + 4) as u64;
    lo + 0x1_0000_0000 * hi
}

/// Writes `x` as a 32-bit little-endian integer at offset `at`.
pub fn write_le_u32(buf: &mut Vec<u8>, at: usize, x: u32)
    requires
        at + 4 <= old(buf).len(),
    ensures
        final(buf)@.len() == old(buf)@.len(),
        forall|i: int|
            0 <= i < old(buf)@.len() && !(at <= i < at + 4) ==> final(buf)@[i] == old(buf)@[i],
        forall|k: int| 0 <= k < 4 ==> final(buf)@[at + k] == le_byte(x as int, k),
        le_u32(final(buf)@, at as int) == x,
{
    buf.set(at, (x % 0x100) as u8);
    buf.set(at + 1, ((x / 0x100) % 0x100) as u8);
    buf.set(at + 2, ((x / 0x1_0000) % 0x100) as u8);
    buf.set(at + 3, ((x / 0x100_0000) % 0x100) as u8);
}

/// Writes `x` as a 64-bit little-endian integer at offset `at`.
pub fn write_le_u64(buf: &mut Vec<u8>, at: usize, x: u64)
    requires
        at + 8 <= old(buf).len(),
    ensures
        final(buf)@.len() == old(buf)@.len(),
        forall|i: int|
            0 <= i < old(buf)@.len() && !(at <= i < at + 8) ==> final(buf)@[i] == old(buf)@[i],
        le_u64(final(buf)@, at as int) == x,
{
    write_le_u32(buf, at, (x % 0x1_0000_0000) as u32);
    write_le_u32(buf, at + 4, (x / 0x1_0000_0000) as u32);
}

/// Length of the zero-terminated name at the head of `s`: the number of
/// bytes before the first zero, or all of `s` where it holds none.
pub open spec fn cstr_len(s: Seq<u8>) -> nat
    decreases s.len(),
{
    if s.len() == 0 || s[0] == 0 {
        0
    } else {
        1 + cstr_len(s.drop_first())
    }
}

/// The name at the head of `s`, without its terminator.
pub open spec fn cstr_bytes(s: Seq<u8>) -> Seq<u8> {
    s.subrange(0, cstr_len(s) as int)
}

/// `cstr_len` is the one position up to which no byte is zero and at which
/// the sequence ends or holds a zero.
pub proof fn lemma_cstr_len(s: Seq<u8>, n: int)
    requires
        0 <= n <= s.len(),
        forall|j: int| 0 <= j < n ==> s[j] != 0,
        n < s.len() ==> s[n] == 0,
    ensures
        cstr_len(s) == n,
    decreases s.len(),
{
    if n > 0 {
        let t = s.drop_first();
        assert forall|j: int| 0 <= j < n - 1 implies t[j] != 0 by {
            assert(t[j] == s[j + 1]);
        }
        lemma_cstr_len(t, n - 1);
    }
}

/// Copies the name at the head of `buf[at..at + width]` out of the buffer.
pub fn read_cstr(buf: &Vec<u8>, at: usize, width: usize) -> (name: Vec<u8>)
    requires
        at + width <= buf.len(),
    ensures
        name@ == cstr_bytes(buf@.subrange(at as int, at + width)),
{
    let ghost field = buf@.subrange(at as int, at + width);
    let mut name: Vec<u8> = Vec::new();
    let mut i: usize = 0;
    while i < width && buf[at + i] != 0
        invariant
            i <= width,
            at + width <= buf.len(),
            field == buf@.subrange(at as int, at + width),
            name@ == field.subrange(0, i as int),
            forall|j: int| 0 <= j < i ==> field[j] != 0,
        decreases width - i,
    {
        name.push(buf[at + i]);
        i += 1;
        assert(name@ =~= field.subrange(0, i as int));
    }
    proof {
        lemma_cstr_len(field, i as int);
    }
    name
}

/// Writes `name`, which holds no zero byte and is shorter than `width`,
/// into `buf[at..at + width]` and pads it with zeros; `read_cstr` reads it
/// back.
pub fn write_name(buf: &mut Vec<u8>, at: usize, width: usize, name: &Vec<u8>)
    requires
        at + width <= old(buf).len(),
        name@.len() < width,
        forall|i: int| 0 <= i < name@.len() ==> name@[i] != 0,
    ensures
        final(buf)@.len() == old(buf)@.len(),
        forall|i: int|
            0 <= i < old(buf)@.len() && !(at <= i < at + width) ==> final(buf)@[i] == old(buf)@[i],
        cstr_bytes(final(buf)@.subrange(at as int, at + width)) == name@,
{
    let n = name.len();
    let mut i: usize = 0;
    while i < width
        invariant
            i <= width,
            n == name@.len(),
            n < width,
            at + width <= buf.len(),
            buf@.len() == old(buf)@.len(),
            forall|j: int|
                0 <= j < old(buf)@.len() && !(at <= j < at + i) ==> buf@[j] == old(buf)@[j],
            forall|j: int| at <= j < at + i && j < at + n ==> #[trigger] buf@[j] == name@[j - at],
            forall|j: int| at + n <= j < at + i ==> #[trigger] buf@[j] == 0,
        decreases width - i,
    {
        let b: u8 = if i < n { name[i] } else { 0 };
        buf.set(at + i, b);
        i += 1;
    }
    proof {
        let field = buf@.subrange(at as int, at + width);
        assert forall|j: int| 0 <= j < n implies field[j] != 0 by {
            assert(field[j] == buf@[at + j]);
        }
        assert(field[n as int] == buf@[at + n]);
        lemma_cstr_len(field, n as int);
        assert(cstr_bytes(field) =~= name@);
    }
}

/// Whether two byte vectors hold the same bytes.
pub fn bytes_equal(a: &Vec<u8>, b: &Vec<u8>) -> (r: bool)
    ensures
        r == (a@ == b@),
{
    if a.len() != b.len() {
        return false;
    }
    let mut i: usize = 0;
    while i < a.len()
        invariant
            i <= a@.len(),
            a@.len() == b@.len(),
            forall|j: int| 0 <= j < i ==> a@[j] == b@[j],
        decreases a@.len() - i,
    {
        if a[i] != b[i] {
            return false;
        }
        i += 1;
    }
    assert(a@ =~= b@);
    true
}

/// A copy of a byte vector.
pub fn copy_bytes(a: &Vec<u8>) -> (r: Vec<u8>)
    ensures
        r@ == a@,
{
    let mut r: Vec<u8> = Vec::new();
    let mut i: usize = 0;
    while i < a.len()
        invariant
            i <= a@.len(),
            r@ == a@.subrange(0, i as int),
        decreases a@.len() - i,
    {
        r.push(a[i]);
        i += 1;
        assert(r@ =~= a@.subrange(0, i as int));
    }
    assert(r@ =~= a@);
    r
}

} // verus!
