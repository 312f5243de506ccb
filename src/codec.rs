use vstd::prelude::*;
use vstd::string::StringSliceAdditionalSpecFns;
use vstd::utf8::{decode_utf8, valid_utf8};

verus! {

/// `128` raised to `n`.
pub open spec fn pow128(n: nat) -> nat
    decreases n,
{
    if n == 0 {
        1
    } else {
        128 * pow128((n - 1) as nat)
    }
}

/// The variable-length encoding of `v`: seven bits a byte, least significant
/// group first, `0x80` set on every byte but the last.
pub open spec fn var_bytes(v: nat) -> Seq<u8>
    decreases v,
{
    if v < 128 {
        seq![v as u8]
    } else {
        seq![(v % 128 + 128) as u8] + var_bytes(v / 128)
    }
}

/// The VarInt encoding of `v`: that of its bits read as unsigned.
pub open spec fn varint_bytes(v: i32) -> Seq<u8> {
    var_bytes(v as u32 as nat)
}

/// The VarLong encoding of `v`: that of its bits read as unsigned.
pub open spec fn varlong_bytes(v: i64) -> Seq<u8> {
    var_bytes(v as u64 as nat)
}

/// The value of the first `n` seven-bit groups of `s`.
pub open spec fn groups(s: Seq<u8>, n: nat) -> nat
    decreases n,
{
    if n == 0 {
        0
    } else {
        groups(s, (n - 1) as nat) + (s[n - 1] % 128) as nat * pow128((n - 1) as nat)
    }
}

/// Whether the first `max` bytes of `s` all carry the continuation bit.
pub open spec fn too_long(s: Seq<u8>, max: nat) -> bool {
    &&& s.len() >= max
    &&& forall|j: int| 0 <= j < max ==> s[j] >= 128
}

/// The most groups a VarInt may have.
pub const VARINT_MAX_GROUPS: usize = 5;

/// The most groups a VarLong may have.
pub const VARLONG_MAX_GROUPS: usize = 10;

/// Why a read failed.
#[derive(Debug, PartialEq, Eq, Structural, Clone, Copy)]
pub enum PacketDecodeError {
    /// The bytes ran out.
    Io,
    /// A string was not UTF-8.
    FromUtf8,
    /// A structured blob was malformed.
    Nbt,
    /// A variable-length integer went on past its most groups.
    VarIntTooBig,
}

/// The low seven bits, the rest, and the byte with the continuation bit, in arithmetic.
proof fn lemma_var_byte(v: u64)
    ensures
        (v & 0x7F) as nat == v as nat % 128,
        (v >> 7) as nat == v as nat / 128,
        v >> 7 != 0 <==> v >= 128,
        ((v & 0x7F) as u8 | 0x80u8) as nat == v as nat % 128 + 128,
        (v & 0x7F) < 128,
{
    assert((v & 0x7F) == v % 128) by (bit_vector);
    assert((v >> 7) == v / 128) by (bit_vector);
    assert(((v & 0x7F) as u8 | 0x80u8) == (v & 0x7F) as u8 + 128u8) by (bit_vector);
    assert((v & 0x7F) < 128) by (bit_vector);
}

/// Every byte of an encoding but the last carries the continuation bit, the
/// last does not, and the last is zero only for the value zero: no encoding
/// is longer than it needs to be.
pub proof fn lemma_var_bytes_shape(v: nat)
    ensures
        var_bytes(v).len() >= 1,
        forall|i: int| 0 <= i < var_bytes(v).len() - 1 ==> #[trigger] var_bytes(v)[i] >= 128,
        var_bytes(v)[var_bytes(v).len() - 1] < 128,
        var_bytes(v)[var_bytes(v).len() - 1] == 0 ==> v == 0,
    decreases v,
{
    if v >= 128 {
        lemma_var_bytes_shape(v / 128);
        let t = var_bytes(v / 128);
        let b = (v % 128 + 128) as u8;
        assert(var_bytes(v) == seq![b] + t);
        assert forall|i: int| 0 <= i < var_bytes(v).len() - 1 implies #[trigger] var_bytes(v)[i] >= 128 by {
            if i > 0 {
                assert(var_bytes(v)[i] == t[i - 1]);
            }
        }
    }
}

/// The encoding of `v` has at most `n` bytes when `v < 128^n`.
proof fn lemma_var_bytes_len(v: nat, n: nat)
    requires
        n >= 1,
        v < pow128(n),
    ensures
        var_bytes(v).len() <= n,
        var_bytes(v).len() >= 1,
    decreases v,
{
    if v >= 128 {
        assert(pow128(n) == 128 * pow128((n - 1) as nat));
        if n == 1 {
            assert(pow128(0) == 1);
        } else {
            lemma_var_bytes_len(v / 128, (n - 1) as nat);
        }
    }
}

/// Five groups cover 35 bits; ten groups cover 64.
proof fn lemma_pow128_2_32()
    ensures
        pow128(5) == 0x8_0000_0000,
        pow128(10) >= 0x1_0000_0000_0000_0000,
{
    reveal_with_fuel(pow128, 11);
}

/// Appends the encoding of `v` to `buf`.
fn push_var(buf: &mut Vec<u8>, v: u64)
    ensures
        final(buf)@ == old(buf)@ + var_bytes(v as nat),
{
    let ghost target = old(buf)@ + var_bytes(v as nat);
    let mut w = v;
    loop
        invariant
            buf@ + var_bytes(w as nat) == target,
            target == old(buf)@ + var_bytes(v as nat),
        decreases w,
    {
        proof {
            lemma_var_byte(w);
        }
        let low = (w & 0x7F) as u8;
        let next = w >> 7;
        let ghost prev = buf@;
        if next == 0 {
            buf.push(low);
            proof {
                assert(buf@ =~= prev + var_bytes(w as nat));
            }
            return;
        }
        buf.push(low | 0x80);
        proof {
            assert(var_bytes(w as nat) == seq![(low | 0x80) as u8] + var_bytes(next as nat));
            assert(buf@ + var_bytes(next as nat) =~= prev + var_bytes(w as nat));
        }
        w = next;
    }
}

/// Scans `t` from `i` for the byte that ends a variable-length integer of at
/// most `max` groups: its length, or why there is none.
pub open spec fn scan(t: Seq<u8>, i: nat, max: nat) -> Result<nat, PacketDecodeError>
    decreases max - i,
{
    if i >= max {
        Err(PacketDecodeError::VarIntTooBig)
    } else if i >= t.len() {
        Err(PacketDecodeError::Io)
    } else if t[i as int] < 128 {
        Ok(i + 1)
    } else {
        scan(t, i + 1, max)
    }
}

/// The VarInt at the front of `t` and its length: the low 32 bits of its groups.
pub open spec fn varint_read(t: Seq<u8>) -> Result<(i32, nat), PacketDecodeError> {
    match scan(t, 0, 5) {
        Ok(n) => Ok(((groups(t, n) % 0x1_0000_0000) as u32 as i32, n)),
        Err(e) => Err(e),
    }
}

/// The VarLong at the front of `t` and its length: the low 64 bits of its groups.
pub open spec fn varlong_read(t: Seq<u8>) -> Result<(i64, nat), PacketDecodeError> {
    match scan(t, 0, 10) {
        Ok(n) => Ok(((groups(t, n) % 0x1_0000_0000_0000_0000) as u64 as i64, n)),
        Err(e) => Err(e),
    }
}

/// The value of `n` groups is below `128^n`.
proof fn lemma_groups_bound(s: Seq<u8>, n: nat)
    ensures
        groups(s, n) < pow128(n),
    decreases n,
{
    if n > 0 {
        lemma_groups_bound(s, (n - 1) as nat);
        let g = groups(s, (n - 1) as nat);
        let p = pow128((n - 1) as nat);
        let b = (s[n - 1] % 128) as nat;
        assert(g + b * p < 128 * p) by (nonlinear_arith)
            requires
                g < p,
                b < 128,
        ;
    }
}

/// The first group counts once.
proof fn lemma_times_pow128_0(x: nat)
    ensures
        x * pow128(0) == x,
{
    assert(pow128(0) == 1);
    assert(x * pow128(0) == x) by (nonlinear_arith)
        requires
            pow128(0) == 1,
    ;
}

/// The groups behind a leading byte are worth 128 times as much.
proof fn lemma_groups_cons(b: u8, s: Seq<u8>, n: nat)
    requires
        n <= s.len(),
    ensures
        groups(seq![b] + s, n + 1) == (b % 128) as nat + 128 * groups(s, n),
    decreases n,
{
    let c = seq![b] + s;
    if n == 0 {
        assert(c[0] == b);
        lemma_times_pow128_0((b % 128) as nat);
        assert(groups(c, 1) == groups(c, 0) + (c[0] % 128) as nat * pow128(0));
    } else {
        lemma_groups_cons(b, s, (n - 1) as nat);
        assert(c[n as int] == s[n - 1]);
        let g = groups(s, (n - 1) as nat);
        let p = pow128((n - 1) as nat);
        let d = (s[n - 1] % 128) as nat;
        assert(pow128(n) == 128 * p);
        assert(groups(c, n + 1) == groups(c, n) + d * pow128(n));
        assert(groups(s, n) == g + d * p);
        assert(groups(c, n) == (b % 128) as nat + 128 * g);
        assert((b % 128) as nat + 128 * g + d * (128 * p) == (b % 128) as nat + 128 * (g + d
            * p)) by (nonlinear_arith);
    }
}

/// A scan that ends does so past where it started and within the bytes.
proof fn lemma_scan_len(t: Seq<u8>, i: nat, max: nat)
    ensures
        scan(t, i, max) matches Ok(n) ==> i < n <= t.len(),
    decreases max - i,
{
    if i < max && i < t.len() && t[i as int] >= 128 {
        lemma_scan_len(t, i + 1, max);
    }
}

/// A scan passes over bytes that carry the continuation bit.
proof fn lemma_scan_skip(t: Seq<u8>, i: nat, max: nat)
    requires
        i <= max,
        i <= t.len(),
        forall|j: int| 0 <= j < i ==> t[j] >= 128,
    ensures
        scan(t, 0, max) == scan(t, i, max),
    decreases i,
{
    if i > 0 {
        lemma_scan_skip(t, (i - 1) as nat, max);
    }
}

/// A scan behind a leading continuation byte ends one byte later.
proof fn lemma_scan_cons(b: u8, s: Seq<u8>, i: nat, max: nat)
    requires
        b >= 128,
    ensures
        scan(seq![b] + s, i + 1, max + 1) == match scan(s, i, max) {
            Ok(n) => Ok(n + 1),
            Err(e) => Err(e),
        },
    decreases max - i,
{
    let c = seq![b] + s;
    if i < max && i < s.len() {
        assert(c[i + 1int] == s[i as int]);
        if s[i as int] >= 128 {
            lemma_scan_cons(b, s, i + 1, max);
        }
    }
}

/// The encoding of `v`, then anything, scans to the encoding's end and holds `v`.
proof fn lemma_var_decode(v: nat, rest: Seq<u8>, max: nat)
    requires
        v < pow128(max),
        max >= 1,
    ensures
        scan(var_bytes(v) + rest, 0, max) == Ok::<nat, PacketDecodeError>(var_bytes(v).len()),
        groups(var_bytes(v) + rest, var_bytes(v).len()) == v,
    decreases v,
{
    let s = var_bytes(v) + rest;
    if v < 128 {
        assert(s[0] == v as u8);
        lemma_times_pow128_0(v);
        assert(groups(s, 1) == groups(s, 0) + (s[0] % 128) as nat * pow128(0));
    } else {
        let b = (v % 128 + 128) as u8;
        let tail = var_bytes(v / 128) + rest;
        assert(s =~= seq![b] + tail);
        let m = (max - 1) as nat;
        assert(pow128(max) == 128 * pow128(m));
        assert(m >= 1) by {
            if m == 0 {
                assert(pow128(0) == 1);
            }
        }
        lemma_var_decode(v / 128, rest, m);
        lemma_scan_cons(b, tail, 0, m);
        assert(scan(s, 0, max) == scan(s, 1, max));
        lemma_groups_cons(b, tail, var_bytes(v / 128).len());
    }
}

/// Decoding the VarInt encoding of any `i32`, followed by anything, gives back
/// the value and the length of the encoding, which is at most five bytes.
pub proof fn lemma_varint_round_trip(v: i32, rest: Seq<u8>)
    ensures
        varint_read(varint_bytes(v) + rest) == Ok::<(i32, nat), PacketDecodeError>(
            (v, varint_bytes(v).len()),
        ),
        varint_bytes(v).len() <= 5,
{
    lemma_pow128_2_32();
    let u = v as u32;
    lemma_var_decode(u as nat, rest, 5);
    lemma_var_bytes_len(u as nat, 5);
    assert(u as i32 == v) by (bit_vector)
        requires
            u == v as u32,
    ;
}

/// Decoding the VarLong encoding of any `i64`, followed by anything, gives back
/// the value and the length of the encoding, which is at most ten bytes.
pub proof fn lemma_varlong_round_trip(v: i64, rest: Seq<u8>)
    ensures
        varlong_read(varlong_bytes(v) + rest) == Ok::<(i64, nat), PacketDecodeError>(
            (v, varlong_bytes(v).len()),
        ),
        varlong_bytes(v).len() <= 10,
{
    lemma_pow128_2_32();
    let u = v as u64;
    lemma_var_decode(u as nat, rest, 10);
    lemma_var_bytes_len(u as nat, 10);
    assert(u as i64 == v) by (bit_vector)
        requires
            u == v as u64,
    ;
}

/// A VarInt whose first five bytes all carry the continuation bit is refused.
pub proof fn lemma_varint_too_long(t: Seq<u8>)
    requires
        too_long(t, 5),
    ensures
        varint_read(t) == Err::<(i32, nat), PacketDecodeError>(PacketDecodeError::VarIntTooBig),
{
    lemma_scan_skip(t, 5, 5);
}

/// Reads the groups of a variable-length integer of at most `max` groups at
/// `pos`: their value and the position after them.
fn read_var(buf: &[u8], pos: usize, max: usize) -> (r: Result<(u128, usize), PacketDecodeError>)
    requires
        pos <= buf@.len(),
        1 <= max <= 10,
    ensures
        match r {
            Ok((v, p)) => {
                &&& pos <= p
                &&& scan(buf@.subrange(pos as int, buf@.len() as int), 0, max as nat) == Ok::<
                    nat,
                    PacketDecodeError,
                >((p - pos) as nat)
                &&& v as nat == groups(buf@.subrange(pos as int, buf@.len() as int), (p - pos) as nat)
            },
            Err(e) => scan(buf@.subrange(pos as int, buf@.len() as int), 0, max as nat) == Err::<
                nat,
                PacketDecodeError,
            >(e),
        },
{
    let ghost t = buf@.subrange(pos as int, buf@.len() as int);
    proof {
        lemma_pow128_2_32();
        reveal_with_fuel(pow128, 11);
    }
    let mut i: usize = 0;
    let mut acc: u128 = 0;
    let mut mult: u128 = 1;
    while i < max
        invariant
            t == buf@.subrange(pos as int, buf@.len() as int),
            pos <= buf@.len(),
            1 <= max <= 10,
            i <= max,
            i <= t.len(),
            forall|j: int| 0 <= j < i ==> t[j] >= 128,
            acc == groups(t, i as nat),
            mult == pow128(i as nat),
            pow128(i as nat) <= pow128(10),
            pow128(10) < 0x1_0000_0000_0000_0000_0000,
        decreases max - i,
    {
        proof {
            lemma_scan_skip(t, i as nat, max as nat);
            lemma_groups_bound(t, i as nat);
        }
        if i >= buf.len() - pos {
            return Err(PacketDecodeError::Io);
        }
        let b = buf[pos + i];
        assert(t[i as int] == b);
        proof {
            assert(acc + (b % 128) as nat * mult < 128 * mult) by (nonlinear_arith)
                requires
                    acc < mult,
                    b % 128 < 128,
            ;
            reveal_with_fuel(pow128, 2);
            if i + 1 <= 10 {
                lemma_pow128_monotone((i + 1) as nat, 10);
            }
        }
        acc = acc + (b % 128) as u128 * mult;
        if b < 128 {
            return Ok((acc, pos + i + 1));
        }
        mult = mult * 128;
        i = i + 1;
    }
    proof {
        lemma_scan_skip(t, i as nat, max as nat);
    }
    Err(PacketDecodeError::VarIntTooBig)
}

/// Powers of 128 grow with the exponent.
proof fn lemma_pow128_monotone(a: nat, b: nat)
    requires
        a <= b,
    ensures
        pow128(a) <= pow128(b),
    decreases b,
{
    if a < b {
        lemma_pow128_monotone(a, (b - 1) as nat);
    }
}

/// Reads the VarInt at `pos`: its value and the position after it.
pub fn read_varint(buf: &[u8], pos: usize) -> (r: Result<(i32, usize), PacketDecodeError>)
    requires
        pos <= buf@.len(),
    ensures
        r == match varint_read(buf@.subrange(pos as int, buf@.len() as int)) {
            Ok((v, n)) => Ok((v, (pos + n) as usize)),
            Err(e) => Err(e),
        },
{
    match read_var(buf, pos, VARINT_MAX_GROUPS) {
        Ok((v, p)) => Ok(((v % 0x1_0000_0000) as u32 as i32, p)),
        Err(e) => Err(e),
    }
}

/// Reads the VarLong at `pos`: its value and the position after it.
pub fn read_varlong(buf: &[u8], pos: usize) -> (r: Result<(i64, usize), PacketDecodeError>)
    requires
        pos <= buf@.len(),
    ensures
        r == match varlong_read(buf@.subrange(pos as int, buf@.len() as int)) {
            Ok((v, n)) => Ok((v, (pos + n) as usize)),
            Err(e) => Err(e),
        },
{
    match read_var(buf, pos, VARLONG_MAX_GROUPS) {
        Ok((v, p)) => Ok(((v % 0x1_0000_0000_0000_0000) as u64 as i64, p)),
        Err(e) => Err(e),
    }
}

/// Appends the VarInt encoding of `val`.
pub fn write_varint(buf: &mut Vec<u8>, val: i32)
    ensures
        final(buf)@ == old(buf)@ + varint_bytes(val),
{
    push_var(buf, val as u32 as u64);
}

/// Appends the VarLong encoding of `val`.
pub fn write_varlong(buf: &mut Vec<u8>, val: i64)
    ensures
        final(buf)@ == old(buf)@ + varlong_bytes(val),
{
    push_var(buf, val as u64);
}

/// The eight bytes of `v`, most significant first.
pub open spec fn be64(v: u64) -> Seq<u8> {
    seq![
        (v >> 56u64) as u8,
        (v >> 48u64) as u8,
        (v >> 40u64) as u8,
        (v >> 32u64) as u8,
        (v >> 24u64) as u8,
        (v >> 16u64) as u8,
        (v >> 8u64) as u8,
        v as u8,
    ]
}

/// The four bytes of `v`, most significant first.
pub open spec fn be32(v: u32) -> Seq<u8> {
    seq![(v >> 24u32) as u8, (v >> 16u32) as u8, (v >> 8u32) as u8, v as u8]
}

/// The two bytes of `v`, most significant first.
pub open spec fn be16(v: u16) -> Seq<u8> {
    seq![(v >> 8u16) as u8, v as u8]
}

/// Appends `val` as eight big-endian bytes.
pub fn write_long(buf: &mut Vec<u8>, val: i64)
    ensures
        final(buf)@ == old(buf)@ + be64(val as u64),
{
    let u = val as u64;
    buf.push((u >> 56) as u8);
    buf.push((u >> 48) as u8);
    buf.push((u >> 40) as u8);
    buf.push((u >> 32) as u8);
    buf.push((u >> 24) as u8);
    buf.push((u >> 16) as u8);
    buf.push((u >> 8) as u8);
    buf.push(u as u8);
    assert(buf@ =~= old(buf)@ + be64(u));
}

/// Appends `val` as sixteen big-endian bytes: its high word, then its low word.
pub fn write_uuid(buf: &mut Vec<u8>, val: u128)
    ensures
        final(buf)@ == old(buf)@ + be64((val >> 64u128) as u64) + be64(val as u64),
{
    write_long(buf, ((val >> 64) as u64) as i64);
    write_long(buf, (val as u64) as i64);
    proof {
        let hi = (val >> 64u128) as u64;
        let lo = val as u64;
        assert((hi as i64) as u64 == hi) by (bit_vector);
        assert((lo as i64) as u64 == lo) by (bit_vector);
    }
}

/// Appends `val` as four big-endian bytes.
pub fn write_int(buf: &mut Vec<u8>, val: i32)
    ensures
        final(buf)@ == old(buf)@ + be32(val as u32),
{
    let u = val as u32;
    buf.push((u >> 24) as u8);
    buf.push((u >> 16) as u8);
    buf.push((u >> 8) as u8);
    buf.push(u as u8);
    assert(buf@ =~= old(buf)@ + be32(u));
}

/// Appends `val` as two big-endian bytes.
pub fn write_short(buf: &mut Vec<u8>, val: i16)
    ensures
        final(buf)@ == old(buf)@ + be16(val as u16),
{
    write_unsigned_short(buf, val as u16);
}

/// Appends `val` as two big-endian bytes.
pub fn write_unsigned_short(buf: &mut Vec<u8>, val: u16)
    ensures
        final(buf)@ == old(buf)@ + be16(val),
{
    buf.push((val >> 8) as u8);
    buf.push(val as u8);
    assert(buf@ =~= old(buf)@ + be16(val));
}

/// Appends the byte `val`.
pub fn write_unsigned_byte(buf: &mut Vec<u8>, val: u8)
    ensures
        final(buf)@ == old(buf)@.push(val),
{
    buf.push(val);
}

/// Appends the bits of `val` as one byte.
pub fn write_byte(buf: &mut Vec<u8>, val: i8)
    ensures
        final(buf)@ == old(buf)@.push(val as u8),
{
    buf.push(val as u8);
}

/// Appends `1` for true and `0` for false.
pub fn write_bool(buf: &mut Vec<u8>, val: bool)
    ensures
        final(buf)@ == old(buf)@.push(if val {
            1u8
        } else {
            0u8
        }),
{
    buf.push(if val {
        1u8
    } else {
        0u8
    });
}

/// Appends `val` as it is.
pub fn write_bytes(buf: &mut Vec<u8>, val: &[u8])
    ensures
        final(buf)@ == old(buf)@ + val@,
{
    let mut i: usize = 0;
    while i < val.len()
        invariant
            i <= val@.len(),
            buf@ == old(buf)@ + val@.subrange(0, i as int),
        decreases val@.len() - i,
    {
        buf.push(val[i]);
        i = i + 1;
        assert(buf@ =~= old(buf)@ + val@.subrange(0, i as int));
    }
    assert(val@.subrange(0, val@.len() as int) =~= val@);
}

/// Appends a string of at most `n` characters: the VarInt length of its UTF-8
/// bytes, then the bytes.
pub fn write_string(buf: &mut Vec<u8>, n: usize, val: &str)
    requires
        val.spec_bytes().len() <= 4 * n + 3,
        val.spec_bytes().len() <= i32::MAX,
    ensures
        final(buf)@ == old(buf)@ + varint_bytes(val.spec_bytes().len() as i32) + val.spec_bytes(),
{
    let bytes = val.as_bytes();
    write_varint(buf, bytes.len() as i32);
    write_bytes(buf, bytes);
}

/// The word that packs a position: `x` and `z` in 26 bits each, `y` in 12.
pub open spec fn position_word(x: i32, y: i32, z: i32) -> u64 {
    (((x as u64) & 0x3FF_FFFFu64) << 38u64) | (((z as u64) & 0x3FF_FFFFu64) << 12u64) | ((
    y as u64) & 0xFFFu64)
}

/// The `x` of a packed position: its top 26 bits, sign-extended.
pub open spec fn position_x(w: u64) -> i32 {
    ((w as i64) >> 38u64) as i32
}

/// The `y` of a packed position: its low 12 bits, sign-extended.
pub open spec fn position_y(w: u64) -> i32 {
    if (w & 0xFFFu64) >= 0x800 {
        ((w & 0xFFFu64) as i32 - 0x1000) as i32
    } else {
        (w & 0xFFFu64) as i32
    }
}

/// The `z` of a packed position: the 26 bits above `y`, sign-extended.
pub open spec fn position_z(w: u64) -> i32 {
    (((w << 26u64) as i64) >> 38u64) as i32
}

/// A position whose `x` and `z` fit in 26 signed bits and whose `y` fits in 12
/// unpacks to itself.
pub proof fn lemma_position_round_trip(x: i32, y: i32, z: i32)
    requires
        -0x200_0000 <= x < 0x200_0000,
        -0x800 <= y <= 0x7FF,
        -0x200_0000 <= z < 0x200_0000,
    ensures
        position_x(position_word(x, y, z)) == x,
        position_y(position_word(x, y, z)) == y,
        position_z(position_word(x, y, z)) == z,
{
    let w = position_word(x, y, z);
    assert((((w as i64) >> 38u64) as i32) == x) by (bit_vector)
        requires
            -0x200_0000 <= x < 0x200_0000,
            w == (((x as u64) & 0x3FF_FFFFu64) << 38u64) | (((z as u64) & 0x3FF_FFFFu64) << 12u64)
                | ((y as u64) & 0xFFFu64),
    ;
    assert(((((w << 26u64) as i64) >> 38u64) as i32) == z) by (bit_vector)
        requires
            -0x200_0000 <= z < 0x200_0000,
            w == (((x as u64) & 0x3FF_FFFFu64) << 38u64) | (((z as u64) & 0x3FF_FFFFu64) << 12u64)
                | ((y as u64) & 0xFFFu64),
    ;
    let low = w & 0xFFFu64;
    assert(low == (y as u64) & 0xFFFu64) by (bit_vector)
        requires
            w == (((x as u64) & 0x3FF_FFFFu64) << 38u64) | (((z as u64) & 0x3FF_FFFFu64) << 12u64)
                | ((y as u64) & 0xFFFu64),
            low == w & 0xFFFu64,
    ;
    assert(low < 0x800 ==> low as i32 == y) by (bit_vector)
        requires
            -0x800 <= y <= 0x7FF,
            low == (y as u64) & 0xFFFu64,
    ;
    assert(low >= 0x800 ==> low as i32 - 0x1000i32 == y) by (bit_vector)
        requires
            -0x800 <= y <= 0x7FF,
            low == (y as u64) & 0xFFFu64,
    ;
}

/// Appends the position `(x, y, z)` packed in one big-endian word.
pub fn write_position(buf: &mut Vec<u8>, x: i32, y: i32, z: i32)
    ensures
        final(buf)@ == old(buf)@ + be64(position_word(x, y, z)),
{
    let long = (((x as u64) & 0x3FF_FFFF) << 38) | (((z as u64) & 0x3FF_FFFF) << 12) | ((y as u64)
        & 0xFFF);
    write_long(buf, long as i64);
    assert((long as i64) as u64 == long) by (bit_vector);
}

/// The word whose big-endian bytes are the first eight of `s`.
pub open spec fn be64_value(s: Seq<u8>) -> u64 {
    ((s[0] as u64) << 56u64) | ((s[1] as u64) << 48u64) | ((s[2] as u64) << 40u64) | ((
    s[3] as u64) << 32u64) | ((s[4] as u64) << 24u64) | ((s[5] as u64) << 16u64) | ((s[6] as u64)
        << 8u64) | (s[7] as u64)
}

/// Reading the bytes of a word gives back the word.
pub proof fn lemma_be64_round_trip(v: u64, rest: Seq<u8>)
    ensures
        be64_value(be64(v) + rest) == v,
{
    let s = be64(v) + rest;
    let (b0, b1, b2, b3, b4, b5, b6, b7) = (s[0], s[1], s[2], s[3], s[4], s[5], s[6], s[7]);
    assert(((b0 as u64) << 56u64) | ((b1 as u64) << 48u64) | ((b2 as u64) << 40u64) | ((
    b3 as u64) << 32u64) | ((b4 as u64) << 24u64) | ((b5 as u64) << 16u64) | ((b6 as u64)
        << 8u64) | (b7 as u64) == v) by (bit_vector)
        requires
            b0 == (v >> 56u64) as u8,
            b1 == (v >> 48u64) as u8,
            b2 == (v >> 40u64) as u8,
            b3 == (v >> 32u64) as u8,
            b4 == (v >> 24u64) as u8,
            b5 == (v >> 16u64) as u8,
            b6 == (v >> 8u64) as u8,
            b7 == v as u8,
    ;
}

/// Reads the big-endian word at `pos`, or fails where fewer than eight bytes are left.
pub fn read_long(buf: &[u8], pos: usize) -> (r: Result<(i64, usize), PacketDecodeError>)
    requires
        pos <= buf@.len(),
    ensures
        buf@.len() - pos < 8 ==> r == Err::<(i64, usize), PacketDecodeError>(
            PacketDecodeError::Io,
        ),
        buf@.len() - pos >= 8 ==> r == Ok::<(i64, usize), PacketDecodeError>(
            (be64_value(buf@.subrange(pos as int, buf@.len() as int)) as i64, (pos + 8) as usize),
        ),
{
    if buf.len() - pos < 8 {
        return Err(PacketDecodeError::Io);
    }
    let ghost t = buf@.subrange(pos as int, buf@.len() as int);
    let w = ((buf[pos] as u64) << 56) | ((buf[pos + 1] as u64) << 48) | ((buf[pos + 2] as u64)
        << 40) | ((buf[pos + 3] as u64) << 32) | ((buf[pos + 4] as u64) << 24) | ((buf[pos
        + 5] as u64) << 16) | ((buf[pos + 6] as u64) << 8) | (buf[pos + 7] as u64);
    assert(w == be64_value(t));
    Ok((w as i64, pos + 8))
}

/// Reads the packed position at `pos`.
pub fn read_position(buf: &[u8], pos: usize) -> (r: Result<((i32, i32, i32), usize), PacketDecodeError>)
    requires
        pos <= buf@.len(),
    ensures
        buf@.len() - pos < 8 ==> r == Err::<((i32, i32, i32), usize), PacketDecodeError>(
            PacketDecodeError::Io,
        ),
        buf@.len() - pos >= 8 ==> {
            let w = be64_value(buf@.subrange(pos as int, buf@.len() as int));
            r == Ok::<((i32, i32, i32), usize), PacketDecodeError>(
                ((position_x(w), position_y(w), position_z(w)), (pos + 8) as usize),
            )
        },
{
    let (val, next) = match read_long(buf, pos) {
        Ok(v) => v,
        Err(e) => {
            return Err(e);
        },
    };
    let u = val as u64;
    assert(u == be64_value(buf@.subrange(pos as int, buf@.len() as int))) by {
        let w = be64_value(buf@.subrange(pos as int, buf@.len() as int));
        assert((w as i64) as u64 == w) by (bit_vector);
    }
    let x = ((u as i64) >> 38) as i32;
    let low = u & 0xFFF;
    assert(low <= 0xFFF) by (bit_vector)
        requires
            low == u & 0xFFF,
    ;
    let y = if low >= 0x800 {
        (low as i32) - 0x1000
    } else {
        low as i32
    };
    let z = (((u << 26) as i64) >> 38) as i32;
    Ok(((x, y, z), next))
}

/// The characters that `bytes` encode in UTF-8, or `None` where they are not UTF-8.
pub open spec fn utf8_decode(bytes: Seq<u8>) -> Option<Seq<char>> {
    if valid_utf8(bytes) {
        Some(decode_utf8(bytes))
    } else {
        None
    }
}

/// Relies on std's `String::from_utf8`: `Ok` exactly when the bytes are valid
/// UTF-8, with the string that they encode.
#[verifier::external_body]
fn string_from_utf8(bytes: Vec<u8>) -> (r: Option<String>)
    ensures
        match r {
            Some(s) => valid_utf8(bytes@) && s@ == decode_utf8(bytes@),
            None => !valid_utf8(bytes@),
        },
{
    String::from_utf8(bytes).ok()
}

/// The bytes of `buf` from `start`, `len` of them.
fn copy_bytes(buf: &[u8], start: usize, len: usize) -> (r: Vec<u8>)
    requires
        start + len <= buf@.len(),
    ensures
        r@ == buf@.subrange(start as int, start + len),
{
    let total = buf.len();
    let mut out: Vec<u8> = Vec::new();
    let mut i: usize = 0;
    while i < len
        invariant
            total == buf@.len(),
            start + len <= buf@.len(),
            i <= len,
            out@ == buf@.subrange(start as int, start + i),
        decreases len - i,
    {
        out.push(buf[start + i]);
        i = i + 1;
        assert(out@ =~= buf@.subrange(start as int, start + i));
    }
    out
}

/// Reads the string at `pos`: a VarInt byte length, then that many bytes of
/// UTF-8. A negative length or too few bytes is `Io`; bytes that are not
/// UTF-8 are `FromUtf8`.
pub fn read_string(buf: &[u8], pos: usize) -> (r: Result<(String, usize), PacketDecodeError>)
    requires
        pos <= buf@.len(),
    ensures
        match varint_read(buf@.subrange(pos as int, buf@.len() as int)) {
            Err(e) => r == Err::<(String, usize), PacketDecodeError>(e),
            Ok((len, n)) => {
                let start = pos + n;
                if len < 0 || start + len > buf@.len() {
                    r == Err::<(String, usize), PacketDecodeError>(PacketDecodeError::Io)
                } else {
                    match utf8_decode(buf@.subrange(start, start + len)) {
                        Some(chars) => r matches Ok((s, next)) && s@ == chars && next == start + len,
                        None => r == Err::<(String, usize), PacketDecodeError>(
                            PacketDecodeError::FromUtf8,
                        ),
                    }
                }
            },
        },
{
    proof {
        lemma_scan_len(buf@.subrange(pos as int, buf@.len() as int), 0, 5);
    }
    let (len, start) = match read_varint(buf, pos) {
        Ok(v) => v,
        Err(e) => {
            return Err(e);
        },
    };
    if len < 0 || len as usize > buf.len() - start {
        return Err(PacketDecodeError::Io);
    }
    let bytes = copy_bytes(buf, start, len as usize);
    match string_from_utf8(bytes) {
        Some(s) => Ok((s, start + len as usize)),
        None => Err(PacketDecodeError::FromUtf8),
    }
}

/// Reads the big-endian `i32` at `pos`, or fails where fewer than four bytes are left.
pub fn read_int(buf: &[u8], pos: usize) -> (r: Result<(i32, usize), PacketDecodeError>)
    requires
        pos <= buf@.len(),
    ensures
        buf@.len() - pos < 4 ==> r == Err::<(i32, usize), PacketDecodeError>(PacketDecodeError::Io),
        buf@.len() - pos >= 4 ==> r == Ok::<(i32, usize), PacketDecodeError>(
            (
                (((buf@[pos as int] as u32) << 24u32) | ((buf@[pos + 1] as u32) << 16u32) | ((buf@[pos
                    + 2] as u32) << 8u32) | (buf@[pos + 3] as u32)) as i32,
                (pos + 4) as usize,
            ),
        ),
{
    if buf.len() - pos < 4 {
        return Err(PacketDecodeError::Io);
    }
    let w = ((buf[pos] as u32) << 24) | ((buf[pos + 1] as u32) << 16) | ((buf[pos + 2] as u32) << 8)
        | (buf[pos + 3] as u32);
    Ok((w as i32, pos + 4))
}

/// Reads the big-endian `u16` at `pos`, or fails where fewer than two bytes are left.
pub fn read_unsigned_short(buf: &[u8], pos: usize) -> (r: Result<(u16, usize), PacketDecodeError>)
    requires
        pos <= buf@.len(),
    ensures
        buf@.len() - pos < 2 ==> r == Err::<(u16, usize), PacketDecodeError>(PacketDecodeError::Io),
        buf@.len() - pos >= 2 ==> r == Ok::<(u16, usize), PacketDecodeError>(
            ((((buf@[pos as int] as u16) << 8u16) | (buf@[pos + 1] as u16)) as u16, (pos + 2) as usize),
        ),
{
    if buf.len() - pos < 2 {
        return Err(PacketDecodeError::Io);
    }
    let w = ((buf[pos] as u16) << 8) | (buf[pos + 1] as u16);
    Ok((w, pos + 2))
}

/// Reads the big-endian `i16` at `pos`, or fails where fewer than two bytes are left.
pub fn read_short(buf: &[u8], pos: usize) -> (r: Result<(i16, usize), PacketDecodeError>)
    requires
        pos <= buf@.len(),
    ensures
        buf@.len() - pos < 2 ==> r == Err::<(i16, usize), PacketDecodeError>(PacketDecodeError::Io),
        buf@.len() - pos >= 2 ==> r == Ok::<(i16, usize), PacketDecodeError>(
            ((((buf@[pos as int] as u16) << 8u16) | (buf@[pos + 1] as u16)) as i16, (pos + 2) as usize),
        ),
{
    match read_unsigned_short(buf, pos) {
        Ok((w, next)) => Ok((w as i16, next)),
        Err(e) => Err(e),
    }
}

/// Reads the byte at `pos`, or fails at the end.
pub fn read_unsigned_byte(buf: &[u8], pos: usize) -> (r: Result<(u8, usize), PacketDecodeError>)
    requires
        pos <= buf@.len(),
    ensures
        pos == buf@.len() ==> r == Err::<(u8, usize), PacketDecodeError>(PacketDecodeError::Io),
        pos < buf@.len() ==> r == Ok::<(u8, usize), PacketDecodeError>(
            (buf@[pos as int], (pos + 1) as usize),
        ),
{
    if pos >= buf.len() {
        return Err(PacketDecodeError::Io);
    }
    Ok((buf[pos], pos + 1))
}

/// Reads the byte at `pos` as an `i8`, or fails at the end.
pub fn read_byte(buf: &[u8], pos: usize) -> (r: Result<(i8, usize), PacketDecodeError>)
    requires
        pos <= buf@.len(),
    ensures
        pos == buf@.len() ==> r == Err::<(i8, usize), PacketDecodeError>(PacketDecodeError::Io),
        pos < buf@.len() ==> r == Ok::<(i8, usize), PacketDecodeError>(
            (buf@[pos as int] as i8, (pos + 1) as usize),
        ),
{
    match read_unsigned_byte(buf, pos) {
        Ok((b, next)) => Ok((b as i8, next)),
        Err(e) => Err(e),
    }
}

/// Reads the byte at `pos` as a flag: true exactly when it is `1`.
pub fn read_bool(buf: &[u8], pos: usize) -> (r: Result<(bool, usize), PacketDecodeError>)
    requires
        pos <= buf@.len(),
    ensures
        pos == buf@.len() ==> r == Err::<(bool, usize), PacketDecodeError>(PacketDecodeError::Io),
        pos < buf@.len() ==> r == Ok::<(bool, usize), PacketDecodeError>(
            (buf@[pos as int] == 1, (pos + 1) as usize),
        ),
{
    match read_unsigned_byte(buf, pos) {
        Ok((b, next)) => Ok((b == 1, next)),
        Err(e) => Err(e),
    }
}

/// Reads `len` bytes at `pos`, or fails where fewer are left.
pub fn read_bytes(buf: &[u8], pos: usize, len: usize) -> (r: Result<(Vec<u8>, usize), PacketDecodeError>)
    requires
        pos <= buf@.len(),
    ensures
        len > buf@.len() - pos ==> r == Err::<(Vec<u8>, usize), PacketDecodeError>(
            PacketDecodeError::Io,
        ),
        len <= buf@.len() - pos ==> (r matches Ok((v, next)) && v@ == buf@.subrange(
            pos as int,
            pos + len,
        ) && next == pos + len),
{
    if len > buf.len() - pos {
        return Err(PacketDecodeError::Io);
    }
    Ok((copy_bytes(buf, pos, len), pos + len))
}

/// An item stack in a slot: its id, its count and the NBT encoding of its
/// data, if it has any.
#[derive(Debug, Clone)]
pub struct SlotData {
    pub item_id: i32,
    pub item_count: i8,
    pub nbt: Option<Vec<u8>>,
}

/// A slot on the wire: `false` for an empty slot; else `true`, the item id,
/// the count, then the NBT data or an end tag.
pub open spec fn slot_bytes(slot: Option<SlotData>) -> Seq<u8> {
    match slot {
        Some(s) => seq![1u8] + varint_bytes(s.item_id) + seq![s.item_count as u8] + match s.nbt {
            Some(n) => n@,
            None => seq![0u8],
        },
        None => seq![0u8],
    }
}

/// Appends the slot `slot_data`.
pub fn write_slot_data(buf: &mut Vec<u8>, slot_data: &Option<SlotData>)
    ensures
        final(buf)@ == old(buf)@ + slot_bytes(*slot_data),
{
    match slot_data {
        Some(slot) => {
            write_bool(buf, true);
            write_varint(buf, slot.item_id);
            write_byte(buf, slot.item_count);
            match &slot.nbt {
                Some(nbt) => write_bytes(buf, nbt.as_slice()),
                None => write_byte(buf, 0),
            }
        },
        None => write_bool(buf, false),
    }
    assert(buf@ =~= old(buf)@ + slot_bytes(*slot_data));
}

} // verus!
