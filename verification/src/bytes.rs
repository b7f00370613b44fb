//! Byte images: big-endian fields, and images described by a table of placed fields.

use vstd::prelude::*;

verus! {

/// `n` zero bytes.
pub open spec fn zeros(n: nat) -> Seq<u8> {
    Seq::new(n, |i: int| 0u8)
}

/// The two big-endian bytes of `v`.
pub open spec fn be16(v: u16) -> Seq<u8> {
    seq![(v / 0x100) as u8, (v % 0x100) as u8]
}

/// The four big-endian bytes of `v`.
pub open spec fn be32(v: u32) -> Seq<u8> {
    seq![
        (v / 0x100_0000) as u8,
        (v / 0x1_0000 % 0x100) as u8,
        (v / 0x100 % 0x100) as u8,
        (v % 0x100) as u8,
    ]
}

/// The eight big-endian bytes of `v`.
pub open spec fn be64(v: u64) -> Seq<u8> {
    be32((v / 0x1_0000_0000) as u32) + be32((v % 0x1_0000_0000) as u32)
}

/// The number whose big-endian bytes stand at `off`.
pub open spec fn be32_at(s: Seq<u8>, off: int) -> u32 {
    (s[off] * 0x100_0000 + s[off + 1] * 0x1_0000 + s[off + 2] * 0x100 + s[off + 3]) as u32
}

/// `s` with `t` written over it from `off` on.
pub open spec fn place(s: Seq<u8>, off: int, t: Seq<u8>) -> Seq<u8> {
    Seq::new(s.len(), |i: int| if off <= i < off + t.len() { t[i - off] } else { s[i] })
}

/// One field of a byte image: where it stands, and its bytes.
pub struct Field {
    pub off: int,
    pub bytes: Seq<u8>,
}

/// A field at `off`.
pub open spec fn field(off: int, bytes: Seq<u8>) -> Field {
    Field { off, bytes }
}

/// `base` with the first `k` of `fields` written over it in their order.
pub open spec fn overlaid(base: Seq<u8>, fields: Seq<Field>, k: int) -> Seq<u8>
    decreases k,
{
    if k <= 0 {
        base
    } else {
        place(overlaid(base, fields, k - 1), fields[k - 1].off, fields[k - 1].bytes)
    }
}

/// The image of `len` bytes that holds `fields` and is zero everywhere else.
pub open spec fn layout(len: nat, fields: Seq<Field>) -> Seq<u8> {
    overlaid(zeros(len), fields, fields.len() as int)
}

/// Every field lies inside an image of `len` bytes and no two fields share a byte.
pub open spec fn fields_apart(len: nat, fields: Seq<Field>) -> bool {
    &&& forall|i: int|
        0 <= i < fields.len() ==> 0 <= (#[trigger] fields[i]).off && fields[i].off
            + fields[i].bytes.len() <= len
    &&& forall|i: int, j: int|
        0 <= i < j < fields.len() ==> (#[trigger] fields[i]).off + fields[i].bytes.len() <= (
        #[trigger] fields[j]).off || fields[j].off + fields[j].bytes.len() <= fields[i].off
}

/// The fields come in the order of their places, none running into the next, all inside an image
/// of `len` bytes.
pub open spec fn fields_ascend(len: nat, fields: Seq<Field>) -> bool {
    &&& fields.len() > 0 ==> fields[0].off >= 0 && fields.last().off + fields.last().bytes.len()
        <= len
    &&& forall|i: int|
        0 <= i < fields.len() - 1 ==> #[trigger] fields[i].off + fields[i].bytes.len()
            <= fields[i + 1].off
}

proof fn lemma_ascending_pair(len: nat, fields: Seq<Field>, i: int, j: int)
    requires
        fields_ascend(len, fields),
        0 <= i < j < fields.len(),
    ensures
        fields[i].off + fields[i].bytes.len() <= fields[j].off,
    decreases j,
{
    if i < j - 1 {
        lemma_ascending_pair(len, fields, i, j - 1);
    }
    assert(fields[j - 1].off + fields[j - 1].bytes.len() <= fields[j - 1 + 1].off);
}

/// Fields in ascending places share no byte.
pub proof fn ascending_fields_are_apart(len: nat, fields: Seq<Field>)
    requires
        fields_ascend(len, fields),
    ensures
        fields_apart(len, fields),
{
    assert forall|i: int, j: int| 0 <= i < j < fields.len() implies (#[trigger] fields[i]).off
        + fields[i].bytes.len() <= (#[trigger] fields[j]).off || fields[j].off
        + fields[j].bytes.len() <= fields[i].off by {
        lemma_ascending_pair(len, fields, i, j);
    }
    assert forall|i: int| 0 <= i < fields.len() implies 0 <= (#[trigger] fields[i]).off
        && fields[i].off + fields[i].bytes.len() <= len by {
        if i > 0 {
            lemma_ascending_pair(len, fields, 0, i);
        }
        if i < fields.len() - 1 {
            lemma_ascending_pair(len, fields, i, fields.len() - 1);
        }
    }
}

/// Byte `i` belongs to a field.
pub open spec fn in_field(fields: Seq<Field>, i: int) -> bool {
    exists|j: int|
        0 <= j < fields.len() && (#[trigger] fields[j]).off <= i < fields[j].off
            + fields[j].bytes.len()
}

pub(crate) proof fn lemma_overlaid_len(base: Seq<u8>, fields: Seq<Field>, k: int)
    ensures
        overlaid(base, fields, k).len() == base.len(),
    decreases k,
{
    if k > 0 {
        lemma_overlaid_len(base, fields, k - 1);
    }
}

proof fn lemma_overlaid_outside(base: Seq<u8>, fields: Seq<Field>, k: int, i: int)
    requires
        0 <= k <= fields.len(),
        0 <= i < base.len(),
        forall|j: int|
            0 <= j < k ==> i < (#[trigger] fields[j]).off || fields[j].off + fields[j].bytes.len()
                <= i,
    ensures
        overlaid(base, fields, k)[i] == base[i],
    decreases k,
{
    if k > 0 {
        lemma_overlaid_len(base, fields, k - 1);
        lemma_overlaid_outside(base, fields, k - 1, i);
        assert(i < fields[k - 1].off || fields[k - 1].off + fields[k - 1].bytes.len() <= i);
    }
}

proof fn lemma_overlaid_inside(base: Seq<u8>, fields: Seq<Field>, k: int, j: int, i: int)
    requires
        0 <= j < k <= fields.len(),
        fields_apart(base.len(), fields),
        fields[j].off <= i < fields[j].off + fields[j].bytes.len(),
    ensures
        overlaid(base, fields, k)[i] == fields[j].bytes[i - fields[j].off],
    decreases k,
{
    lemma_overlaid_len(base, fields, k - 1);
    if j < k - 1 {
        lemma_overlaid_inside(base, fields, k - 1, j, i);
        assert(fields[j].off + fields[j].bytes.len() <= fields[k - 1].off || fields[k - 1].off
            + fields[k - 1].bytes.len() <= fields[j].off);
    }
}

/// An image reads back, at each field's place, the bytes of that field, and is zero outside all
/// of them.
pub proof fn layout_reads_back(len: nat, fields: Seq<Field>)
    requires
        fields_apart(len, fields),
    ensures
        layout(len, fields).len() == len,
        forall|j: int|
            0 <= j < fields.len() ==> layout(len, fields).subrange(
                (#[trigger] fields[j]).off,
                fields[j].off + fields[j].bytes.len(),
            ) == fields[j].bytes,
        forall|i: int|
            0 <= i < len && !in_field(fields, i) ==> #[trigger] layout(len, fields)[i] == 0,
{
    let n = fields.len() as int;
    lemma_overlaid_len(zeros(len), fields, n);
    assert forall|j: int| 0 <= j < fields.len() implies layout(len, fields).subrange(
        (#[trigger] fields[j]).off,
        fields[j].off + fields[j].bytes.len(),
    ) == fields[j].bytes by {
        let f = fields[j];
        assert forall|i: int| 0 <= i < f.bytes.len() implies layout(len, fields)[f.off + i]
            == f.bytes[i] by {
            lemma_overlaid_inside(zeros(len), fields, n, j, f.off + i);
        }
        assert(layout(len, fields).subrange(f.off, f.off + f.bytes.len()) =~= f.bytes);
    }
    assert forall|i: int| 0 <= i < len && !in_field(fields, i) implies #[trigger] layout(
        len,
        fields,
    )[i] == 0 by {
        lemma_overlaid_outside(zeros(len), fields, n, i);
    }
}

/// Write `src` over `buf` from `off` on.
pub fn put(buf: &mut Vec<u8>, off: usize, src: &[u8])
    requires
        off + src@.len() <= old(buf)@.len(),
    ensures
        final(buf)@ == place(old(buf)@, off as int, src@),
{
    let n = src.len();
    let total = buf.len();
    let mut i: usize = 0;
    while i < n
        invariant
            i <= n,
            n == src@.len(),
            total == old(buf)@.len(),
            off + n <= total,
            buf@.len() == old(buf)@.len(),
            buf@ == place(old(buf)@, off as int, src@.subrange(0, i as int)),
        decreases n - i,
    {
        buf[off + i] = src[i];
        i = i + 1;
        assert(buf@ =~= place(old(buf)@, off as int, src@.subrange(0, i as int)));
    }
    assert(src@.subrange(0, n as int) =~= src@);
}

/// The big-endian bytes of `v`.
pub fn be16_bytes(v: u16) -> (r: [u8; 2])
    ensures
        r@ == be16(v),
{
    let r = [(v / 0x100) as u8, (v % 0x100) as u8];
    assert(r@ =~= be16(v));
    r
}

/// The big-endian bytes of `v`.
pub fn be32_bytes(v: u32) -> (r: [u8; 4])
    ensures
        r@ == be32(v),
{
    let r = [
        (v / 0x100_0000) as u8,
        (v / 0x1_0000 % 0x100) as u8,
        (v / 0x100 % 0x100) as u8,
        (v % 0x100) as u8,
    ];
    assert(r@ =~= be32(v));
    r
}

/// Write the big-endian bytes of `v` at `off`.
pub fn put_u32(buf: &mut Vec<u8>, off: usize, v: u32)
    requires
        off + 4 <= old(buf)@.len(),
    ensures
        final(buf)@ == place(old(buf)@, off as int, be32(v)),
{
    let b = be32_bytes(v);
    put(buf, off, b.as_slice());
}

/// Write the big-endian bytes of `v` at `off`.
pub fn put_u16(buf: &mut Vec<u8>, off: usize, v: u16)
    requires
        off + 2 <= old(buf)@.len(),
    ensures
        final(buf)@ == place(old(buf)@, off as int, be16(v)),
{
    let b = be16_bytes(v);
    put(buf, off, b.as_slice());
}

/// Write the big-endian bytes of `v` at `off`.
pub fn put_u64(buf: &mut Vec<u8>, off: usize, v: u64)
    requires
        off + 8 <= old(buf)@.len(),
    ensures
        final(buf)@ == place(old(buf)@, off as int, be64(v)),
{
    let total = buf.len();
    put_u32(buf, off, (v / 0x1_0000_0000) as u32);
    put_u32(buf, off + 4, (v % 0x1_0000_0000) as u32);
    assert(buf@ =~= place(old(buf)@, off as int, be64(v)));
}

proof fn lemma_be32_digits(b0: u8, b1: u8, b2: u8, b3: u8, v: u32)
    requires
        v == b0 * 0x100_0000 + b1 * 0x1_0000 + b2 * 0x100 + b3,
    ensures
        be32(v) == seq![b0, b1, b2, b3],
{
    assert(v / 0x100_0000 == b0);
    assert(v / 0x1_0000 == b0 * 0x100 + b1);
    assert(v / 0x100 == b0 * 0x1_0000 + b1 * 0x100 + b2);
    assert((b0 * 0x100 + b1) % 0x100 == b1);
    assert((b0 * 0x1_0000 + b1 * 0x100 + b2) % 0x100 == b2);
    assert(v % 0x100 == b3);
    assert(be32(v) =~= seq![b0, b1, b2, b3]);
}

/// The number whose big-endian bytes stand at `off`.
pub fn be32_from(b: &[u8], off: usize) -> (r: u32)
    requires
        off + 4 <= b@.len(),
    ensures
        r == be32_at(b@, off as int),
        be32(r) == b@.subrange(off as int, off + 4),
{
    let total = b.len();
    let (b0, b1, b2, b3) = (b[off], b[off + 1], b[off + 2], b[off + 3]);
    let r: u32 = b0 as u32 * 0x100_0000 + b1 as u32 * 0x1_0000 + b2 as u32 * 0x100 + b3 as u32;
    proof {
        lemma_be32_digits(b0, b1, b2, b3, r);
    }
    assert(be32(r) =~= b@.subrange(off as int, off + 4));
    r
}

/// A number reads back from its own big-endian bytes.
pub proof fn be32_reads_back(v: u32)
    ensures
        be32(v).len() == 4,
        be32_at(be32(v), 0) == v,
{
    let q1 = v / 0x100;
    let q2 = v / 0x1_0000;
    let q3 = v / 0x100_0000;
    assert(q2 == q1 / 0x100);
    assert(q3 == q2 / 0x100);
    assert(q3 < 0x100);
    let s = be32(v);
    assert(s[0] == q3 && s[1] == q2 % 0x100 && s[2] == q1 % 0x100 && s[3] == v % 0x100);
    assert(v == q3 * 0x100_0000 + q2 % 0x100 * 0x1_0000 + q1 % 0x100 * 0x100 + v % 0x100);
}

/// Four bytes are known from the number that they stand for.
pub proof fn be32_is_injective(a: Seq<u8>, b: Seq<u8>)
    requires
        a.len() == 4,
        b.len() == 4,
        be32_at(a, 0) == be32_at(b, 0),
    ensures
        a == b,
{
    lemma_be32_digits(a[0], a[1], a[2], a[3], be32_at(a, 0));
    lemma_be32_digits(b[0], b[1], b[2], b[3], be32_at(b, 0));
    assert(a =~= seq![a[0], a[1], a[2], a[3]]);
    assert(b =~= seq![b[0], b[1], b[2], b[3]]);
}

/// A number reads back from where its big-endian bytes stand.
pub proof fn be32_at_its_bytes(s: Seq<u8>, off: int, v: u32)
    requires
        0 <= off <= s.len() - 4,
        s.subrange(off, off + 4) == be32(v),
    ensures
        be32_at(s, off) == v,
{
    let t = s.subrange(off, off + 4);
    assert(t[0] == s[off] && t[1] == s[off + 1] && t[2] == s[off + 2] && t[3] == s[off + 3]);
    be32_reads_back(v);
}

/// `n` zero bytes.
pub fn zeroed(n: usize) -> (r: Vec<u8>)
    ensures
        r@ == zeros(n as nat),
{
    let r = vec![0u8; n];
    assert(r@ =~= zeros(n as nat));
    r
}

/// Append `src` to `buf`.
pub fn append_bytes(buf: &mut Vec<u8>, src: &[u8])
    ensures
        final(buf)@ == old(buf)@ + src@,
{
    buf.extend_from_slice(src);
    assert(buf@ =~= old(buf)@ + src@);
}

/// Lengthen `buf` with zeros to `len` bytes; a longer one stays as it is.
pub fn pad_to(buf: &mut Vec<u8>, len: usize)
    ensures
        final(buf)@ == if old(buf)@.len() < len {
            old(buf)@ + zeros((len - old(buf)@.len()) as nat)
        } else {
            old(buf)@
        },
{
    if buf.len() < len {
        let ghost b = buf@;
        buf.resize(len, 0u8);
        assert(forall|i: int| 0 <= i < b.len() ==> buf@[i] == buf@.subrange(0, b.len() as int)[i]);
        assert(buf@ =~= b + zeros((len - b.len()) as nat));
    }
}

/// The least multiple of `a` that is not below `v`.
pub open spec fn aligned_up(v: int, a: int) -> int {
    (v + a - 1) / a * a
}

/// Rounding up to a multiple of `a` gives a multiple of `a`, never goes below and moves by less
/// than `a`.
pub proof fn aligned_up_is_least(v: int, a: int)
    requires
        a > 0,
    ensures
        aligned_up(v, a) % a == 0,
        v <= aligned_up(v, a) < v + a,
        v % a == 0 ==> aligned_up(v, a) == v,
{
    let q = (v + a - 1) / a;
    vstd::arithmetic::div_mod::lemma_fundamental_div_mod(v + a - 1, a);
    vstd::arithmetic::div_mod::lemma_mod_multiples_basic(q, a);
    assert(a * q == q * a) by (nonlinear_arith);
    assert(0 <= (v + a - 1) % a < a) by (nonlinear_arith)
        requires
            a > 0,
    ;
    if v % a == 0 {
        vstd::arithmetic::div_mod::lemma_fundamental_div_mod(v, a);
        let p = v / a;
        assert(v == a * p);
        assert(q == p) by (nonlinear_arith)
            requires
                a > 0,
                a * q <= a * p + a - 1,
                a * p <= a * q,
        ;
    }
}

/// Round `v` up to a multiple of `a`.
pub fn align_up(v: u64, a: u64) -> (r: u64)
    requires
        a > 0,
        v + a - 1 <= u64::MAX,
    ensures
        r == aligned_up(v as int, a as int),
        r % a == 0,
        v <= r < v + a,
{
    proof {
        aligned_up_is_least(v as int, a as int);
        vstd::arithmetic::div_mod::lemma_fundamental_div_mod(v + a - 1, a as int);
        assert(a * ((v + a - 1) / (a as int)) == (v + a - 1) / (a as int) * a)
            by (nonlinear_arith);
    }
    (v + (a - 1)) / a * a
}

/// `part` stands in `s` at `at`.
pub open spec fn part_at(s: Seq<u8>, part: Seq<u8>, at: int) -> bool {
    0 <= at && at + part.len() <= s.len() && s.subrange(at, at + part.len()) == part
}

/// Whether `part` stands in `s` at `at`.
pub fn stands_at(s: &[u8], part: &[u8], at: usize) -> (r: bool)
    ensures
        r == part_at(s@, part@, at as int),
{
    let n = s.len();
    let m = part.len();
    if m > n || at > n - m {
        return false;
    }
    let mut i: usize = 0;
    while i < m
        invariant
            i <= m,
            m == part@.len(),
            n == s@.len(),
            at + m <= n,
            forall|j: int| 0 <= j < i ==> s@[at + j] == part@[j],
        decreases m - i,
    {
        if s[at + i] != part[i] {
            assert(s@.subrange(at as int, at + part@.len())[i as int] != part@[i as int]);
            return false;
        }
        i = i + 1;
    }
    assert(s@.subrange(at as int, at + part@.len()) =~= part@);
    true
}

/// Sixteen bytes as a key.
pub fn key_from(b: &[u8]) -> (r: [u8; 16])
    requires
        b@.len() == 16,
    ensures
        r@ == b@,
{
    let r = [
        b[0],
        b[1],
        b[2],
        b[3],
        b[4],
        b[5],
        b[6],
        b[7],
        b[8],
        b[9],
        b[10],
        b[11],
        b[12],
        b[13],
        b[14],
        b[15],
    ];
    assert(r@ =~= b@);
    r
}

/// Big-endian bytes are the digits of a number to the base 256, the most significant first.
pub proof fn big_endian_is_positional(v: u64)
    ensures
        ({
            let s = be64(v);
            &&& s.len() == 8
            &&& v == s[0] * 0x100_0000_0000_0000 + s[1] * 0x1_0000_0000_0000 + s[2]
                * 0x100_0000_0000 + s[3] * 0x1_0000_0000 + s[4] * 0x100_0000 + s[5] * 0x1_0000
                + s[6] * 0x100 + s[7]
        }),
        v <= u32::MAX ==> {
            let s = be32(v as u32);
            s.len() == 4 && v == s[0] * 0x100_0000 + s[1] * 0x1_0000 + s[2] * 0x100 + s[3]
                && be32_at(s, 0) == v
        },
        v <= u16::MAX ==> {
            let s = be16(v as u16);
            s.len() == 2 && v == s[0] * 0x100 + s[1]
        },
{
    let (h, l) = ((v / 0x1_0000_0000) as u32, (v % 0x1_0000_0000) as u32);
    lemma_positional(h);
    lemma_positional(l);
    assert(be64(v).subrange(0, 4) =~= be32(h));
    let s = be64(v);
    assert(s[0] == be32(h)[0] && s[1] == be32(h)[1] && s[2] == be32(h)[2] && s[3] == be32(h)[3]);
    assert(s[4] == be32(l)[0] && s[5] == be32(l)[1] && s[6] == be32(l)[2] && s[7] == be32(l)[3]);
    if v <= u32::MAX {
        lemma_positional(v as u32);
    }
}

proof fn lemma_positional(v: u32)
    ensures
        ({
            let s = be32(v);
            v == s[0] * 0x100_0000 + s[1] * 0x1_0000 + s[2] * 0x100 + s[3]
        }),
{
    be32_reads_back(v);
    let q1 = v / 0x100;
    let q2 = v / 0x1_0000;
    let q3 = v / 0x100_0000;
    assert(q2 == q1 / 0x100);
    assert(q3 == q2 / 0x100);
    assert(q3 < 0x100);
}

/// Four bytes are read as the digits of a number to the base 256, the most significant first.
pub proof fn reading_is_positional(s: Seq<u8>, off: int)
    ensures
        be32_at(s, off) == s[off] * 0x100_0000 + s[off + 1] * 0x1_0000 + s[off + 2] * 0x100 + s[off
            + 3],
{
}

} // verus!
