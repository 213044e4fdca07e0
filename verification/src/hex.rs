//! Primitive layer of the document codec: fixed-width hexadecimal numbers and
//! hex-escaped byte runs. Everything this layer emits is plain ASCII, so a
//! document built from it is valid UTF-8 wherever it is not already an
//! embedded UTF-8 string.

use vstd::prelude::*;
use vstd::utf8::*;

verus! {

/// The ASCII byte for one hexadecimal digit (lowercase).
pub open spec fn hex_digit(n: u8) -> u8
    recommends
        n < 16,
{
    if n < 10 {
        (48 + n) as u8
    } else {
        (87 + n) as u8
    }
}

/// The value of an ASCII byte read as a hexadecimal digit, or -1.
pub open spec fn hex_val(b: u8) -> int {
    if 48 <= b <= 57 {
        b - 48
    } else if 97 <= b <= 102 {
        b - 87
    } else {
        -1
    }
}

pub open spec fn is_hex_digit(b: u8) -> bool {
    hex_val(b) >= 0
}

/// Powers of sixteen: the range of an `n`-digit hexadecimal number.
pub open spec fn pow16(n: nat) -> int
    decreases n,
{
    if n == 0 {
        1
    } else {
        16 * pow16((n - 1) as nat)
    }
}

/// `x` written as exactly `n` hexadecimal digits, most significant first.
pub open spec fn enc_num(x: int, n: nat) -> Seq<u8>
    decreases n,
{
    if n == 0 {
        Seq::empty()
    } else {
        enc_num(x / 16, (n - 1) as nat).push(hex_digit((x % 16) as u8))
    }
}

/// The number that a run of hexadecimal digits denotes.
pub open spec fn dec_num(s: Seq<u8>) -> int
    decreases s.len(),
{
    if s.len() == 0 {
        0
    } else {
        dec_num(s.drop_last()) * 16 + hex_val(s.last())
    }
}

/// Sixteen hexadecimal digits read at `pos`, or nothing when they are not
/// there: the parse of one fixed-width number.
pub open spec fn sp_num(b: Seq<u8>, pos: int) -> Option<(int, int)> {
    if 0 <= pos && pos + 16 <= b.len() && (forall|i: int|
        pos <= i < pos + 16 ==> is_hex_digit(b[i])) {
        Some((dec_num(b.subrange(pos, pos + 16)), pos + 16))
    } else {
        None
    }
}

/// A run of bytes written as two hexadecimal digits each.
pub open spec fn enc_pairs(v: Seq<u8>) -> Seq<u8> {
    Seq::new(
        (2 * v.len()) as nat,
        |i: int|
            if i % 2 == 0 {
                hex_digit((v[i / 2] / 16) as u8)
            } else {
                hex_digit((v[i / 2] % 16) as u8)
            },
    )
}

/// `cnt` bytes read back from two hexadecimal digits each, starting at `pos`.
pub open spec fn sp_pairs(b: Seq<u8>, pos: int, cnt: int) -> Option<(Seq<u8>, int)> {
    if 0 <= pos && 0 <= cnt && pos + 2 * cnt <= b.len() && (forall|i: int|
        pos <= i < pos + 2 * cnt ==> is_hex_digit(b[i])) {
        Some(
            (
                Seq::new(
                    cnt as nat,
                    |k: int| (hex_val(b[pos + 2 * k]) * 16 + hex_val(b[pos + 2 * k + 1])) as u8,
                ),
                pos + 2 * cnt,
            ),
        )
    } else {
        None
    }
}

pub proof fn lemma_hex_digit_val(n: u8)
    requires
        n < 16,
    ensures
        is_hex_digit(hex_digit(n)),
        hex_val(hex_digit(n)) == n,
        hex_digit(n) < 128,
{
}

pub proof fn lemma_pow16_pos(n: nat)
    ensures
        pow16(n) >= 1,
    decreases n,
{
    if n > 0 {
        lemma_pow16_pos((n - 1) as nat);
    }
}

pub proof fn lemma_pow16_mono(i: nat, j: nat)
    requires
        i <= j,
    ensures
        pow16(i) <= pow16(j),
    decreases j,
{
    if i < j {
        lemma_pow16_mono(i, (j - 1) as nat);
        lemma_pow16_pos((j - 1) as nat);
        assert(pow16(j) == 16 * pow16((j - 1) as nat));
    }
}

pub proof fn lemma_pow16_16()
    ensures
        pow16(16) == 0x1_0000_0000_0000_0000,
{
    reveal_with_fuel(pow16, 17);
}

/// An `n`-digit encoding of a number in range is `n` hexadecimal ASCII bytes
/// and decodes back to the number.
pub proof fn lemma_enc_num(x: int, n: nat)
    requires
        0 <= x < pow16(n),
    ensures
        enc_num(x, n).len() == n,
        forall|i: int|
            0 <= i < n ==> is_hex_digit(#[trigger] enc_num(x, n)[i]) && enc_num(x, n)[i] < 128,
        dec_num(enc_num(x, n)) == x,
    decreases n,
{
    if n == 0 {
    } else {
        let q = x / 16;
        let r = x % 16;
        assert(0 <= r < 16);
        assert(x == 16 * q + r) by {
            vstd::arithmetic::div_mod::lemma_fundamental_div_mod(x, 16);
        }
        assert(q < pow16((n - 1) as nat)) by (nonlinear_arith)
            requires
                x == 16 * q + r,
                0 <= r < 16,
                x < 16 * pow16((n - 1) as nat),
                pow16(n) == 16 * pow16((n - 1) as nat),
        ;
        assert(q >= 0);
        lemma_enc_num(q, (n - 1) as nat);
        lemma_hex_digit_val(r as u8);
        let s = enc_num(x, n);
        assert(s == enc_num(q, (n - 1) as nat).push(hex_digit(r as u8)));
        assert(s.drop_last() =~= enc_num(q, (n - 1) as nat));
        assert(dec_num(s) == q * 16 + r);
    }
}

/// A run of hexadecimal digits denotes a number in range.
pub proof fn lemma_dec_num_bound(s: Seq<u8>)
    requires
        forall|i: int| 0 <= i < s.len() ==> is_hex_digit(s[i]),
    ensures
        0 <= dec_num(s) < pow16(s.len()),
    decreases s.len(),
{
    if s.len() == 0 {
    } else {
        lemma_dec_num_bound(s.drop_last());
        let d = dec_num(s.drop_last());
        let v = hex_val(s.last());
        assert(0 <= v <= 15);
        assert(d * 16 + v < pow16(s.len())) by (nonlinear_arith)
            requires
                0 <= d < pow16((s.len() - 1) as nat),
                0 <= v <= 15,
                pow16(s.len()) == 16 * pow16((s.len() - 1) as nat),
        ;
        assert(d * 16 + v >= 0) by (nonlinear_arith)
            requires
                d >= 0,
                v >= 0,
        ;
    }
}

/// Parsing sixteen digits where an encoded number was spliced in gives back
/// exactly that number.
pub proof fn lemma_parse_enc_num(a: Seq<u8>, x: int, c: Seq<u8>)
    requires
        0 <= x < pow16(16),
    ensures
        sp_num(a + enc_num(x, 16) + c, a.len() as int) == Some((x, a.len() + 16int)),
{
    lemma_enc_num(x, 16);
    let b = a + enc_num(x, 16) + c;
    let pos = a.len() as int;
    assert(b.subrange(pos, pos + 16) =~= enc_num(x, 16));
    assert(forall|i: int| pos <= i < pos + 16 ==> is_hex_digit(b[i])) by {
        assert(forall|i: int| pos <= i < pos + 16 ==> b[i] == enc_num(x, 16)[i - pos]);
    }
}

/// Byte runs hex-escape to ASCII and parse back to themselves.
pub proof fn lemma_enc_pairs(v: Seq<u8>)
    ensures
        enc_pairs(v).len() == 2 * v.len(),
        forall|i: int|
            0 <= i < 2 * v.len() ==> is_hex_digit(#[trigger] enc_pairs(v)[i]) && enc_pairs(v)[i]
                < 128,
{
    assert forall|i: int| 0 <= i < 2 * v.len() implies is_hex_digit(#[trigger] enc_pairs(v)[i])
        && enc_pairs(v)[i] < 128 by {
        let k = i / 2;
        assert(0 <= k < v.len());
        if i % 2 == 0 {
            lemma_hex_digit_val((v[k] / 16) as u8);
        } else {
            lemma_hex_digit_val((v[k] % 16) as u8);
        }
    }
}

pub proof fn lemma_parse_enc_pairs(a: Seq<u8>, v: Seq<u8>, c: Seq<u8>)
    ensures
        sp_pairs(a + enc_pairs(v) + c, a.len() as int, v.len() as int) == Some(
            (v, (a.len() + 2 * v.len()) as int),
        ),
{
    lemma_enc_pairs(v);
    let b = a + enc_pairs(v) + c;
    let pos = a.len() as int;
    let cnt = v.len() as int;
    assert(forall|i: int| pos <= i < pos + 2 * cnt ==> b[i] == enc_pairs(v)[i - pos]);
    assert(forall|i: int| pos <= i < pos + 2 * cnt ==> is_hex_digit(b[i]));
    let w = Seq::new(
        cnt as nat,
        |k: int| (hex_val(b[pos + 2 * k]) * 16 + hex_val(b[pos + 2 * k + 1])) as u8,
    );
    assert forall|k: int| 0 <= k < cnt implies w[k] == v[k] by {
        assert(b[pos + 2 * k] == enc_pairs(v)[2 * k]);
        assert(b[pos + 2 * k + 1] == enc_pairs(v)[2 * k + 1]);
        assert((2 * k) / 2 == k);
        assert((2 * k + 1) / 2 == k);
        lemma_hex_digit_val((v[k] / 16) as u8);
        lemma_hex_digit_val((v[k] % 16) as u8);
        assert(hex_val(enc_pairs(v)[2 * k]) == v[k] / 16);
        assert(hex_val(enc_pairs(v)[2 * k + 1]) == v[k] % 16);
        assert((v[k] / 16) * 16 + v[k] % 16 == v[k]) by {
            vstd::arithmetic::div_mod::lemma_fundamental_div_mod(v[k] as int, 16);
        }
    }
    assert(w =~= v);
}

/// A sequence of ASCII bytes is valid UTF-8.
pub proof fn lemma_ascii_valid_utf8(s: Seq<u8>)
    requires
        forall|i: int| 0 <= i < s.len() ==> s[i] < 128,
    ensures
        valid_utf8(s),
    decreases s.len(),
{
    if s.len() > 0 {
        assert(is_leading_byte_width_1(s[0]));
        assert(valid_first_scalar(s));
        assert(length_of_first_scalar(s) == 1);
        let rest = pop_first_scalar(s);
        assert(forall|i: int| 0 <= i < rest.len() ==> rest[i] == s[i + 1] && rest[i] < 128);
        lemma_ascii_valid_utf8(rest);
    }
}

/// Append `x` as sixteen hexadecimal digits. The recursion writes the most
/// significant digit first.
pub(crate) fn push_num_digits(out: &mut Vec<u8>, x: u64, n: usize)
    requires
        n <= 16,
    ensures
        final(out)@ == old(out)@ + enc_num(x as int, n as nat),
    decreases n,
{
    if n > 0 {
        let ghost pre = out@;
        push_num_digits(out, x / 16, n - 1);
        let d: u8 = (x % 16) as u8;
        out.push(hex_digit_x(d));
        proof {
            assert((x as int) / 16 == (x / 16) as int);
            assert((x as int) % 16 == (x % 16) as int);
            assert(out@ =~= pre + enc_num(x as int, n as nat));
        }
    } else {
        proof {
            assert(out@ =~= old(out)@ + enc_num(x as int, 0));
        }
    }
}

pub(crate) fn hex_digit_x(n: u8) -> (r: u8)
    requires
        n < 16,
    ensures
        r == hex_digit(n),
{
    if n < 10 {
        48 + n
    } else {
        87 + n
    }
}

pub(crate) fn hex_val_x(b: u8) -> (r: Option<u8>)
    ensures
        match r {
            Some(v) => is_hex_digit(b) && v == hex_val(b) && v < 16,
            None => !is_hex_digit(b),
        },
{
    if 48 <= b && b <= 57 {
        Some(b - 48)
    } else if 97 <= b && b <= 102 {
        Some(b - 87)
    } else {
        None
    }
}

/// Read one fixed-width number at `pos`.
pub(crate) fn parse_num(b: &Vec<u8>, pos: usize) -> (r: Option<(u64, usize)>)
    ensures
        match r {
            Some((x, p)) => sp_num(b@, pos as int) == Some((x as int, p as int)) && p == pos + 16
                && p <= b@.len(),
            None => sp_num(b@, pos as int) is None,
        },
{
    let blen = b.len();
    if pos > blen || blen - pos < 16 {
        return None;
    }
    proof {
        assert(b@.len() <= usize::MAX);
    }
    let ghost target = b@.subrange(pos as int, pos as int + 16);
    let mut acc: u64 = 0;
    let mut i: usize = 0;
    proof {
        lemma_pow16_16();
    }
    while i < 16
        invariant
            pos + 16 <= b@.len(),
            b@.len() <= usize::MAX,
            i <= 16,
            forall|j: int| pos <= j < pos + i ==> is_hex_digit(b@[j]),
            acc as int == dec_num(b@.subrange(pos as int, pos as int + i)),
            (acc as int) < pow16(i as nat),
            pow16(16) == 0x1_0000_0000_0000_0000,
        decreases 16 - i,
    {
        let byte = b[pos + i];
        match hex_val_x(byte) {
            None => {
                proof {
                    assert(!is_hex_digit(b@[pos + i]));
                }
                return None;
            },
            Some(v) => {
                proof {
                    lemma_pow16_mono((i + 1) as nat, 16);
                    assert(acc as int * 16 + v < pow16((i + 1) as nat)) by (nonlinear_arith)
                        requires
                            (acc as int) < pow16(i as nat),
                            0 <= v < 16,
                            pow16((i + 1) as nat) == 16 * pow16(i as nat),
                    ;
                    assert(acc as int * 16 + v >= 0) by (nonlinear_arith)
                        requires
                            acc >= 0,
                            v >= 0,
                    ;
                }
                acc = acc * 16 + (v as u64);
                proof {
                    let pre = b@.subrange(pos as int, pos as int + i);
                    let cur = b@.subrange(pos as int, pos as int + i + 1);
                    assert(cur.drop_last() =~= pre);
                    assert(cur.last() == b@[pos + i]);
                }
                i += 1;
            },
        }
    }
    proof {
        assert(b@.subrange(pos as int, pos as int + 16) =~= target);
    }
    Some((acc, pos + 16))
}

/// Append a byte run as two hexadecimal digits per byte.
pub(crate) fn push_pairs(out: &mut Vec<u8>, v: &Vec<u8>)
    ensures
        final(out)@ == old(out)@ + enc_pairs(v@),
{
    let ghost pre = old(out)@;
    let ghost target = enc_pairs(v@);
    let mut i: usize = 0;
    while i < v.len()
        invariant
            i <= v@.len(),
            target == enc_pairs(v@),
            target.len() == 2 * v@.len(),
            out@ == pre + target.subrange(0, 2 * i as int),
        decreases v@.len() - i,
    {
        let byte = v[i];
        out.push(hex_digit_x(byte / 16));
        out.push(hex_digit_x(byte % 16));
        proof {
            assert(target[2 * i as int] == hex_digit((v@[i as int] / 16) as u8));
            assert(target[2 * i as int + 1] == hex_digit((v@[i as int] % 16) as u8));
            assert(target.subrange(0, 2 * (i + 1) as int) =~= target.subrange(0, 2 * i as int)
                + seq![target[2 * i as int], target[2 * i as int + 1]]);
            assert(out@ =~= pre + target.subrange(0, 2 * (i + 1) as int));
        }
        i += 1;
    }
    proof {
        assert(target.subrange(0, 2 * v@.len() as int) =~= target);
    }
}

/// Read `cnt` hex-escaped bytes at `pos`.
pub(crate) fn parse_pairs(b: &Vec<u8>, pos: usize, cnt: u64) -> (r: Option<(Vec<u8>, usize)>)
    requires
        pos <= b@.len(),
    ensures
        match r {
            Some((v, p)) => sp_pairs(b@, pos as int, cnt as int) == Some((v@, p as int)) && p
                <= b@.len(),
            None => sp_pairs(b@, pos as int, cnt as int) is None,
        },
{
    let blen = b.len();
    if cnt > ((blen - pos) / 2) as u64 {
        proof {
            assert(pos + 2 * (cnt as int) > b@.len());
        }
        return None;
    }
    let cnt_us: usize = cnt as usize;
    proof {
        assert(b@.len() <= usize::MAX);
        assert(pos + 2 * cnt_us <= b@.len());
    }
    let mut out: Vec<u8> = Vec::new();
    let mut k: usize = 0;
    while k < cnt_us
        invariant
            k <= cnt_us,
            cnt_us == cnt,
            pos + 2 * cnt_us <= b@.len(),
            b@.len() <= usize::MAX,
            out@.len() == k,
            forall|j: int| pos <= j < pos + 2 * k ==> is_hex_digit(b@[j]),
            forall|j: int|
                0 <= j < k ==> out@[j] == (hex_val(b@[pos + 2 * j]) * 16 + hex_val(
                    b@[pos + 2 * j + 1],
                )) as u8,
        decreases cnt_us - k,
    {
        let hi = match hex_val_x(b[pos + 2 * k]) {
            None => {
                return None;
            },
            Some(v) => v,
        };
        let lo = match hex_val_x(b[pos + 2 * k + 1]) {
            None => {
                return None;
            },
            Some(v) => v,
        };
        out.push(hi * 16 + lo);
        k += 1;
    }
    proof {
        let w = Seq::new(
            cnt as nat,
            |j: int| (hex_val(b@[pos + 2 * j]) * 16 + hex_val(b@[pos + 2 * j + 1])) as u8,
        );
        assert(out@ =~= w);
    }
    Some((out, pos + 2 * cnt_us))
}

} // verus!
