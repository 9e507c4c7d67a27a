use vstd::prelude::*;

verus! {

/// A JSON-compatible argument value. Numbers are held as signed 64-bit
/// integers: the library's wire format does not carry fractional or
/// out-of-range numbers. Objects keep their members in order.
#[derive(Debug, PartialEq)]
pub enum JValue {
    Null,
    Bool(bool),
    Int(i64),
    Str(String),
    Arr(Vec<JValue>),
    Obj(Vec<(String, JValue)>),
}

/// The mathematical value of a `JValue`: text as character sequences,
/// collections as sequences.
pub enum JView {
    Null,
    Bool(bool),
    Int(i64),
    Str(Seq<char>),
    Arr(Seq<JView>),
    Obj(Seq<(Seq<char>, JView)>),
}

/// The mathematical value of an argument value.
pub open spec fn jview_of(v: JValue) -> JView
    decreases v,
{
    match v {
        JValue::Null => JView::Null,
        JValue::Bool(b) => JView::Bool(b),
        JValue::Int(n) => JView::Int(n),
        JValue::Str(s) => JView::Str(s@),
        JValue::Arr(items) => JView::Arr(jviews_of(items@)),
        JValue::Obj(members) => JView::Obj(jmembers_of(members@)),
    }
}

/// The mathematical values of a sequence of argument values.
pub open spec fn jviews_of(s: Seq<JValue>) -> Seq<JView>
    decreases s,
{
    if s.len() == 0 {
        Seq::empty()
    } else {
        seq![jview_of(s[0])] + jviews_of(s.drop_first())
    }
}

/// The mathematical values of a sequence of object members.
pub open spec fn jmembers_of(s: Seq<(String, JValue)>) -> Seq<(Seq<char>, JView)>
    decreases s,
{
    if s.len() == 0 {
        Seq::empty()
    } else {
        seq![(s[0].0@, jview_of(s[0].1))] + jmembers_of(s.drop_first())
    }
}

impl View for JValue {
    type V = JView;

    open spec fn view(&self) -> JView {
        jview_of(*self)
    }
}

/// The text `t` stands in `s` at position `pos`.
pub open spec fn text_at<T>(s: Seq<T>, pos: int, t: Seq<T>) -> bool {
    &&& 0 <= pos
    &&& pos + t.len() <= s.len()
    &&& s.subrange(pos, pos + t.len()) == t
}

pub open spec fn is_digit(b: u8) -> bool {
    0x30 <= b <= 0x39
}

pub open spec fn digit_of(n: int) -> u8 {
    (0x30 + n) as u8
}

/// Position `p` does not continue a decimal number: it is the end of the
/// text or holds a byte that is no digit.
pub open spec fn non_digit_at(s: Seq<u8>, p: int) -> bool {
    p == s.len() || (p < s.len() && !is_digit(s[p]))
}

/// The canonical decimal form of a natural number: no sign, no leading
/// zeros.
pub open spec fn ser_u64(n: nat) -> Seq<u8>
    decreases n,
{
    if n < 10 {
        seq![digit_of(n as int)]
    } else {
        ser_u64(n / 10).push(digit_of((n % 10) as int))
    }
}

/// The canonical decimal form of an integer: a minus sign for negative
/// values, then the magnitude.
pub open spec fn ser_i64(n: int) -> Seq<u8> {
    if n < 0 {
        seq![0x2Du8] + ser_u64((-n) as nat)
    } else {
        ser_u64(n as nat)
    }
}

/// The value of a run of decimal digits, most significant first.
pub open spec fn digits_val(ds: Seq<u8>) -> int
    decreases ds.len(),
{
    if ds.len() == 0 {
        0
    } else {
        digits_val(ds.drop_last()) * 10 + (ds.last() - 0x30)
    }
}

pub proof fn lemma_ser_u64_digits(n: nat)
    ensures
        ser_u64(n).len() >= 1,
        forall|i: int| 0 <= i < ser_u64(n).len() ==> is_digit(#[trigger] ser_u64(n)[i]),
        n > 0 ==> ser_u64(n)[0] != 0x30,
    decreases n,
{
    if n >= 10 {
        lemma_ser_u64_digits(n / 10);
        assert(n / 10 > 0);
        assert(ser_u64(n)[0] == ser_u64(n / 10)[0]);
        assert(forall|i: int|
            0 <= i < ser_u64(n / 10).len() ==> ser_u64(n)[i] == ser_u64(n / 10)[i]);
        assert(is_digit(ser_u64(n).last()));
    }
}

pub proof fn lemma_digits_val_ser_u64(n: nat)
    ensures
        digits_val(ser_u64(n)) == n,
    decreases n,
{
    if n < 10 {
        let t = ser_u64(n);
        assert(t == seq![digit_of(n as int)]);
        assert(t.len() == 1);
        assert(t.drop_last() =~= Seq::<u8>::empty());
        assert(digits_val(t.drop_last()) == 0);
        assert(digits_val(t) == digits_val(t.drop_last()) * 10 + (t.last() - 0x30));
        assert(t.last() == digit_of(n as int));
        assert(digit_of(n as int) == 0x30 + n);
    } else {
        lemma_digits_val_ser_u64(n / 10);
        let t = ser_u64(n);
        assert(t == ser_u64(n / 10).push(digit_of((n % 10) as int)));
        assert(t.len() >= 1);
        assert(t.drop_last() =~= ser_u64(n / 10));
        assert(digits_val(t) == digits_val(t.drop_last()) * 10 + (t.last() - 0x30));
        assert(t.last() == digit_of((n % 10) as int));
        assert(digit_of((n % 10) as int) == 0x30 + n % 10);
        assert(digits_val(t) == (n / 10) * 10 + n % 10);
    }
}

/// A run of digits has a non-negative value.
pub proof fn lemma_digits_val_nonneg(ds: Seq<u8>)
    requires
        forall|i: int| 0 <= i < ds.len() ==> is_digit(#[trigger] ds[i]),
    ensures
        digits_val(ds) >= 0,
    decreases ds.len(),
{
    if ds.len() > 0 {
        assert(forall|i: int| 0 <= i < ds.drop_last().len() ==> ds.drop_last()[i] == ds[i]);
        lemma_digits_val_nonneg(ds.drop_last());
    }
}

/// Reading one more digit can only grow the value.
pub proof fn lemma_digits_val_prefix(ds: Seq<u8>, k: int)
    requires
        0 <= k <= ds.len(),
        forall|i: int| 0 <= i < ds.len() ==> is_digit(#[trigger] ds[i]),
    ensures
        digits_val(ds.subrange(0, k)) <= digits_val(ds),
    decreases ds.len() - k,
{
    if k < ds.len() {
        lemma_digits_val_prefix(ds, k + 1);
        let p = ds.subrange(0, k);
        let q = ds.subrange(0, k + 1);
        assert(forall|i: int| 0 <= i < p.len() ==> p[i] == ds[i]);
        lemma_digits_val_nonneg(p);
        assert(q.drop_last() =~= p);
        assert(digits_val(q) == digits_val(p) * 10 + (q.last() - 0x30));
        assert(is_digit(q.last()));
    } else {
        assert(ds.subrange(0, k) =~= ds);
    }
}

/// Appends the canonical decimal form of `n`.
pub fn write_u64(out: &mut Vec<u8>, n: u64)
    ensures
        final(out)@ == old(out)@ + ser_u64(n as nat),
    decreases n,
{
    if n < 10 {
        out.push(0x30 + n as u8);
        proof {
            assert(final(out)@ =~= old(out)@ + ser_u64(n as nat));
        }
    } else {
        write_u64(out, n / 10);
        out.push(0x30 + (n % 10) as u8);
        proof {
            assert(final(out)@ =~= old(out)@ + ser_u64(n as nat));
        }
    }
}

/// Appends the canonical decimal form of `n`, sign included.
pub fn write_i64(out: &mut Vec<u8>, n: i64)
    ensures
        final(out)@ == old(out)@ + ser_i64(n as int),
{
    if n < 0 {
        out.push(0x2D);
        let m: u64 = if n == i64::MIN {
            9223372036854775808u64
        } else {
            (-n) as u64
        };
        assert(m == (-(n as int)) as nat);
        write_u64(out, m);
        proof {
            assert(final(out)@ =~= old(out)@ + ser_i64(n as int));
        }
    } else {
        write_u64(out, n as u64);
    }
}

/// Reads a canonical unsigned decimal number. Whatever else it does, it
/// reads exactly the canonical form of `n` wherever that form stands at
/// `pos` with no digit directly after it.
pub fn parse_u64(s: &Vec<u8>, pos: usize) -> (r: Option<(u64, usize)>)
    requires
        pos <= s@.len(),
    ensures
        r matches Some(pr) ==> pos < pr.1 <= s@.len(),
        forall|n: u64|
            text_at(s@, pos as int, ser_u64(n as nat)) && non_digit_at(
                s@,
                pos + ser_u64(n as nat).len(),
            ) ==> r == Some((n, (pos + ser_u64(n as nat).len()) as usize)),
{
    if pos >= s.len() || s[pos] < 0x30 || s[pos] > 0x39 {
        proof {
            assert forall|n: u64|
                text_at(s@, pos as int, ser_u64(n as nat)) && non_digit_at(
                    s@,
                    pos + ser_u64(n as nat).len(),
                ) implies false by {
                lemma_ser_u64_digits(n as nat);
                assert(s@[pos as int] == ser_u64(n as nat)[0]);
            }
        }
        return None;
    }
    let mut i: usize = pos;
    let mut acc: u64 = 0;
    while i < s.len() && 0x30 <= s[i] && s[i] <= 0x39
        invariant
            pos <= i <= s@.len(),
            forall|j: int| pos <= j < i ==> is_digit(#[trigger] s@[j]),
            acc as int == digits_val(s@.subrange(pos as int, i as int)),
        decreases s@.len() - i,
    {
        let d: u8 = s[i] - 0x30;
        if acc > (u64::MAX - d as u64) / 10 {
            // the run does not fit in 64 bits, so it is no canonical form
            proof {
                assert forall|n: u64|
                    text_at(s@, pos as int, ser_u64(n as nat)) && non_digit_at(
                        s@,
                        pos + ser_u64(n as nat).len(),
                    ) implies false by {
                    lemma_ser_u64_digits(n as nat);
                    let ln = ser_u64(n as nat).len();
                    // the current digit lies inside the canonical run
                    assert(i < pos + ln) by {
                        if i >= pos + ln {
                            assert(is_digit(s@[pos + ln]));
                        }
                    }
                    assert(s@.subrange(pos as int, i + 1) =~= ser_u64(n as nat).subrange(
                        0,
                        i + 1 - pos,
                    ));
                    lemma_digits_val_prefix(ser_u64(n as nat), i + 1 - pos);
                    lemma_digits_val_ser_u64(n as nat);
                    assert(digits_val(s@.subrange(pos as int, i + 1)) <= n as int);
                    assert(s@.subrange(pos as int, i + 1).drop_last() =~= s@.subrange(
                        pos as int,
                        i as int,
                    ));
                    assert(digits_val(s@.subrange(pos as int, i + 1)) == acc as int * 10 + d);
                }
            }
            return None;
        }
        proof {
            assert(s@.subrange(pos as int, i + 1).drop_last() =~= s@.subrange(
                pos as int,
                i as int,
            ));
        }
        acc = acc * 10 + d as u64;
        i = i + 1;
    }
    if s[pos] == 0x30 && i > pos + 1 {
        // a leading zero is no canonical form
        proof {
            assert forall|n: u64|
                text_at(s@, pos as int, ser_u64(n as nat)) && non_digit_at(
                    s@,
                    pos + ser_u64(n as nat).len(),
                ) implies false by {
                lemma_ser_u64_digits(n as nat);
                let ln = ser_u64(n as nat).len();
                assert(s@[pos as int] == ser_u64(n as nat)[0]);
                assert(n == 0);
                assert(ln == 1);
                assert(is_digit(s@[pos + 1]));
            }
        }
        return None;
    }
    proof {
        assert forall|n: u64|
            text_at(s@, pos as int, ser_u64(n as nat)) && non_digit_at(
                s@,
                pos + ser_u64(n as nat).len(),
            ) implies acc == n && i == pos + ser_u64(n as nat).len() by {
            lemma_ser_u64_digits(n as nat);
            let ln = ser_u64(n as nat).len();
            assert(i == pos + ln) by {
                if i < pos + ln {
                    assert(s@[i as int] == ser_u64(n as nat)[i - pos]);
                    assert(is_digit(s@[i as int]));
                } else if i > pos + ln {
                    assert(is_digit(s@[pos + ln]));
                }
            }
            assert(s@.subrange(pos as int, i as int) =~= ser_u64(n as nat));
            lemma_digits_val_ser_u64(n as nat);
        }
    }
    Some((acc, i))
}

/// When a negative integer's canonical form starts at `pos`, the sign is
/// there and the magnitude's form follows it.
proof fn lemma_i64_shape_neg(s: Seq<u8>, pos: int, n: i64)
    requires
        text_at(s, pos, ser_i64(n as int)),
        s[pos] == 0x2D,
    ensures
        n < 0,
        text_at(s, pos + 1, ser_u64((-(n as int)) as nat)),
        ser_i64(n as int).len() == 1 + ser_u64((-(n as int)) as nat).len(),
{
    assert(ser_i64(n as int)[0] == s.subrange(pos, pos + ser_i64(n as int).len() as int)[0]);
    assert(ser_i64(n as int)[0] == s[pos]);
    if n >= 0 {
        lemma_ser_u64_digits(n as nat);
        assert(is_digit(ser_i64(n as int)[0]));
        assert(false);
    }
    let mag = (-(n as int)) as nat;
    assert forall|j: int| 0 <= j < ser_u64(mag).len() implies s[pos + 1 + j] == ser_u64(mag)[j] by {
        assert(ser_i64(n as int)[1 + j] == s.subrange(pos, pos + ser_i64(n as int).len() as int)[1
            + j]);
        assert(ser_i64(n as int)[1 + j] == (seq![0x2Du8] + ser_u64(mag))[1 + j]);
        assert((seq![0x2Du8] + ser_u64(mag))[1 + j] == ser_u64(mag)[j]);
    }
    assert(s.subrange(pos + 1, pos + 1 + ser_u64(mag).len() as int) =~= ser_u64(mag));
}

/// When a non-negative integer's canonical form starts at `pos`, it is the
/// magnitude's form itself.
proof fn lemma_i64_shape_pos(s: Seq<u8>, pos: int, n: i64)
    requires
        text_at(s, pos, ser_i64(n as int)),
        pos < s.len() ==> s[pos] != 0x2D,
    ensures
        n >= 0,
        ser_i64(n as int) == ser_u64(n as nat),
{
    lemma_ser_u64_digits(if n >= 0 { n as nat } else { (-(n as int)) as nat });
    assert(ser_i64(n as int).len() >= 1);
    assert(pos < s.len());
    assert(ser_i64(n as int)[0] == s.subrange(pos, pos + ser_i64(n as int).len() as int)[0]);
    assert(ser_i64(n as int)[0] == s[pos]);
    if n < 0 {
        assert(ser_i64(n as int)[0] == 0x2D);
        assert(false);
    }
}

/// Reads a canonical signed decimal number, rejecting values outside the
/// signed 64-bit range. Whatever else it does, it reads exactly the
/// canonical form of `n` wherever that form stands at `pos` with no digit
/// directly after it.
pub fn parse_i64(s: &Vec<u8>, pos: usize) -> (r: Option<(i64, usize)>)
    requires
        pos <= s@.len(),
    ensures
        r matches Some(pr) ==> pos < pr.1 <= s@.len(),
        forall|n: i64|
            text_at(s@, pos as int, ser_i64(n as int)) && non_digit_at(
                s@,
                pos + ser_i64(n as int).len(),
            ) ==> r == Some((n, (pos + ser_i64(n as int).len()) as usize)),
{
    if pos < s.len() && s[pos] == 0x2D {
        let inner = parse_u64(s, pos + 1);
        let r: Option<(i64, usize)> = match inner {
            Some((m, p2)) => {
                if m == 0 || m > 9223372036854775808u64 {
                    // minus zero and overlarge magnitudes are no canonical forms
                    None
                } else if m == 9223372036854775808u64 {
                    Some((i64::MIN, p2))
                } else {
                    Some((-(m as i64), p2))
                }
            },
            None => None,
        };
        proof {
            assert forall|n: i64|
                text_at(s@, pos as int, ser_i64(n as int)) && non_digit_at(
                    s@,
                    pos + ser_i64(n as int).len(),
                ) implies r == Some((n, (pos + ser_i64(n as int).len()) as usize)) by {
                lemma_i64_shape_neg(s@, pos as int, n);
                let mag = (-(n as int)) as nat;
                assert(mag >= 1 && mag <= 9223372036854775808);
                let mu = mag as u64;
                assert(ser_u64(mu as nat) == ser_u64(mag));
                assert(non_digit_at(s@, pos + 1 + ser_u64(mag).len()));
                assert(inner == Some((mu, (pos + 1 + ser_u64(mag).len()) as usize)));
            }
        }
        r
    } else {
        let inner = parse_u64(s, pos);
        let r: Option<(i64, usize)> = match inner {
            Some((m, p2)) => {
                if m > i64::MAX as u64 {
                    None
                } else {
                    Some((m as i64, p2))
                }
            },
            None => None,
        };
        proof {
            assert forall|n: i64|
                text_at(s@, pos as int, ser_i64(n as int)) && non_digit_at(
                    s@,
                    pos + ser_i64(n as int).len(),
                ) implies r == Some((n, (pos + ser_i64(n as int).len()) as usize)) by {
                lemma_i64_shape_pos(s@, pos as int, n);
                let mu = n as u64;
                assert(ser_u64(mu as nat) == ser_u64(n as nat));
                assert(inner == Some((mu, (pos + ser_u64(n as nat).len()) as usize)));
            }
        }
        r
    }
}


pub open spec fn is_hex_digit(b: u8) -> bool {
    is_digit(b) || 0x61 <= b <= 0x66
}

/// Lowercase hexadecimal digit for a value below 16.
pub open spec fn hex_digit_of(n: int) -> u8 {
    if n < 10 {
        (0x30 + n) as u8
    } else {
        (0x57 + n) as u8
    }
}

pub open spec fn hex_val(b: u8) -> int {
    if is_digit(b) {
        b - 0x30
    } else {
        b - 0x57
    }
}

pub open spec fn pow16(w: nat) -> nat
    decreases w,
{
    if w == 0 {
        1
    } else {
        16 * pow16((w - 1) as nat)
    }
}

/// The fixed-width lowercase hexadecimal form of `n`, low digits last.
pub open spec fn ser_hex_fixed(n: nat, width: nat) -> Seq<u8>
    decreases width,
{
    if width == 0 {
        Seq::empty()
    } else {
        ser_hex_fixed(n / 16, (width - 1) as nat).push(hex_digit_of((n % 16) as int))
    }
}

/// The value of a run of hexadecimal digits, most significant first.
pub open spec fn hexs_val(ds: Seq<u8>) -> int
    decreases ds.len(),
{
    if ds.len() == 0 {
        0
    } else {
        hexs_val(ds.drop_last()) * 16 + hex_val(ds.last())
    }
}

pub proof fn lemma_pow16_vals()
    ensures
        pow16(4) == 0x10000,
        pow16(8) == 0x100000000,
        pow16(12) == 0x1000000000000,
        pow16(16) == 0x10000000000000000,
        pow16(20) == 0x100000000000000000000,
        pow16(24) == 0x1000000000000000000000000,
        pow16(32) == 0x100000000000000000000000000000000,
{
    assert(pow16(0) == 1);
    assert(pow16(1) == 16);
    assert(pow16(2) == 0x100);
    assert(pow16(3) == 0x1000);
    assert(pow16(4) == 0x10000);
    assert(pow16(5) == 0x100000);
    assert(pow16(6) == 0x1000000);
    assert(pow16(7) == 0x10000000);
    assert(pow16(8) == 0x100000000);
    assert(pow16(9) == 0x1000000000);
    assert(pow16(10) == 0x10000000000);
    assert(pow16(11) == 0x100000000000);
    assert(pow16(12) == 0x1000000000000);
    assert(pow16(13) == 0x10000000000000);
    assert(pow16(14) == 0x100000000000000);
    assert(pow16(15) == 0x1000000000000000);
    assert(pow16(16) == 0x10000000000000000);
    assert(pow16(17) == 0x100000000000000000);
    assert(pow16(18) == 0x1000000000000000000);
    assert(pow16(19) == 0x10000000000000000000);
    assert(pow16(20) == 0x100000000000000000000);
    assert(pow16(21) == 0x1000000000000000000000);
    assert(pow16(22) == 0x10000000000000000000000);
    assert(pow16(23) == 0x100000000000000000000000);
    assert(pow16(24) == 0x1000000000000000000000000);
    assert(pow16(25) == 0x10000000000000000000000000);
    assert(pow16(26) == 0x100000000000000000000000000);
    assert(pow16(27) == 0x1000000000000000000000000000);
    assert(pow16(28) == 0x10000000000000000000000000000);
    assert(pow16(29) == 0x100000000000000000000000000000);
    assert(pow16(30) == 0x1000000000000000000000000000000);
    assert(pow16(31) == 0x10000000000000000000000000000000);
    assert(pow16(32) == 0x100000000000000000000000000000000);
}

pub proof fn lemma_ser_hex_digits(n: nat, w: nat)
    ensures
        ser_hex_fixed(n, w).len() == w,
        forall|i: int| 0 <= i < w ==> is_hex_digit(#[trigger] ser_hex_fixed(n, w)[i]),
    decreases w,
{
    if w > 0 {
        lemma_ser_hex_digits(n / 16, (w - 1) as nat);
        let t = ser_hex_fixed(n, w);
        assert(t == ser_hex_fixed(n / 16, (w - 1) as nat).push(hex_digit_of((n % 16) as int)));
        assert(is_hex_digit(hex_digit_of((n % 16) as int)));
        assert(forall|i: int|
            0 <= i < w - 1 ==> t[i] == #[trigger] ser_hex_fixed(n / 16, (w - 1) as nat)[i]);
    }
}

pub proof fn lemma_hexs_val_ser(n: nat, w: nat)
    requires
        n < pow16(w),
    ensures
        hexs_val(ser_hex_fixed(n, w)) == n,
    decreases w,
{
    if w == 0 {
        assert(ser_hex_fixed(n, w) =~= Seq::<u8>::empty());
    } else {
        assert(n / 16 < pow16((w - 1) as nat)) by {
            if n / 16 >= pow16((w - 1) as nat) {
                assert(n >= 16 * (n / 16));
            }
        }
        lemma_hexs_val_ser(n / 16, (w - 1) as nat);
        let t = ser_hex_fixed(n, w);
        assert(t == ser_hex_fixed(n / 16, (w - 1) as nat).push(hex_digit_of((n % 16) as int)));
        assert(t.drop_last() =~= ser_hex_fixed(n / 16, (w - 1) as nat));
        assert(t.last() == hex_digit_of((n % 16) as int));
        assert(hex_val(hex_digit_of((n % 16) as int)) == n % 16);
        assert(hexs_val(t) == (n / 16) * 16 + n % 16);
    }
}

/// Appends the fixed-width lowercase hexadecimal form of `n`.
pub fn write_hex_fixed(out: &mut Vec<u8>, n: u64, width: usize)
    ensures
        final(out)@ == old(out)@ + ser_hex_fixed(n as nat, width as nat),
    decreases width,
{
    if width == 0 {
        proof {
            assert(final(out)@ =~= old(out)@ + ser_hex_fixed(n as nat, width as nat));
        }
    } else {
        write_hex_fixed(out, n / 16, width - 1);
        let d: u8 = (n % 16) as u8;
        if d < 10 {
            out.push(0x30 + d);
        } else {
            out.push(0x57 + d);
        }
        proof {
            assert(final(out)@ =~= old(out)@ + ser_hex_fixed(n as nat, width as nat));
        }
    }
}

/// Reads exactly `width` lowercase hexadecimal digits. Whatever else it
/// does, it reads the fixed-width form of every `n` that fits the width.
pub fn parse_hex_fixed(s: &Vec<u8>, pos: usize, width: usize) -> (r: Option<(u64, usize)>)
    requires
        pos <= s@.len(),
        width <= 12,
    ensures
        r matches Some(pr) ==> pr.1 == pos + width && pos + width <= s@.len() && pr.0 < pow16(
            width as nat,
        ),
        forall|n: u64|
            n < pow16(width as nat) && text_at(s@, pos as int, ser_hex_fixed(n as nat, width as nat))
                ==> r == Some((n, (pos + width) as usize)),
{
    proof {
        lemma_pow16_vals();
    }
    if s.len() - pos < width {
        proof {
            assert forall|n: u64|
                n < pow16(width as nat) && text_at(
                    s@,
                    pos as int,
                    ser_hex_fixed(n as nat, width as nat),
                ) implies false by {
                lemma_ser_hex_digits(n as nat, width as nat);
            }
        }
        return None;
    }
    let mut j: usize = 0;
    let mut acc: u64 = 0;
    while j < width
        invariant
            0 <= j <= width,
            width <= 12,
            pos + width <= usize::MAX,
            pos + width <= s@.len(),
            acc as int == hexs_val(s@.subrange(pos as int, pos + j)),
            acc < pow16(j as nat),
        decreases width - j,
    {
        let b: u8 = s[pos + j];
        let v: u8 = if 0x30 <= b && b <= 0x39 {
            b - 0x30
        } else if 0x61 <= b && b <= 0x66 {
            b - 0x57
        } else {
            // not a hexadecimal digit, so no value's form stands here
            proof {
                assert forall|n: u64|
                    n < pow16(width as nat) && text_at(
                        s@,
                        pos as int,
                        ser_hex_fixed(n as nat, width as nat),
                    ) implies false by {
                    lemma_ser_hex_digits(n as nat, width as nat);
                    assert(s@[pos + j] == ser_hex_fixed(n as nat, width as nat)[j as int]);
                }
            }
            return None;
        };
        proof {
            lemma_pow16_vals();
            lemma_pow16_mono(j as nat, 11);
            assert(pow16(12) == 16 * pow16(11));
            assert(pow16((j + 1) as nat) == 16 * pow16(j as nat));
            assert(s@.subrange(pos as int, pos + j + 1).drop_last() =~= s@.subrange(
                pos as int,
                pos + j,
            ));
            assert(hexs_val(s@.subrange(pos as int, pos + j + 1)) == acc as int * 16 + hex_val(
                s@[pos + j],
            ));
        }
        acc = acc * 16 + v as u64;
        j = j + 1;
    }
    proof {
        assert forall|n: u64|
            n < pow16(width as nat) && text_at(
                s@,
                pos as int,
                ser_hex_fixed(n as nat, width as nat),
            ) implies acc == n by {
            lemma_ser_hex_digits(n as nat, width as nat);
            assert(s@.subrange(pos as int, pos + width) =~= ser_hex_fixed(n as nat, width as nat));
            lemma_hexs_val_ser(n as nat, width as nat);
        }
    }
    Some((acc, pos + width))
}

pub proof fn lemma_pow16_mono(a: nat, b: nat)
    requires
        a <= b,
    ensures
        pow16(a) <= pow16(b),
    decreases b,
{
    if a < b {
        lemma_pow16_mono(a, (b - 1) as nat);
        assert(pow16(b) == 16 * pow16((b - 1) as nat));
        assert(pow16((b - 1) as nat) >= 1) by {
            lemma_pow16_pos((b - 1) as nat);
        }
    }
}

pub proof fn lemma_pow16_pos(w: nat)
    ensures
        pow16(w) >= 1,
    decreases w,
{
    if w > 0 {
        lemma_pow16_pos((w - 1) as nat);
    }
}

/// When one text stands somewhere, both of its halves stand there in turn.
pub proof fn lemma_text_at_split<T>(s: Seq<T>, pos: int, a: Seq<T>, b: Seq<T>)
    requires
        text_at(s, pos, a + b),
    ensures
        text_at(s, pos, a),
        text_at(s, pos + a.len(), b),
{
    assert forall|j: int| 0 <= j < a.len() implies s[pos + j] == a[j] by {
        assert((a + b)[j] == s.subrange(pos, pos + (a + b).len() as int)[j]);
    }
    assert forall|j: int| 0 <= j < b.len() implies s[pos + a.len() + j] == b[j] by {
        assert((a + b)[a.len() + j] == s.subrange(pos, pos + (a + b).len() as int)[a.len() + j]);
    }
    assert(s.subrange(pos, pos + a.len() as int) =~= a);
    assert(s.subrange(pos + a.len(), pos + a.len() + b.len() as int) =~= b);
}

pub proof fn lemma_text_at_index<T>(s: Seq<T>, pos: int, t: Seq<T>, k: int)
    requires
        text_at(s, pos, t),
        0 <= k < t.len(),
    ensures
        s[pos + k] == t[k],
{
    assert(t[k] == s.subrange(pos, pos + t.len() as int)[k]);
}

/// The bytes a character contributes to a JSON string: printable basic
/// characters stand for themselves; quotes, backslashes, control characters
/// and everything beyond the basic range are escaped, the last of these as
/// one or two hexadecimal escapes.
pub open spec fn esc_char(c: char) -> Seq<u8> {
    let u = c as u32;
    if c == '"' {
        seq![0x5Cu8, 0x22u8]
    } else if c == '\\' {
        seq![0x5Cu8, 0x5Cu8]
    } else if 0x20 <= u < 0x80 {
        seq![u as u8]
    } else if u < 0x10000 {
        seq![0x5Cu8, 0x75u8] + ser_hex_fixed(u as nat, 4)
    } else {
        seq![0x5Cu8, 0x75u8] + ser_hex_fixed((0xD800 + (u - 0x10000) / 0x400) as nat, 4)
            + seq![0x5Cu8, 0x75u8] + ser_hex_fixed((0xDC00 + (u - 0x10000) % 0x400) as nat, 4)
    }
}

/// The bytes between the quotes of a JSON string.
pub open spec fn ser_str_body(t: Seq<char>) -> Seq<u8>
    decreases t,
{
    if t.len() == 0 {
        Seq::empty()
    } else {
        esc_char(t[0]) + ser_str_body(t.drop_first())
    }
}

/// A JSON string: the escaped characters between two quotes.
pub open spec fn ser_jstring(t: Seq<char>) -> Seq<u8> {
    seq![0x22u8] + ser_str_body(t) + seq![0x22u8]
}

pub proof fn lemma_ser_str_body_push(t: Seq<char>, c: char)
    ensures
        ser_str_body(t.push(c)) == ser_str_body(t) + esc_char(c),
    decreases t.len(),
{
    if t.len() == 0 {
        let tp = t.push(c);
        assert(tp.len() == 1);
        assert(tp[0] == c);
        assert(tp.drop_first() =~= Seq::<char>::empty());
        assert(ser_str_body(tp) == esc_char(tp[0]) + ser_str_body(tp.drop_first()));
        assert(ser_str_body(Seq::<char>::empty()) == Seq::<u8>::empty());
        assert(ser_str_body(t) == Seq::<u8>::empty());
        assert(esc_char(c) + Seq::<u8>::empty() =~= esc_char(c));
        assert(Seq::<u8>::empty() + esc_char(c) =~= esc_char(c));
    } else {
        assert(t.push(c)[0] == t[0]);
        assert(t.push(c).drop_first() =~= t.drop_first().push(c));
        lemma_ser_str_body_push(t.drop_first(), c);
        assert(esc_char(t[0]) + (ser_str_body(t.drop_first()) + esc_char(c)) =~= (esc_char(t[0])
            + ser_str_body(t.drop_first())) + esc_char(c));
    }
}

/// Appends the escape form of one character.
pub fn write_char_esc(out: &mut Vec<u8>, c: char)
    ensures
        final(out)@ == old(out)@ + esc_char(c),
{
    let u: u32 = c as u32;
    if c == '"' {
        out.push(0x5C);
        out.push(0x22);
        proof {
            assert(final(out)@ =~= old(out)@ + esc_char(c));
        }
    } else if c == '\\' {
        out.push(0x5C);
        out.push(0x5C);
        proof {
            assert(final(out)@ =~= old(out)@ + esc_char(c));
        }
    } else if 0x20 <= u && u < 0x80 {
        out.push(u as u8);
        proof {
            assert(final(out)@ =~= old(out)@ + esc_char(c));
        }
    } else if u < 0x10000 {
        out.push(0x5C);
        out.push(0x75);
        write_hex_fixed(out, u as u64, 4);
        proof {
            lemma_pow16_vals();
            assert(final(out)@ =~= old(out)@ + esc_char(c));
        }
    } else {
        let v: u32 = u - 0x10000;
        let hi: u32 = 0xD800 + v / 0x400;
        let lo: u32 = 0xDC00 + v % 0x400;
        out.push(0x5C);
        out.push(0x75);
        write_hex_fixed(out, hi as u64, 4);
        out.push(0x5C);
        out.push(0x75);
        write_hex_fixed(out, lo as u64, 4);
        proof {
            lemma_pow16_vals();
            assert(final(out)@ =~= old(out)@ + esc_char(c));
        }
    }
}

/// Characters are the code points outside the surrogate range; equal codes
/// mean equal characters.
pub proof fn lemma_char_code(a: char, b: char)
    requires
        a as u32 == b as u32,
    ensures
        a == b,
{
}

/// What a first byte other than a backslash says: the character stands for
/// itself.
proof fn lemma_esc_bare(s: Seq<u8>, i: int, c: char)
    requires
        text_at(s, i, esc_char(c)),
        i < s.len(),
        s[i] != 0x5C,
    ensures
        esc_char(c).len() == 1,
        c as u32 == s[i],
        0x20 <= s[i] < 0x80,
        s[i] != 0x22,
{
    lemma_esc_one(s, i, c);
    let u = c as u32;
    if c == '"' || c == '\\' {
        assert(s[i] == esc_char(c)[0]);
        assert(false);
    } else if 0x20 <= u && u < 0x80 {
        assert(s[i] == esc_char(c)[0]);
        assert(esc_char(c)[0] == u as u8);
        if s[i] == 0x22 {
            lemma_char_code(c, '"');
        }
    } else {
        assert(s[i] == esc_char(c)[0]);
        assert(false);
    }
}

/// What a backslash followed by `u` says: a basic escape of the character's
/// own code, or a surrogate pair recombining to it.
proof fn lemma_esc_bslash_u(s: Seq<u8>, i: int, c: char)
    requires
        text_at(s, i, esc_char(c)),
        i + 1 < s.len(),
        s[i] == 0x5C,
        s[i + 1] == 0x75,
    ensures
        (c as u32) < 0x10000 ==> (!(0xD800 <= (c as u32) && (c as u32) <= 0xDFFF) && text_at(
            s,
            i + 2,
            ser_hex_fixed((c as u32) as nat, 4),
        ) && esc_char(c).len() == 6 && !(0x20 <= (c as u32) && (c as u32) < 0x80)),
        (c as u32) >= 0x10000 ==> (text_at(
            s,
            i + 2,
            ser_hex_fixed((0xD800 + ((c as u32) - 0x10000) / 0x400) as nat, 4),
        ) && s[i + 6] == 0x5C && s[i + 7] == 0x75 && text_at(
            s,
            i + 8,
            ser_hex_fixed((0xDC00 + ((c as u32) - 0x10000) % 0x400) as nat, 4),
        ) && esc_char(c).len() == 12 && 0xD800 + ((c as u32) - 0x10000) / 0x400 <= 0xDBFF && 0xDC00
            + ((c as u32) - 0x10000) % 0x400 <= 0xDFFF && 0x10000 + (((0xD800 + ((c as u32)
            - 0x10000) / 0x400) - 0xD800) * 0x400) + ((0xDC00 + ((c as u32) - 0x10000) % 0x400)
            - 0xDC00) == c as u32),
{
    lemma_esc_one(s, i, c);
    let u = c as u32;
    if c == '"' || c == '\\' {
        assert(s[i + 1] == esc_char(c)[1]);
        assert(false);
    } else if 0x20 <= u && u < 0x80 {
        assert(s[i] == esc_char(c)[0]);
        assert(esc_char(c)[0] == u as u8);
        lemma_char_code(c, '\\');
        assert(false);
    }
}

/// What a backslash followed by anything but `u` says: one of the two
/// two-byte escapes.
proof fn lemma_esc_bslash_other(s: Seq<u8>, i: int, c: char)
    requires
        text_at(s, i, esc_char(c)),
        i + 1 < s.len(),
        s[i] == 0x5C,
        s[i + 1] != 0x75,
    ensures
        s[i + 1] == 0x22 ==> c == '"' && esc_char(c).len() == 2,
        s[i + 1] == 0x5C ==> c == '\\' && esc_char(c).len() == 2,
        s[i + 1] == 0x22 || s[i + 1] == 0x5C,
{
    lemma_esc_one(s, i, c);
    let u = c as u32;
    if c == '"' {
        assert(s[i + 1] == esc_char(c)[1]);
    } else if c == '\\' {
        assert(s[i + 1] == esc_char(c)[1]);
    } else if 0x20 <= u && u < 0x80 {
        assert(s[i] == esc_char(c)[0]);
        assert(esc_char(c)[0] == u as u8);
        lemma_char_code(c, '\\');
        assert(false);
    } else {
        assert(s[i + 1] == esc_char(c)[1]);
        assert(false);
    }
}

/// A leading backslash belongs to an escape of at least two bytes.
proof fn lemma_esc_bslash_end(s: Seq<u8>, i: int, c: char)
    requires
        text_at(s, i, esc_char(c)),
        i < s.len(),
        s[i] == 0x5C,
    ensures
        esc_char(c).len() >= 2,
{
    lemma_esc_one(s, i, c);
    let u = c as u32;
    if 0x20 <= u && u < 0x80 && c != '"' && c != '\\' {
        assert(s[i] == esc_char(c)[0]);
        assert(esc_char(c)[0] == u as u8);
        lemma_char_code(c, '\\');
    }
}

/// Reads one character of a JSON string, escaped or bare. Whatever else it
/// does, it reads the escape form of `c` wherever that form stands at `i`.
pub fn parse_one_char(s: &Vec<u8>, i: usize) -> (r: Option<(char, usize)>)
    requires
        i <= s@.len(),
    ensures
        r matches Some(pr) ==> i < pr.1 <= s@.len(),
        forall|c: char|
            text_at(s@, i as int, esc_char(c)) ==> r == Some(
                (c, (i + esc_char(c).len()) as usize),
            ),
{
    proof {
        lemma_pow16_vals();
    }
    if i >= s.len() {
        proof {
            assert forall|c: char| text_at(s@, i as int, esc_char(c)) implies false by {
                lemma_esc_char_len(c);
            }
        }
        return None;
    }
    let b: u8 = s[i];
    if b == 0x5C {
        if i + 1 >= s.len() {
            proof {
                assert forall|c: char| text_at(s@, i as int, esc_char(c)) implies false by {
                    lemma_esc_bslash_end(s@, i as int, c);
                }
            }
            return None;
        }
        let b2: u8 = s[i + 1];
        if b2 == 0x22 {
            proof {
                assert forall|c: char|
                    text_at(s@, i as int, esc_char(c)) implies c == '"' && esc_char(c).len()
                    == 2 by {
                    if s@[i + 1] == 0x75 {
                        assert(false);
                    }
                    lemma_esc_bslash_other(s@, i as int, c);
                }
            }
            Some(('"', i + 2))
        } else if b2 == 0x5C {
            proof {
                assert forall|c: char|
                    text_at(s@, i as int, esc_char(c)) implies c == '\\' && esc_char(c).len()
                    == 2 by {
                    lemma_esc_bslash_other(s@, i as int, c);
                }
            }
            Some(('\\', i + 2))
        } else if b2 == 0x75 {
            let inner = parse_hex_fixed(s, i + 2, 4);
            match inner {
                Some((h1, p1)) => {
                    if 0xD800 <= h1 && h1 <= 0xDBFF {
                        if p1 < s.len() && p1 + 1 < s.len() && s[p1] == 0x5C && s[p1 + 1] == 0x75 {
                            let inner2 = parse_hex_fixed(s, p1 + 2, 4);
                            match inner2 {
                                Some((h2, p2)) => {
                                    if 0xDC00 <= h2 && h2 <= 0xDFFF {
                                        let code: u32 = 0x10000 + ((h1 as u32 - 0xD800) * 0x400)
                                            + (h2 as u32 - 0xDC00);
                                        match char::from_u32(code) {
                                            Some(c0) => {
                                                proof {
                                                    assert forall|c: char|
                                                        text_at(s@, i as int, esc_char(c)) implies c
                                                        == c0 && esc_char(c).len() == 12 by {
                                                        lemma_esc_bslash_u(s@, i as int, c);
                                                        let u = c as u32;
                                                        if u < 0x10000 {
                                                            assert(h1 == u);
                                                            assert(false);
                                                        } else {
                                                            assert(h1 == 0xD800 + (u - 0x10000)
                                                                / 0x400);
                                                            assert(h2 == 0xDC00 + (u - 0x10000)
                                                                % 0x400);
                                                            assert(code == u);
                                                            lemma_char_code(c, c0);
                                                        }
                                                    }
                                                }
                                                Some((c0, p2))
                                            },
                                            None => {
                                                proof {
                                                    assert(0x10000 <= code <= 0x10FFFF);
                                                    assert(false);
                                                }
                                                None
                                            },
                                        }
                                    } else {
                                        proof {
                                            assert forall|c: char|
                                                text_at(s@, i as int, esc_char(c)) implies false by {
                                                lemma_esc_bslash_u(s@, i as int, c);
                                                let u = c as u32;
                                                if u < 0x10000 {
                                                    assert(h1 == u);
                                                } else {
                                                    assert(h2 == 0xDC00 + (u - 0x10000) % 0x400);
                                                }
                                            }
                                        }
                                        None
                                    }
                                },
                                None => {
                                    proof {
                                        assert forall|c: char|
                                            text_at(s@, i as int, esc_char(c)) implies false by {
                                            lemma_esc_bslash_u(s@, i as int, c);
                                            let u = c as u32;
                                            if u < 0x10000 {
                                                assert(h1 == u);
                                            }
                                        }
                                    }
                                    None
                                },
                            }
                        } else {
                            proof {
                                assert forall|c: char|
                                    text_at(s@, i as int, esc_char(c)) implies false by {
                                    lemma_esc_bslash_u(s@, i as int, c);
                                    let u = c as u32;
                                    if u < 0x10000 {
                                        assert(h1 == u);
                                    } else {
                                        assert(h1 == 0xD800 + (u - 0x10000) / 0x400);
                                        lemma_ser_hex_digits(
                                            (0xDC00 + (u - 0x10000) % 0x400) as nat,
                                            4,
                                        );
                                        assert(p1 == i + 6);
                                        assert(s@[p1 as int] == 0x5C);
                                        assert(s@[p1 + 1] == 0x75);
                                        assert(p1 + 2 + 4 <= s@.len());
                                    }
                                }
                            }
                            None
                        }
                    } else if 0xDC00 <= h1 && h1 <= 0xDFFF {
                        proof {
                            assert forall|c: char|
                                text_at(s@, i as int, esc_char(c)) implies false by {
                                lemma_esc_bslash_u(s@, i as int, c);
                                let u = c as u32;
                                if u < 0x10000 {
                                    assert(h1 == u);
                                } else {
                                    assert(h1 == 0xD800 + (u - 0x10000) / 0x400);
                                }
                            }
                        }
                        None
                    } else {
                        match char::from_u32(h1 as u32) {
                            Some(c0) => {
                                proof {
                                    assert forall|c: char|
                                        text_at(s@, i as int, esc_char(c)) implies c == c0
                                        && esc_char(c).len() == 6 by {
                                        lemma_esc_bslash_u(s@, i as int, c);
                                        let u = c as u32;
                                        if u < 0x10000 {
                                            assert(h1 == u);
                                            lemma_char_code(c, c0);
                                        } else {
                                            assert(h1 == 0xD800 + (u - 0x10000) / 0x400);
                                        }
                                    }
                                }
                                Some((c0, p1))
                            },
                            None => {
                                proof {
                                    assert(h1 < 0x10000);
                                    assert(false);
                                }
                                None
                            },
                        }
                    }
                },
                None => {
                    proof {
                        assert forall|c: char| text_at(s@, i as int, esc_char(c)) implies false by {
                            lemma_esc_bslash_u(s@, i as int, c);
                            let u = c as u32;
                            if u < 0x10000 {
                                assert(text_at(s@, i + 2, ser_hex_fixed(u as nat, 4)));
                            } else {
                                assert(text_at(
                                    s@,
                                    i + 2,
                                    ser_hex_fixed((0xD800 + (u - 0x10000) / 0x400) as nat, 4),
                                ));
                            }
                        }
                    }
                    None
                },
            }
        } else {
            proof {
                assert forall|c: char| text_at(s@, i as int, esc_char(c)) implies false by {
                    lemma_esc_bslash_other(s@, i as int, c);
                }
            }
            None
        }
    } else if 0x20 <= b && b < 0x80 && b != 0x22 {
        let c0: char = b as char;
        proof {
            assert forall|c: char| text_at(s@, i as int, esc_char(c)) implies c == c0 && esc_char(
                c,
            ).len() == 1 by {
                lemma_esc_bare(s@, i as int, c);
                lemma_char_code(c, c0);
            }
        }
        Some((c0, i + 1))
    } else {
        proof {
            assert forall|c: char| text_at(s@, i as int, esc_char(c)) implies false by {
                lemma_esc_bare(s@, i as int, c);
            }
        }
        None
    }
}

pub proof fn lemma_esc_char_len(c: char)
    ensures
        1 <= esc_char(c).len() <= 12,
        esc_char(c)[0] != 0x22,
{
    lemma_pow16_vals();
    let u = c as u32;
    if c == '"' {
    } else if c == '\\' {
    } else if 0x20 <= u < 0x80 {
        assert(u != 0x22);
    } else if u < 0x10000 {
        lemma_ser_hex_digits(u as nat, 4);
    } else {
        lemma_ser_hex_digits((0xD800 + (u - 0x10000) / 0x400) as nat, 4);
        lemma_ser_hex_digits((0xDC00 + (u - 0x10000) % 0x400) as nat, 4);
    }
}

/// The bytes of one character's escape form pin the character down: what
/// the bytes at `pos` say about `c`, per shape of the form.
proof fn lemma_esc_one(s: Seq<u8>, pos: int, c: char)
    requires
        text_at(s, pos, esc_char(c)),
    ensures
        pos + esc_char(c).len() <= s.len(),
        1 <= esc_char(c).len() <= 12,
        c == '"' ==> (esc_char(c) =~= seq![0x5Cu8, 0x22u8]),
        c == '\\' ==> (esc_char(c) =~= seq![0x5Cu8, 0x5Cu8]),
        (c != '"' && c != '\\' && 0x20 <= (c as u32) && (c as u32) < 0x80) ==> (esc_char(c) =~= seq![(c as u32) as u8]),
        (c != '"' && c != '\\' && !(0x20 <= (c as u32) && (c as u32) < 0x80) && (c as u32) < 0x10000) ==> (s[pos]
            == 0x5C && s[pos + 1] == 0x75 && text_at(
            s,
            pos + 2,
            ser_hex_fixed((c as u32) as nat, 4),
        ) && esc_char(c).len() == 6 && !(0xD800 <= (c as u32) && (c as u32) <= 0xDFFF)),
        (c as u32) >= 0x10000 ==> (s[pos] == 0x5C && s[pos + 1] == 0x75 && text_at(
            s,
            pos + 2,
            ser_hex_fixed((0xD800 + ((c as u32) - 0x10000) / 0x400) as nat, 4),
        ) && s[pos + 6] == 0x5C && s[pos + 7] == 0x75 && text_at(
            s,
            pos + 8,
            ser_hex_fixed((0xDC00 + ((c as u32) - 0x10000) % 0x400) as nat, 4),
        ) && esc_char(c).len() == 12 && 0xD800 + ((c as u32) - 0x10000) / 0x400 <= 0xDBFF
            && 0xDC00 + ((c as u32) - 0x10000) % 0x400 <= 0xDFFF && (c as u32) <= 0x10FFFF
            && 0x10000 + (((0xD800 + ((c as u32) - 0x10000) / 0x400) - 0xD800) * 0x400) + ((0xDC00 + (
            (c as u32) - 0x10000) % 0x400) - 0xDC00) == c as u32),
        forall|k: int| 0 <= k < esc_char(c).len() ==> s[pos + k] == esc_char(c)[k],
{
    lemma_pow16_vals();
    lemma_esc_char_len(c);
    assert forall|k: int| 0 <= k < esc_char(c).len() implies s[pos + k] == esc_char(c)[k] by {
        lemma_text_at_index(s, pos, esc_char(c), k);
    }
    let u = c as u32;
    if c == '"' {
    } else if c == '\\' {
    } else if 0x20 <= u < 0x80 {
    } else if u < 0x10000 {
        lemma_ser_hex_digits(u as nat, 4);
        let t = seq![0x5Cu8, 0x75u8] + ser_hex_fixed(u as nat, 4);
        assert(esc_char(c) == t);
        lemma_text_at_split(s, pos, seq![0x5Cu8, 0x75u8], ser_hex_fixed(u as nat, 4));
    } else {
        let hi = (0xD800 + (u - 0x10000) / 0x400) as nat;
        let lo = (0xDC00 + (u - 0x10000) % 0x400) as nat;
        lemma_ser_hex_digits(hi, 4);
        lemma_ser_hex_digits(lo, 4);
        let a = seq![0x5Cu8, 0x75u8] + ser_hex_fixed(hi, 4);
        let b = seq![0x5Cu8, 0x75u8] + ser_hex_fixed(lo, 4);
        assert(esc_char(c) == seq![0x5Cu8, 0x75u8] + ser_hex_fixed(hi, 4) + seq![0x5Cu8, 0x75u8]
            + ser_hex_fixed(lo, 4));
        assert(esc_char(c) =~= a + b);
        lemma_text_at_split(s, pos, a, b);
        lemma_text_at_split(s, pos, seq![0x5Cu8, 0x75u8], ser_hex_fixed(hi, 4));
        assert(text_at(s, pos + 6, b));
        lemma_text_at_split(s, pos + 6, seq![0x5Cu8, 0x75u8], ser_hex_fixed(lo, 4));
        assert(s[pos] == a[0]);
        assert(s[pos + 1] == a[1]);
        assert(s[pos + 6] == b[0]);
        assert(s[pos + 7] == b[1]);
        assert((u - 0x10000) / 0x400 <= 0x3FF) by {
            assert(u <= 0x10FFFF);
            assert(u - 0x10000 <= 0xFFFFF);
            if (u - 0x10000) / 0x400 > 0x3FF {
                assert(u - 0x10000 >= 0x400 * ((u - 0x10000) / 0x400));
            }
        }
    }
}

/// Reads the rest of a JSON string after the opening quote, appending the
/// characters read; on success the position after the closing quote comes
/// back. Whatever else it does, it reads the full body-and-quote form of
/// every `t`.
pub fn parse_str_rest(s: &Vec<u8>, i: usize, out: &mut String) -> (r: Option<usize>)
    requires
        i <= s@.len(),
    ensures
        r matches Some(p) ==> i < p <= s@.len(),
        forall|t: Seq<char>| #[trigger]
            text_at(s@, i as int, ser_str_body(t) + seq![0x22u8]) ==> r == Some(
                ((i + ser_str_body(t).len() + 1) as usize),
            ) && final(out)@ == old(out)@ + t,
    decreases s@.len() - i,
{
    if i >= s.len() {
        proof {
            assert forall|t: Seq<char>| #[trigger]
                text_at(s@, i as int, ser_str_body(t) + seq![0x22u8]) implies false by {
                assert((ser_str_body(t) + seq![0x22u8]).len() >= 1);
            }
        }
        return None;
    }
    if s[i] == 0x22 {
        proof {
            assert forall|t: Seq<char>| #[trigger]
                text_at(s@, i as int, ser_str_body(t) + seq![0x22u8]) implies t
                =~= Seq::<char>::empty() by {
                if t.len() > 0 {
                    lemma_esc_char_len(t[0]);
                    lemma_text_at_index(s@, i as int, ser_str_body(t) + seq![0x22u8], 0);
                    assert((ser_str_body(t) + seq![0x22u8])[0] == esc_char(t[0])[0]);
                    assert(false);
                }
            }
            assert(old(out)@ + Seq::<char>::empty() =~= old(out)@);
            assert(ser_str_body(Seq::<char>::empty()) == Seq::<u8>::empty());
        }
        return Some(i + 1);
    }
    match parse_one_char(s, i) {
        Some((c, p)) => {
            crate::shims::string_push(out, c);
            let ghost mid = out@;
            let r2 = parse_str_rest(s, p, out);
            proof {
                assert forall|t: Seq<char>| #[trigger]
                    text_at(s@, i as int, ser_str_body(t) + seq![0x22u8]) implies r2 == Some(
                    ((i + ser_str_body(t).len() + 1) as usize),
                ) && out@ == old(out)@ + t by {
                    if t.len() == 0 {
                        lemma_text_at_index(s@, i as int, ser_str_body(t) + seq![0x22u8], 0);
                        assert(s@[i as int] == 0x22);
                        assert(false);
                    } else {
                        assert(ser_str_body(t) == esc_char(t[0]) + ser_str_body(t.drop_first()));
                        assert(ser_str_body(t) + seq![0x22u8] =~= esc_char(t[0]) + (ser_str_body(
                            t.drop_first(),
                        ) + seq![0x22u8]));
                        lemma_text_at_split(
                            s@,
                            i as int,
                            esc_char(t[0]),
                            ser_str_body(t.drop_first()) + seq![0x22u8],
                        );
                        assert(c == t[0] && p == i + esc_char(t[0]).len());
                        assert(text_at(
                            s@,
                            p as int,
                            ser_str_body(t.drop_first()) + seq![0x22u8],
                        ));
                        assert(out@ == mid + t.drop_first());
                        assert(mid == old(out)@.push(t[0]));
                        assert(old(out)@.push(t[0]) + t.drop_first() =~= old(out)@ + t);
                        assert(out@ == old(out)@ + t);
                        assert(r2 == Some(((p + ser_str_body(t.drop_first()).len() + 1) as usize)));
                        assert(ser_str_body(t).len() == esc_char(t[0]).len() + ser_str_body(t.drop_first()).len());
                        assert(i + ser_str_body(t).len() + 1 == p + ser_str_body(t.drop_first()).len() + 1);
                        assert(r2 == Some(((i + ser_str_body(t).len() + 1) as usize)));
                    }
                }
            }
            r2
        },
        None => {
            proof {
                assert forall|t: Seq<char>| #[trigger]
                    text_at(s@, i as int, ser_str_body(t) + seq![0x22u8]) implies false by {
                    if t.len() == 0 {
                        lemma_text_at_index(s@, i as int, ser_str_body(t) + seq![0x22u8], 0);
                        assert(s@[i as int] == 0x22);
                    } else {
                        assert(ser_str_body(t) + seq![0x22u8] =~= esc_char(t[0]) + (ser_str_body(
                            t.drop_first(),
                        ) + seq![0x22u8]));
                        lemma_text_at_split(
                            s@,
                            i as int,
                            esc_char(t[0]),
                            ser_str_body(t.drop_first()) + seq![0x22u8],
                        );
                    }
                }
            }
            None
        },
    }
}

/// Appends the JSON string form of `s`.
pub fn write_jstring(out: &mut Vec<u8>, s: &str)
    ensures
        final(out)@ == old(out)@ + ser_jstring(s@),
{
    out.push(0x22);
    let n = s.unicode_len();
    let mut i: usize = 0;
    proof {
        assert(s@.subrange(0, 0) =~= Seq::<char>::empty());
        assert(out@ =~= old(out)@ + seq![0x22u8] + ser_str_body(s@.subrange(0, 0)));
    }
    while i < n
        invariant
            n == s@.len(),
            i <= n,
            out@ == old(out)@ + seq![0x22u8] + ser_str_body(s@.subrange(0, i as int)),
        decreases n - i,
    {
        let c = s.get_char(i);
        write_char_esc(out, c);
        proof {
            assert(s@.subrange(0, i + 1) =~= s@.subrange(0, i as int).push(s@[i as int]));
            lemma_ser_str_body_push(s@.subrange(0, i as int), s@[i as int]);
            assert(out@ =~= old(out)@ + seq![0x22u8] + ser_str_body(s@.subrange(0, i + 1)));
        }
        i = i + 1;
    }
    out.push(0x22);
    proof {
        assert(s@.subrange(0, n as int) =~= s@);
        assert(final(out)@ =~= old(out)@ + ser_jstring(s@));
    }
}

/// Reads a JSON string. Whatever else it does, it reads the full form of
/// `t` wherever that form stands at `pos`, and hands back its characters.
pub fn parse_jstring(s: &Vec<u8>, pos: usize) -> (r: Option<(String, usize)>)
    requires
        pos <= s@.len(),
    ensures
        r matches Some(pr) ==> pos < pr.1 <= s@.len(),
        forall|t: Seq<char>|
            text_at(s@, pos as int, ser_jstring(t)) ==> (r matches Some(pr) && pr.0@ == t
                && pr.1 == pos + ser_jstring(t).len()),
{
    if pos >= s.len() || s[pos] != 0x22 {
        proof {
            assert forall|t: Seq<char>| text_at(s@, pos as int, ser_jstring(t)) implies false by {
                lemma_text_at_index(s@, pos as int, ser_jstring(t), 0);
            }
        }
        return None;
    }
    let mut out = String::new();
    let r2 = parse_str_rest(s, pos + 1, &mut out);
    match r2 {
        Some(p) => {
            proof {
                assert forall|t: Seq<char>|
                    text_at(s@, pos as int, ser_jstring(t)) implies out@ == t && p == pos
                    + ser_jstring(t).len() by {
                    assert(ser_jstring(t) =~= seq![0x22u8] + (ser_str_body(t) + seq![0x22u8]));
                    lemma_text_at_split(
                        s@,
                        pos as int,
                        seq![0x22u8],
                        ser_str_body(t) + seq![0x22u8],
                    );
                    assert(out@ =~= Seq::<char>::empty() + t);
                }
            }
            Some((out, p))
        },
        None => {
            proof {
                assert forall|t: Seq<char>|
                    text_at(s@, pos as int, ser_jstring(t)) implies false by {
                    assert(ser_jstring(t) =~= seq![0x22u8] + (ser_str_body(t) + seq![0x22u8]));
                    lemma_text_at_split(
                        s@,
                        pos as int,
                        seq![0x22u8],
                        ser_str_body(t) + seq![0x22u8],
                    );
                }
            }
            None
        },
    }
}

/// The canonical JSON text of a value.
pub open spec fn ser_jvalue(v: JView) -> Seq<u8>
    decreases v,
{
    match v {
        JView::Null => seq![0x6Eu8, 0x75u8, 0x6Cu8, 0x6Cu8],
        JView::Bool(b) => if b {
            seq![0x74u8, 0x72u8, 0x75u8, 0x65u8]
        } else {
            seq![0x66u8, 0x61u8, 0x6Cu8, 0x73u8, 0x65u8]
        },
        JView::Int(n) => ser_i64(n as int),
        JView::Str(t) => ser_jstring(t),
        JView::Arr(vs) => seq![0x5Bu8] + ser_arr_items(vs) + seq![0x5Du8],
        JView::Obj(ms) => seq![0x7Bu8] + ser_obj_members(ms) + seq![0x7Du8],
    }
}

/// The elements of a JSON array, separated by commas.
pub open spec fn ser_arr_items(vs: Seq<JView>) -> Seq<u8>
    decreases vs,
{
    if vs.len() == 0 {
        Seq::empty()
    } else if vs.len() == 1 {
        ser_jvalue(vs[0])
    } else {
        ser_jvalue(vs[0]) + seq![0x2Cu8] + ser_arr_items(vs.drop_first())
    }
}

/// The members of a JSON object: quoted key, colon, value, separated by
/// commas.
pub open spec fn ser_obj_members(ms: Seq<(Seq<char>, JView)>) -> Seq<u8>
    decreases ms,
{
    if ms.len() == 0 {
        Seq::empty()
    } else if ms.len() == 1 {
        ser_jstring(ms[0].0) + seq![0x3Au8] + ser_jvalue(ms[0].1)
    } else {
        ser_jstring(ms[0].0) + seq![0x3Au8] + ser_jvalue(ms[0].1) + seq![0x2Cu8]
            + ser_obj_members(ms.drop_first())
    }
}

pub proof fn lemma_jviews_of_push(s: Seq<JValue>, v: JValue)
    ensures
        jviews_of(s.push(v)) == jviews_of(s) + seq![jview_of(v)],
    decreases s.len(),
{
    if s.len() == 0 {
        let sp = s.push(v);
        assert(sp.len() == 1);
        assert(sp[0] == v);
        assert(sp.drop_first() =~= Seq::<JValue>::empty());
        assert(jviews_of(sp) == seq![jview_of(sp[0])] + jviews_of(sp.drop_first()));
        assert(jviews_of(Seq::<JValue>::empty()) == Seq::<JView>::empty());
        assert(jviews_of(s) == Seq::<JView>::empty());
        assert(jviews_of(sp) =~= jviews_of(s) + seq![jview_of(v)]);
    } else {
        assert(s.push(v)[0] == s[0]);
        assert(s.push(v).drop_first() =~= s.drop_first().push(v));
        lemma_jviews_of_push(s.drop_first(), v);
        assert(seq![jview_of(s[0])] + (jviews_of(s.drop_first()) + seq![jview_of(v)])
            =~= (seq![jview_of(s[0])] + jviews_of(s.drop_first())) + seq![jview_of(v)]);
    }
}

pub proof fn lemma_jmembers_of_push(s: Seq<(String, JValue)>, k: String, v: JValue)
    ensures
        jmembers_of(s.push((k, v))) == jmembers_of(s) + seq![(k@, jview_of(v))],
    decreases s.len(),
{
    if s.len() == 0 {
        let sp = s.push((k, v));
        assert(sp.len() == 1);
        assert(sp[0] == (k, v));
        assert(sp.drop_first() =~= Seq::<(String, JValue)>::empty());
        assert(jmembers_of(sp) == seq![(sp[0].0@, jview_of(sp[0].1))] + jmembers_of(
            sp.drop_first(),
        ));
        assert(jmembers_of(Seq::<(String, JValue)>::empty()) == Seq::<(Seq<char>, JView)>::empty());
        assert(jmembers_of(s) == Seq::<(Seq<char>, JView)>::empty());
        assert(jmembers_of(sp) =~= jmembers_of(s) + seq![(k@, jview_of(v))]);
    } else {
        assert(s.push((k, v))[0] == s[0]);
        assert(s.push((k, v)).drop_first() =~= s.drop_first().push((k, v)));
        lemma_jmembers_of_push(s.drop_first(), k, v);
        assert(seq![(s[0].0@, jview_of(s[0].1))] + (jmembers_of(s.drop_first()) + seq![
            (k@, jview_of(v)),
        ]) =~= (seq![(s[0].0@, jview_of(s[0].1))] + jmembers_of(s.drop_first())) + seq![
            (k@, jview_of(v)),
        ]);
    }
}

/// Appends the canonical JSON text of the value.
pub fn write_jvalue(out: &mut Vec<u8>, v: &JValue)
    ensures
        final(out)@ == old(out)@ + ser_jvalue(v@),
    decreases v, 0int,
{
    match v {
        JValue::Null => {
            out.push(0x6E);
            out.push(0x75);
            out.push(0x6C);
            out.push(0x6C);
            proof {
                assert(final(out)@ =~= old(out)@ + ser_jvalue(v@));
            }
        },
        JValue::Bool(b) => {
            if *b {
                out.push(0x74);
                out.push(0x72);
                out.push(0x75);
                out.push(0x65);
            } else {
                out.push(0x66);
                out.push(0x61);
                out.push(0x6C);
                out.push(0x73);
                out.push(0x65);
            }
            proof {
                assert(final(out)@ =~= old(out)@ + ser_jvalue(v@));
            }
        },
        JValue::Int(n) => {
            write_i64(out, *n);
        },
        JValue::Str(t) => {
            write_jstring(out, t.as_str());
        },
        JValue::Arr(items) => {
            out.push(0x5B);
            write_arr_items(items, 0, out);
            out.push(0x5D);
            proof {
                assert(items@.subrange(0, items@.len() as int) =~= items@);
                assert(v@ == JView::Arr(jviews_of(items@)));
                assert(final(out)@ =~= old(out)@ + ser_jvalue(v@));
            }
        },
        JValue::Obj(members) => {
            out.push(0x7B);
            write_obj_members(members, 0, out);
            out.push(0x7D);
            proof {
                assert(members@.subrange(0, members@.len() as int) =~= members@);
                assert(v@ == JView::Obj(jmembers_of(members@)));
                assert(final(out)@ =~= old(out)@ + ser_jvalue(v@));
            }
        },
    }
}

/// The values of the elements from `i` on.
pub open spec fn jviews_from(items: Seq<JValue>, i: int) -> Seq<JView> {
    jviews_of(items.subrange(i, items.len() as int))
}

/// Appends the elements of the array from index `i` on, separated by
/// commas.
pub(crate) fn write_arr_items(items: &Vec<JValue>, i: usize, out: &mut Vec<u8>)
    requires
        i <= items@.len(),
    ensures
        final(out)@ == old(out)@ + ser_arr_items(jviews_from(items@, i as int)),
    decreases items, items@.len() - i, 1int,
{
    if i >= items.len() {
        proof {
            assert(items@.subrange(i as int, items@.len() as int) =~= Seq::<JValue>::empty());
            assert(final(out)@ =~= old(out)@ + ser_arr_items(jviews_from(items@, i as int)));
        }
        return ;
    }
    proof {
        let suf = items@.subrange(i as int, items@.len() as int);
        assert(suf[0] == items@[i as int]);
        assert(suf.drop_first() =~= items@.subrange(i + 1, items@.len() as int));
        assert(jviews_of(suf)[0] == jview_of(items@[i as int]));
    }
    write_jvalue(out, &items[i]);
    if i + 1 < items.len() {
        out.push(0x2C);
        write_arr_items(items, i + 1, out);
        proof {
            let suf = items@.subrange(i as int, items@.len() as int);
            assert(jviews_of(suf).drop_first() =~= jviews_from(items@, i + 1));
            assert(jviews_of(suf).len() >= 2);
            assert(final(out)@ =~= old(out)@ + ser_arr_items(jviews_from(items@, i as int)));
        }
    } else {
        proof {
            let suf = items@.subrange(i as int, items@.len() as int);
            assert(jviews_of(suf).len() == 1) by {
                assert(suf.len() == 1);
                assert(jviews_of(suf.drop_first()).len() == 0);
            }
            assert(final(out)@ =~= old(out)@ + ser_arr_items(jviews_from(items@, i as int)));
        }
    }
}

/// The member values of the object from `i` on.
pub open spec fn jmembers_from(members: Seq<(String, JValue)>, i: int) -> Seq<(Seq<char>, JView)> {
    jmembers_of(members.subrange(i, members.len() as int))
}

/// Appends the members of the object from index `i` on, separated by
/// commas.
pub(crate) fn write_obj_members(members: &Vec<(String, JValue)>, i: usize, out: &mut Vec<u8>)
    requires
        i <= members@.len(),
    ensures
        final(out)@ == old(out)@ + ser_obj_members(jmembers_from(members@, i as int)),
    decreases members, members@.len() - i, 1int,
{
    if i >= members.len() {
        proof {
            assert(members@.subrange(i as int, members@.len() as int) =~= Seq::<(
                String,
                JValue,
            )>::empty());
            assert(final(out)@ =~= old(out)@ + ser_obj_members(jmembers_from(members@, i as int)));
        }
        return ;
    }
    proof {
        let suf = members@.subrange(i as int, members@.len() as int);
        assert(suf[0] == members@[i as int]);
        assert(suf.drop_first() =~= members@.subrange(i + 1, members@.len() as int));
        assert(jmembers_of(suf)[0] == (members@[i as int].0@, jview_of(members@[i as int].1)));
    }
    let pair = &members[i];
    write_jstring(out, pair.0.as_str());
    out.push(0x3A);
    write_jvalue(out, &pair.1);
    if i + 1 < members.len() {
        out.push(0x2C);
        write_obj_members(members, i + 1, out);
        proof {
            let suf = members@.subrange(i as int, members@.len() as int);
            assert(jmembers_of(suf).drop_first() =~= jmembers_from(members@, i + 1));
            assert(jmembers_of(suf).len() >= 2);
            assert(final(out)@ =~= old(out)@ + ser_obj_members(jmembers_from(members@, i as int)));
        }
    } else {
        proof {
            let suf = members@.subrange(i as int, members@.len() as int);
            assert(jmembers_of(suf).len() == 1) by {
                assert(suf.len() == 1);
                assert(jmembers_of(suf.drop_first()).len() == 0);
            }
            assert(final(out)@ =~= old(out)@ + ser_obj_members(jmembers_from(members@, i as int)));
        }
    }
}

/// The first byte of a value's text names its kind.
pub proof fn lemma_ser_jvalue_first(v: JView)
    ensures
        ser_jvalue(v).len() >= 1,
        v is Null ==> (ser_jvalue(v) == seq![0x6Eu8, 0x75u8, 0x6Cu8, 0x6Cu8]),
        v matches JView::Bool(b) && b ==> (ser_jvalue(v) == seq![0x74u8, 0x72u8, 0x75u8, 0x65u8]),
        v matches JView::Bool(b) && !b ==> (ser_jvalue(v) == seq![
            0x66u8,
            0x61u8,
            0x6Cu8,
            0x73u8,
            0x65u8,
        ]),
        v matches JView::Int(n) ==> ser_jvalue(v) == ser_i64(n as int) && (is_digit(ser_jvalue(v)[0])
            || ser_jvalue(v)[0] == 0x2D),
        v is Str ==> ser_jvalue(v)[0] == 0x22,
        v is Arr ==> ser_jvalue(v)[0] == 0x5B,
        v is Obj ==> ser_jvalue(v)[0] == 0x7B,
{
    match v {
        JView::Null => {},
        JView::Bool(b) => {},
        JView::Int(n) => {
            lemma_ser_u64_digits(if n >= 0 {
                n as nat
            } else {
                (-(n as int)) as nat
            });
            if n < 0 {
                assert(ser_i64(n as int)[0] == 0x2D);
            } else {
                assert(ser_i64(n as int)[0] == ser_u64(n as nat)[0]);
            }
        },
        JView::Str(t) => {
            assert(ser_jstring(t)[0] == 0x22);
        },
        JView::Arr(vs) => {
            assert(ser_jvalue(v)[0] == 0x5B);
        },
        JView::Obj(ms) => {
            assert(ser_jvalue(v)[0] == 0x7B);
        },
    }
}

/// Reads one canonical JSON value. Whatever else it does, it reads the
/// canonical text of `v` wherever that text stands at `pos` with no digit
/// directly after it, and hands back an equal value.
pub fn parse_jvalue(s: &Vec<u8>, pos: usize) -> (r: Option<(JValue, usize)>)
    requires
        pos <= s@.len(),
    ensures
        r matches Some(pr) ==> pos < pr.1 <= s@.len(),
        forall|v: JView|
            #[trigger] text_at(s@, pos as int, ser_jvalue(v)) && non_digit_at(
                s@,
                pos + ser_jvalue(v).len(),
            ) ==> (r matches Some(pr) && pr.0@ == v && pr.1 == pos + ser_jvalue(v).len()),
    decreases s@.len() - pos, 0int,
{
    if pos >= s.len() {
        proof {
            assert forall|v: JView| #[trigger] text_at(s@, pos as int, ser_jvalue(v)) implies false by {
                lemma_ser_jvalue_first(v);
            }
        }
        return None;
    }
    let b: u8 = s[pos];
    if b == 0x6E {
        let r: Option<(JValue, usize)> = if s.len() - pos >= 4 && s[pos + 1] == 0x75 && s[pos + 2]
            == 0x6C && s[pos + 3] == 0x6C {
            Some((JValue::Null, pos + 4))
        } else {
            None
        };
        proof {
            assert forall|v: JView|
                #[trigger] text_at(s@, pos as int, ser_jvalue(v)) && non_digit_at(
                    s@,
                    pos + ser_jvalue(v).len(),
                ) implies (r matches Some(pr) && pr.0@ == v && pr.1 == pos + ser_jvalue(v).len()) by {
                lemma_ser_jvalue_first(v);
                assert forall|k: int| 0 <= k < ser_jvalue(v).len() implies s@[pos + k]
                    == ser_jvalue(v)[k] by {
                    lemma_text_at_index(s@, pos as int, ser_jvalue(v), k);
                }
                assert(v is Null);
                assert(jview_of(JValue::Null) == JView::Null);
            }
        }
        r
    } else if b == 0x74 {
        let r: Option<(JValue, usize)> = if s.len() - pos >= 4 && s[pos + 1] == 0x72 && s[pos + 2]
            == 0x75 && s[pos + 3] == 0x65 {
            Some((JValue::Bool(true), pos + 4))
        } else {
            None
        };
        proof {
            assert forall|v: JView|
                #[trigger] text_at(s@, pos as int, ser_jvalue(v)) && non_digit_at(
                    s@,
                    pos + ser_jvalue(v).len(),
                ) implies (r matches Some(pr) && pr.0@ == v && pr.1 == pos + ser_jvalue(v).len()) by {
                lemma_ser_jvalue_first(v);
                assert forall|k: int| 0 <= k < ser_jvalue(v).len() implies s@[pos + k]
                    == ser_jvalue(v)[k] by {
                    lemma_text_at_index(s@, pos as int, ser_jvalue(v), k);
                }
                assert(v == JView::Bool(true));
                assert(jview_of(JValue::Bool(true)) == JView::Bool(true));
            }
        }
        r
    } else if b == 0x66 {
        let r: Option<(JValue, usize)> = if s.len() - pos >= 5 && s[pos + 1] == 0x61 && s[pos + 2]
            == 0x6C && s[pos + 3] == 0x73 && s[pos + 4] == 0x65 {
            Some((JValue::Bool(false), pos + 5))
        } else {
            None
        };
        proof {
            assert forall|v: JView|
                #[trigger] text_at(s@, pos as int, ser_jvalue(v)) && non_digit_at(
                    s@,
                    pos + ser_jvalue(v).len(),
                ) implies (r matches Some(pr) && pr.0@ == v && pr.1 == pos + ser_jvalue(v).len()) by {
                lemma_ser_jvalue_first(v);
                assert forall|k: int| 0 <= k < ser_jvalue(v).len() implies s@[pos + k]
                    == ser_jvalue(v)[k] by {
                    lemma_text_at_index(s@, pos as int, ser_jvalue(v), k);
                }
                assert(v == JView::Bool(false));
                assert(jview_of(JValue::Bool(false)) == JView::Bool(false));
            }
        }
        r
    } else if b == 0x22 {
        let inner = parse_jstring(s, pos);
        let r: Option<(JValue, usize)> = match inner {
            Some((t, p)) => Some((JValue::Str(t), p)),
            None => None,
        };
        proof {
            assert forall|v: JView|
                #[trigger] text_at(s@, pos as int, ser_jvalue(v)) && non_digit_at(
                    s@,
                    pos + ser_jvalue(v).len(),
                ) implies (r matches Some(pr) && pr.0@ == v && pr.1 == pos + ser_jvalue(v).len()) by {
                lemma_ser_jvalue_first(v);
                lemma_text_at_index(s@, pos as int, ser_jvalue(v), 0);
                assert(v is Str);
                let t0 = v->Str_0;
                assert(ser_jvalue(v) == ser_jstring(t0));
                assert(text_at(s@, pos as int, ser_jstring(t0)));
            }
        }
        r
    } else if b == 0x5B {
        if pos + 1 < s.len() && s[pos + 1] == 0x5D {
            let empty_items: Vec<JValue> = Vec::new();
            let rv = JValue::Arr(empty_items);
            proof {
                assert(rv@ == JView::Arr(jviews_of(Seq::<JValue>::empty())));
            }
            let r: Option<(JValue, usize)> = Some((rv, pos + 2));
            proof {
                assert forall|v: JView|
                    #[trigger] text_at(s@, pos as int, ser_jvalue(v)) && non_digit_at(
                        s@,
                        pos + ser_jvalue(v).len(),
                    ) implies (r matches Some(pr) && pr.0@ == v && pr.1 == pos + ser_jvalue(
                    v,
                ).len()) by {
                    lemma_ser_jvalue_first(v);
                    lemma_text_at_index(s@, pos as int, ser_jvalue(v), 0);
                    assert(v is Arr);
                    let vs = v->Arr_0;
                    lemma_text_at_index(s@, pos as int, ser_jvalue(v), 1);
                    if vs.len() > 0 {
                        lemma_ser_jvalue_first(vs[0]);
                        assert(ser_jvalue(v)[1] == ser_arr_items(vs)[0]);
                        assert(ser_arr_items(vs)[0] == ser_jvalue(vs[0])[0]);
                        assert(s@[pos + 1] == ser_jvalue(vs[0])[0]);
                        assert(false);
                    }
                    assert(ser_arr_items(vs) == Seq::<u8>::empty());
                    assert(ser_jvalue(v).len() == 2);
                    assert(jviews_of(Seq::<JValue>::empty()) == Seq::<JView>::empty());
                    assert(vs =~= Seq::<JView>::empty());
                    assert(jviews_of(Seq::<JValue>::empty()) =~= Seq::<JView>::empty());
                }
            }
            r
        } else {
            let mut acc: Vec<JValue> = Vec::new();
            let inner = parse_arr_rest(s, pos + 1, &mut acc);
            let ghost accv = acc@;
            let r: Option<(JValue, usize)> = match inner {
                Some(p) => Some((JValue::Arr(acc), p)),
                None => None,
            };
            proof {
                assert forall|v: JView|
                    #[trigger] text_at(s@, pos as int, ser_jvalue(v)) && non_digit_at(
                        s@,
                        pos + ser_jvalue(v).len(),
                    ) implies (r matches Some(pr) && pr.0@ == v && pr.1 == pos + ser_jvalue(
                    v,
                ).len()) by {
                    lemma_ser_jvalue_first(v);
                    lemma_text_at_index(s@, pos as int, ser_jvalue(v), 0);
                    assert(v is Arr);
                    let vs = v->Arr_0;
                    assert(ser_jvalue(v) =~= seq![0x5Bu8] + (ser_arr_items(vs) + seq![0x5Du8]));
                    lemma_text_at_split(
                        s@,
                        pos as int,
                        seq![0x5Bu8],
                        ser_arr_items(vs) + seq![0x5Du8],
                    );
                    assert(text_at(s@, pos + 1, ser_arr_items(vs) + seq![0x5Du8]));
                    assert(vs.len() > 0) by {
                        if vs.len() == 0 {
                            assert(ser_arr_items(vs) == Seq::<u8>::empty());
                            lemma_text_at_index(s@, pos + 1, ser_arr_items(vs) + seq![0x5Du8], 0);
                            assert(s@[pos + 1] == 0x5D);
                            assert(pos + 2 <= s@.len());
                        }
                    }
                    assert(inner == Some(((pos + 1 + ser_arr_items(vs).len() + 1) as usize)));
                    assert(jviews_of(accv) == jviews_of(Seq::<JValue>::empty()) + vs);
                    assert(jviews_of(Seq::<JValue>::empty()) == Seq::<JView>::empty());
                    assert(jviews_of(accv) =~= vs);
                }
            }
            r
        }
    } else if b == 0x7B {
        if pos + 1 < s.len() && s[pos + 1] == 0x7D {
            let empty_members: Vec<(String, JValue)> = Vec::new();
            let rv = JValue::Obj(empty_members);
            proof {
                assert(rv@ == JView::Obj(jmembers_of(Seq::<(String, JValue)>::empty())));
            }
            let r: Option<(JValue, usize)> = Some((rv, pos + 2));
            proof {
                assert forall|v: JView|
                    #[trigger] text_at(s@, pos as int, ser_jvalue(v)) && non_digit_at(
                        s@,
                        pos + ser_jvalue(v).len(),
                    ) implies (r matches Some(pr) && pr.0@ == v && pr.1 == pos + ser_jvalue(
                    v,
                ).len()) by {
                    lemma_ser_jvalue_first(v);
                    lemma_text_at_index(s@, pos as int, ser_jvalue(v), 0);
                    assert(v is Obj);
                    let ms = v->Obj_0;
                    lemma_text_at_index(s@, pos as int, ser_jvalue(v), 1);
                    if ms.len() > 0 {
                        assert(ser_jvalue(v)[1] == ser_obj_members(ms)[0]);
                        assert(ser_obj_members(ms)[0] == ser_jstring(ms[0].0)[0]);
                        assert(ser_jstring(ms[0].0)[0] == 0x22);
                        assert(false);
                    }
                    assert(ser_obj_members(ms) == Seq::<u8>::empty());
                    assert(ser_jvalue(v).len() == 2);
                    assert(jmembers_of(Seq::<(String, JValue)>::empty()) == Seq::<(
                        Seq<char>,
                        JView,
                    )>::empty());
                    assert(ms =~= Seq::<(Seq<char>, JView)>::empty());
                    assert(jmembers_of(Seq::<(String, JValue)>::empty()) =~= Seq::<(
                        Seq<char>,
                        JView,
                    )>::empty());
                }
            }
            r
        } else {
            let mut acc: Vec<(String, JValue)> = Vec::new();
            let inner = parse_obj_rest(s, pos + 1, &mut acc);
            let ghost accv = acc@;
            let r: Option<(JValue, usize)> = match inner {
                Some(p) => Some((JValue::Obj(acc), p)),
                None => None,
            };
            proof {
                assert forall|v: JView|
                    #[trigger] text_at(s@, pos as int, ser_jvalue(v)) && non_digit_at(
                        s@,
                        pos + ser_jvalue(v).len(),
                    ) implies (r matches Some(pr) && pr.0@ == v && pr.1 == pos + ser_jvalue(
                    v,
                ).len()) by {
                    lemma_ser_jvalue_first(v);
                    lemma_text_at_index(s@, pos as int, ser_jvalue(v), 0);
                    assert(v is Obj);
                    let ms = v->Obj_0;
                    assert(ser_jvalue(v) =~= seq![0x7Bu8] + (ser_obj_members(ms) + seq![0x7Du8]));
                    lemma_text_at_split(
                        s@,
                        pos as int,
                        seq![0x7Bu8],
                        ser_obj_members(ms) + seq![0x7Du8],
                    );
                    assert(text_at(s@, pos + 1, ser_obj_members(ms) + seq![0x7Du8]));
                    assert(ms.len() > 0) by {
                        if ms.len() == 0 {
                            assert(ser_obj_members(ms) == Seq::<u8>::empty());
                            lemma_text_at_index(s@, pos + 1, ser_obj_members(ms) + seq![0x7Du8], 0);
                            assert(s@[pos + 1] == 0x7D);
                            assert(pos + 2 <= s@.len());
                        }
                    }
                    assert(inner == Some(((pos + 1 + ser_obj_members(ms).len() + 1) as usize)));
                    assert(jmembers_of(accv) == jmembers_of(Seq::<(String, JValue)>::empty()) + ms);
                    assert(jmembers_of(Seq::<(String, JValue)>::empty()) == Seq::<(
                        Seq<char>,
                        JView,
                    )>::empty());
                    assert(jmembers_of(accv) =~= ms);
                }
            }
            r
        }
    } else {
        let inner = parse_i64(s, pos);
        let r: Option<(JValue, usize)> = match inner {
            Some((n, p)) => Some((JValue::Int(n), p)),
            None => None,
        };
        proof {
            assert forall|v: JView|
                #[trigger] text_at(s@, pos as int, ser_jvalue(v)) && non_digit_at(
                    s@,
                    pos + ser_jvalue(v).len(),
                ) implies (r matches Some(pr) && pr.0@ == v && pr.1 == pos + ser_jvalue(v).len()) by {
                lemma_ser_jvalue_first(v);
                lemma_text_at_index(s@, pos as int, ser_jvalue(v), 0);
                assert(v is Int);
                let n0 = v->Int_0;
                assert(ser_jvalue(v) == ser_i64(n0 as int));
                assert(text_at(s@, pos as int, ser_i64(n0 as int)));
                assert(jview_of(JValue::Int(n0)) == JView::Int(n0));
            }
        }
        r
    }
}

/// Reads the elements of a non-empty JSON array after the opening bracket,
/// appending the values read; on success the position after the closing
/// bracket comes back.
fn parse_arr_rest(s: &Vec<u8>, i: usize, acc: &mut Vec<JValue>) -> (r: Option<usize>)
    requires
        i <= s@.len(),
    ensures
        r matches Some(p) ==> i < p <= s@.len(),
        forall|vs: Seq<JView>|
            #[trigger] text_at(s@, i as int, ser_arr_items(vs) + seq![0x5Du8]) && vs.len() > 0
                ==> (r == Some(((i + ser_arr_items(vs).len() + 1) as usize)) && jviews_of(
                final(acc)@,
            ) == jviews_of(old(acc)@) + vs),
    decreases s@.len() - i, 1int,
{
    let inner = parse_jvalue(s, i);
    match inner {
        Some((j, p)) => {
            acc.push(j);
            let ghost mid = acc@;
            if p < s.len() && s[p] == 0x2C {
                let r2 = parse_arr_rest(s, p + 1, acc);
                proof {
                    assert forall|vs: Seq<JView>|
                        #[trigger] text_at(s@, i as int, ser_arr_items(vs) + seq![0x5Du8])
                            && vs.len() > 0 implies (r2 == Some(
                        ((i + ser_arr_items(vs).len() + 1) as usize),
                    ) && jviews_of(acc@) == jviews_of(old(acc)@) + vs) by {
                        lemma_arr_step(s@, i as int, vs);
                        assert(j@ == vs[0] && p == i + ser_jvalue(vs[0]).len());
                        if vs.len() == 1 {
                            assert(s@[p as int] == 0x5D);
                            assert(false);
                        }
                        assert(text_at(
                            s@,
                            p + 1,
                            ser_arr_items(vs.drop_first()) + seq![0x5Du8],
                        ));
                        assert(jviews_of(acc@) == jviews_of(mid) + vs.drop_first());
                        lemma_jviews_of_push(old(acc)@, j);
                        assert(jviews_of(mid) == jviews_of(old(acc)@) + seq![vs[0]]);
                        assert((jviews_of(old(acc)@) + seq![vs[0]]) + vs.drop_first()
                            =~= jviews_of(old(acc)@) + vs);
                        assert(ser_arr_items(vs).len() == ser_jvalue(vs[0]).len() + 1
                            + ser_arr_items(vs.drop_first()).len());
                    }
                }
                r2
            } else if p < s.len() && s[p] == 0x5D {
                proof {
                    assert forall|vs: Seq<JView>|
                        #[trigger] text_at(s@, i as int, ser_arr_items(vs) + seq![0x5Du8])
                            && vs.len() > 0 implies (Some(((p + 1) as usize)) == Some(
                        ((i + ser_arr_items(vs).len() + 1) as usize),
                    ) && jviews_of(acc@) == jviews_of(old(acc)@) + vs) by {
                        lemma_arr_step(s@, i as int, vs);
                        assert(j@ == vs[0] && p == i + ser_jvalue(vs[0]).len());
                        if vs.len() > 1 {
                            assert(s@[p as int] == 0x2C);
                            assert(false);
                        }
                        assert(ser_arr_items(vs) == ser_jvalue(vs[0]));
                        lemma_jviews_of_push(old(acc)@, j);
                        assert(jviews_of(acc@) == jviews_of(old(acc)@) + seq![vs[0]]);
                        assert(seq![vs[0]] =~= vs);
                    }
                }
                Some(p + 1)
            } else {
                proof {
                    assert forall|vs: Seq<JView>|
                        #[trigger] text_at(s@, i as int, ser_arr_items(vs) + seq![0x5Du8])
                            && vs.len() > 0 implies false by {
                        lemma_arr_step(s@, i as int, vs);
                        assert(j@ == vs[0] && p == i + ser_jvalue(vs[0]).len());
                        if vs.len() > 1 {
                            assert(s@[p as int] == 0x2C);
                            assert(p < s@.len());
                        } else {
                            assert(s@[p as int] == 0x5D);
                            assert(p < s@.len());
                        }
                    }
                }
                None
            }
        },
        None => {
            proof {
                assert forall|vs: Seq<JView>|
                    #[trigger] text_at(s@, i as int, ser_arr_items(vs) + seq![0x5Du8]) && vs.len()
                        > 0 implies false by {
                    lemma_arr_step(s@, i as int, vs);
                }
            }
            None
        },
    }
}

/// What the text of a non-empty element list at `i` gives: the first
/// element's text stands at `i`, a comma or the closing bracket follows it,
/// and for several elements the rest stands after the comma.
proof fn lemma_arr_step(s: Seq<u8>, i: int, vs: Seq<JView>)
    requires
        text_at(s, i, ser_arr_items(vs) + seq![0x5Du8]),
        vs.len() > 0,
    ensures
        text_at(s, i, ser_jvalue(vs[0])),
        non_digit_at(s, i + ser_jvalue(vs[0]).len()),
        i + ser_jvalue(vs[0]).len() < s.len(),
        vs.len() == 1 ==> s[i + ser_jvalue(vs[0]).len()] == 0x5D && ser_arr_items(vs)
            == ser_jvalue(vs[0]),
        vs.len() > 1 ==> s[i + ser_jvalue(vs[0]).len()] == 0x2C && text_at(
            s,
            i + ser_jvalue(vs[0]).len() + 1,
            ser_arr_items(vs.drop_first()) + seq![0x5Du8],
        ) && ser_arr_items(vs).len() == ser_jvalue(vs[0]).len() + 1 + ser_arr_items(
            vs.drop_first(),
        ).len(),
{
    let l0 = ser_jvalue(vs[0]).len() as int;
    if vs.len() == 1 {
        assert(ser_arr_items(vs) == ser_jvalue(vs[0]));
        lemma_text_at_split(s, i, ser_jvalue(vs[0]), seq![0x5Du8]);
        lemma_text_at_index(s, i + l0, seq![0x5Du8], 0);
    } else {
        assert(ser_arr_items(vs) == ser_jvalue(vs[0]) + seq![0x2Cu8] + ser_arr_items(
            vs.drop_first(),
        ));
        assert(ser_arr_items(vs) + seq![0x5Du8] =~= ser_jvalue(vs[0]) + (seq![0x2Cu8]
            + (ser_arr_items(vs.drop_first()) + seq![0x5Du8])));
        lemma_text_at_split(
            s,
            i,
            ser_jvalue(vs[0]),
            seq![0x2Cu8] + (ser_arr_items(vs.drop_first()) + seq![0x5Du8]),
        );
        lemma_text_at_split(
            s,
            i + l0,
            seq![0x2Cu8],
            ser_arr_items(vs.drop_first()) + seq![0x5Du8],
        );
        lemma_text_at_index(s, i + l0, seq![0x2Cu8], 0);
    }
}

/// Reads the members of a non-empty JSON object after the opening brace,
/// appending the pairs read; on success the position after the closing
/// brace comes back.
fn parse_obj_rest(s: &Vec<u8>, i: usize, acc: &mut Vec<(String, JValue)>) -> (r: Option<usize>)
    requires
        i <= s@.len(),
    ensures
        r matches Some(p) ==> i < p <= s@.len(),
        forall|ms: Seq<(Seq<char>, JView)>|
            #[trigger] text_at(s@, i as int, ser_obj_members(ms) + seq![0x7Du8]) && ms.len() > 0
                ==> (r == Some(((i + ser_obj_members(ms).len() + 1) as usize)) && jmembers_of(
                final(acc)@,
            ) == jmembers_of(old(acc)@) + ms),
    decreases s@.len() - i, 1int,
{
    let key = parse_jstring(s, i);
    match key {
        Some((k, p1)) => {
            if p1 < s.len() && s[p1] == 0x3A {
                let inner = parse_jvalue(s, p1 + 1);
                match inner {
                    Some((j, p2)) => {
                        let ghost kview = k@;
                        acc.push((k, j));
                        let ghost mid = acc@;
                        if p2 < s.len() && s[p2] == 0x2C {
                            let r2 = parse_obj_rest(s, p2 + 1, acc);
                            proof {
                                assert forall|ms: Seq<(Seq<char>, JView)>|
                                    #[trigger] text_at(
                                        s@,
                                        i as int,
                                        ser_obj_members(ms) + seq![0x7Du8],
                                    ) && ms.len() > 0 implies (r2 == Some(
                                    ((i + ser_obj_members(ms).len() + 1) as usize),
                                ) && jmembers_of(acc@) == jmembers_of(old(acc)@) + ms) by {
                                    lemma_obj_step(s@, i as int, ms);
                                    assert(kview == ms[0].0);
                                    assert(j@ == ms[0].1);
                                    let lm = ser_jstring(ms[0].0).len() + 1 + ser_jvalue(
                                        ms[0].1,
                                    ).len();
                                    assert(p2 == i + lm);
                                    if ms.len() == 1 {
                                        assert(s@[p2 as int] == 0x7D);
                                        assert(false);
                                    }
                                    assert(text_at(
                                        s@,
                                        p2 + 1,
                                        ser_obj_members(ms.drop_first()) + seq![0x7Du8],
                                    ));
                                    assert(jmembers_of(acc@) == jmembers_of(mid)
                                        + ms.drop_first());
                                    lemma_jmembers_of_push(old(acc)@, k, j);
                                    assert(jmembers_of(mid) == jmembers_of(old(acc)@) + seq![
                                        ms[0],
                                    ]);
                                    assert((jmembers_of(old(acc)@) + seq![ms[0]])
                                        + ms.drop_first() =~= jmembers_of(old(acc)@) + ms);
                                }
                            }
                            r2
                        } else if p2 < s.len() && s[p2] == 0x7D {
                            proof {
                                assert forall|ms: Seq<(Seq<char>, JView)>|
                                    #[trigger] text_at(
                                        s@,
                                        i as int,
                                        ser_obj_members(ms) + seq![0x7Du8],
                                    ) && ms.len() > 0 implies (Some(((p2 + 1) as usize)) == Some(
                                    ((i + ser_obj_members(ms).len() + 1) as usize),
                                ) && jmembers_of(acc@) == jmembers_of(old(acc)@) + ms) by {
                                    lemma_obj_step(s@, i as int, ms);
                                    assert(kview == ms[0].0);
                                    assert(j@ == ms[0].1);
                                    if ms.len() > 1 {
                                        assert(s@[p2 as int] == 0x2C);
                                        assert(false);
                                    }
                                    lemma_jmembers_of_push(old(acc)@, k, j);
                                    assert(jmembers_of(acc@) == jmembers_of(old(acc)@) + seq![
                                        ms[0],
                                    ]);
                                    assert(seq![ms[0]] =~= ms);
                                }
                            }
                            Some(p2 + 1)
                        } else {
                            proof {
                                assert forall|ms: Seq<(Seq<char>, JView)>|
                                    #[trigger] text_at(
                                        s@,
                                        i as int,
                                        ser_obj_members(ms) + seq![0x7Du8],
                                    ) && ms.len() > 0 implies false by {
                                    lemma_obj_step(s@, i as int, ms);
                                    assert(j@ == ms[0].1);
                                    let lm = ser_jstring(ms[0].0).len() + 1 + ser_jvalue(
                                        ms[0].1,
                                    ).len();
                                    assert(p2 == i + lm);
                                    if ms.len() > 1 {
                                        assert(s@[p2 as int] == 0x2C);
                                    } else {
                                        assert(s@[p2 as int] == 0x7D);
                                    }
                                }
                            }
                            None
                        }
                    },
                    None => {
                        proof {
                            assert forall|ms: Seq<(Seq<char>, JView)>|
                                #[trigger] text_at(
                                    s@,
                                    i as int,
                                    ser_obj_members(ms) + seq![0x7Du8],
                                ) && ms.len() > 0 implies false by {
                                lemma_obj_step(s@, i as int, ms);
                            }
                        }
                        None
                    },
                }
            } else {
                proof {
                    assert forall|ms: Seq<(Seq<char>, JView)>|
                        #[trigger] text_at(s@, i as int, ser_obj_members(ms) + seq![0x7Du8])
                            && ms.len() > 0 implies false by {
                        lemma_obj_step(s@, i as int, ms);
                        assert(k@ == ms[0].0);
                        assert(p1 == i + ser_jstring(ms[0].0).len());
                        assert(s@[p1 as int] == 0x3A);
                        assert(p1 < s@.len());
                    }
                }
                None
            }
        },
        None => {
            proof {
                assert forall|ms: Seq<(Seq<char>, JView)>|
                    #[trigger] text_at(s@, i as int, ser_obj_members(ms) + seq![0x7Du8])
                        && ms.len() > 0 implies false by {
                    lemma_obj_step(s@, i as int, ms);
                }
            }
            None
        },
    }
}

/// What the text of a non-empty member list at `i` gives: the first key's
/// text stands at `i`, a colon and the first value follow, then a comma or
/// the closing brace, and for several members the rest after the comma.
proof fn lemma_obj_step(s: Seq<u8>, i: int, ms: Seq<(Seq<char>, JView)>)
    requires
        text_at(s, i, ser_obj_members(ms) + seq![0x7Du8]),
        ms.len() > 0,
    ensures
        text_at(s, i, ser_jstring(ms[0].0)),
        i + ser_jstring(ms[0].0).len() < s.len(),
        s[i + ser_jstring(ms[0].0).len()] == 0x3A,
        text_at(s, i + ser_jstring(ms[0].0).len() + 1, ser_jvalue(ms[0].1)),
        non_digit_at(s, i + ser_jstring(ms[0].0).len() + 1 + ser_jvalue(ms[0].1).len()),
        i + ser_jstring(ms[0].0).len() + 1 + ser_jvalue(ms[0].1).len() < s.len(),
        ms.len() == 1 ==> s[i + ser_jstring(ms[0].0).len() + 1 + ser_jvalue(ms[0].1).len()] == 0x7D
            && ser_obj_members(ms).len() == ser_jstring(ms[0].0).len() + 1 + ser_jvalue(
            ms[0].1,
        ).len(),
        ms.len() > 1 ==> s[i + ser_jstring(ms[0].0).len() + 1 + ser_jvalue(ms[0].1).len()] == 0x2C
            && text_at(
            s,
            i + ser_jstring(ms[0].0).len() + 1 + ser_jvalue(ms[0].1).len() + 1,
            ser_obj_members(ms.drop_first()) + seq![0x7Du8],
        ) && ser_obj_members(ms).len() == ser_jstring(ms[0].0).len() + 1 + ser_jvalue(
            ms[0].1,
        ).len() + 1 + ser_obj_members(ms.drop_first()).len(),
{
    let k0 = ser_jstring(ms[0].0);
    let v0 = ser_jvalue(ms[0].1);
    if ms.len() == 1 {
        assert(ser_obj_members(ms) == k0 + seq![0x3Au8] + v0);
        assert(ser_obj_members(ms) + seq![0x7Du8] =~= k0 + (seq![0x3Au8] + (v0 + seq![0x7Du8])));
        lemma_text_at_split(s, i, k0, seq![0x3Au8] + (v0 + seq![0x7Du8]));
        lemma_text_at_split(s, i + k0.len(), seq![0x3Au8], v0 + seq![0x7Du8]);
        lemma_text_at_split(s, i + k0.len() + 1, v0, seq![0x7Du8]);
        lemma_text_at_index(s, i + k0.len(), seq![0x3Au8], 0);
        lemma_text_at_index(s, i + k0.len() + 1 + v0.len(), seq![0x7Du8], 0);
    } else {
        assert(ser_obj_members(ms) == k0 + seq![0x3Au8] + v0 + seq![0x2Cu8] + ser_obj_members(
            ms.drop_first(),
        ));
        assert(ser_obj_members(ms) + seq![0x7Du8] =~= k0 + (seq![0x3Au8] + (v0 + (seq![0x2Cu8]
            + (ser_obj_members(ms.drop_first()) + seq![0x7Du8])))));
        lemma_text_at_split(
            s,
            i,
            k0,
            seq![0x3Au8] + (v0 + (seq![0x2Cu8] + (ser_obj_members(ms.drop_first()) + seq![
                0x7Du8,
            ]))),
        );
        lemma_text_at_split(
            s,
            i + k0.len(),
            seq![0x3Au8],
            v0 + (seq![0x2Cu8] + (ser_obj_members(ms.drop_first()) + seq![0x7Du8])),
        );
        lemma_text_at_split(
            s,
            i + k0.len() + 1,
            v0,
            seq![0x2Cu8] + (ser_obj_members(ms.drop_first()) + seq![0x7Du8]),
        );
        lemma_text_at_split(
            s,
            i + k0.len() + 1 + v0.len(),
            seq![0x2Cu8],
            ser_obj_members(ms.drop_first()) + seq![0x7Du8],
        );
        lemma_text_at_index(s, i + k0.len(), seq![0x3Au8], 0);
        lemma_text_at_index(s, i + k0.len() + 1 + v0.len(), seq![0x2Cu8], 0);
    }
}

pub proof fn lemma_jviews_of_index(s: Seq<JValue>)
    ensures
        jviews_of(s).len() == s.len(),
        forall|i: int| 0 <= i < s.len() ==> jviews_of(s)[i] == jview_of(#[trigger] s[i]),
    decreases s.len(),
{
    if s.len() > 0 {
        lemma_jviews_of_index(s.drop_first());
        assert(jviews_of(s) == seq![jview_of(s[0])] + jviews_of(s.drop_first()));
        assert(jviews_of(s)[0] == jview_of(s[0]));
        assert(jviews_of(s).len() == s.len());
        assert forall|i: int| 0 <= i < s.len() implies jviews_of(s)[i] == jview_of(
            #[trigger] s[i],
        ) by {
            if i > 0 {
                assert(s.drop_first()[i - 1] == s[i]);
                assert(jviews_of(s)[i] == jviews_of(s.drop_first())[i - 1]);
                assert(jviews_of(s.drop_first())[i - 1] == jview_of(s.drop_first()[i - 1]));
            }
        }
    }
}

pub proof fn lemma_jmembers_of_index(s: Seq<(String, JValue)>)
    ensures
        jmembers_of(s).len() == s.len(),
        forall|i: int|
            0 <= i < s.len() ==> jmembers_of(s)[i] == ((#[trigger] s[i]).0@, jview_of(s[i].1)),
    decreases s.len(),
{
    if s.len() > 0 {
        lemma_jmembers_of_index(s.drop_first());
        assert(jmembers_of(s) == seq![(s[0].0@, jview_of(s[0].1))] + jmembers_of(s.drop_first()));
        assert(jmembers_of(s)[0] == (s[0].0@, jview_of(s[0].1)));
        assert(jmembers_of(s).len() == s.len());
        assert forall|i: int| 0 <= i < s.len() implies jmembers_of(s)[i] == ((#[trigger] s[i]).0@,
        jview_of(s[i].1)) by {
            if i > 0 {
                assert(s.drop_first()[i - 1] == s[i]);
                assert(jmembers_of(s)[i] == jmembers_of(s.drop_first())[i - 1]);
                assert(jmembers_of(s.drop_first())[i - 1] == (s.drop_first()[i - 1].0@, jview_of(
                    s.drop_first()[i - 1].1,
                )));
            }
        }
    }
}

/// Appending one more element to a non-empty list adds a comma and its
/// text.
pub proof fn lemma_ser_arr_items_push(vs: Seq<JView>, v: JView)
    requires
        vs.len() > 0,
    ensures
        ser_arr_items(vs.push(v)) == ser_arr_items(vs) + seq![0x2Cu8] + ser_jvalue(v),
    decreases vs.len(),
{
    if vs.len() == 1 {
        let p = vs.push(v);
        assert(p.len() == 2);
        assert(p[0] == vs[0]);
        assert(p.drop_first() =~= seq![v]);
        assert(ser_arr_items(seq![v]) == ser_jvalue(v));
        assert(ser_arr_items(p) == ser_jvalue(vs[0]) + seq![0x2Cu8] + ser_arr_items(seq![v]));
        assert(ser_arr_items(vs) == ser_jvalue(vs[0]));
    } else {
        let p = vs.push(v);
        assert(p[0] == vs[0]);
        assert(p.drop_first() =~= vs.drop_first().push(v));
        lemma_ser_arr_items_push(vs.drop_first(), v);
        assert(ser_arr_items(p) == ser_jvalue(vs[0]) + seq![0x2Cu8] + ser_arr_items(
            p.drop_first(),
        ));
        assert(ser_jvalue(vs[0]) + seq![0x2Cu8] + ((ser_arr_items(vs.drop_first()) + seq![0x2Cu8])
            + ser_jvalue(v)) =~= ((ser_jvalue(vs[0]) + seq![0x2Cu8] + ser_arr_items(
            vs.drop_first(),
        )) + seq![0x2Cu8]) + ser_jvalue(v));
    }
}

} // verus!
