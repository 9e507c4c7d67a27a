use vstd::prelude::*;
use vstd::string::StrSliceExecFns;
use vstd::string::StringExecFns;

use crate::error::TaskError;
use crate::json::{
    jmembers_of, jview_of, jviews_of, lemma_jmembers_of_index, lemma_jviews_of_index,
    lemma_pow16_vals, parse_jvalue, pow16, ser_jvalue, text_at, write_jstring, write_i64, JValue,
    JView,
};
use crate::shims::string_push;
use crate::timestamp::{parse_timestamp_string, timestamp_string, ts_chars, ts_in_range};
use crate::task::{StatusView, Task, TaskSignature, TaskStatus, TaskView};

verus! {

/// Lowercase hexadecimal digit character for a value below 16.
pub open spec fn hex_char_of(n: int) -> char {
    if n < 10 {
        (0x30 + n) as char
    } else {
        (0x57 + n) as char
    }
}

/// The fixed-width lowercase hexadecimal character form of `n`.
pub open spec fn hex_chars(n: nat, width: nat) -> Seq<char>
    decreases width,
{
    if width == 0 {
        Seq::empty()
    } else {
        hex_chars(n / 16, (width - 1) as nat).push(hex_char_of((n % 16) as int))
    }
}

pub open spec fn is_hex_char(c: char) -> bool {
    (0x30 <= c as u32 && c as u32 <= 0x39) || (0x61 <= c as u32 && c as u32 <= 0x66)
}

pub open spec fn hex_char_val(c: char) -> int {
    if c as u32 <= 0x39 {
        c as u32 - 0x30
    } else {
        c as u32 - 0x57
    }
}

/// The value of a run of hexadecimal digit characters, most significant
/// first.
pub open spec fn hex_chars_val(cs: Seq<char>) -> int
    decreases cs.len(),
{
    if cs.len() == 0 {
        0
    } else {
        hex_chars_val(cs.drop_last()) * 16 + hex_char_val(cs.last())
    }
}

pub proof fn lemma_hex_chars_shape(n: nat, w: nat)
    ensures
        hex_chars(n, w).len() == w,
        forall|i: int| 0 <= i < w ==> is_hex_char(#[trigger] hex_chars(n, w)[i]),
    decreases w,
{
    if w > 0 {
        lemma_hex_chars_shape(n / 16, (w - 1) as nat);
        let t = hex_chars(n, w);
        assert(t == hex_chars(n / 16, (w - 1) as nat).push(hex_char_of((n % 16) as int)));
        assert(is_hex_char(hex_char_of((n % 16) as int)));
        assert(forall|i: int|
            0 <= i < w - 1 ==> t[i] == #[trigger] hex_chars(n / 16, (w - 1) as nat)[i]);
    }
}

pub proof fn lemma_hex_chars_val(n: nat, w: nat)
    requires
        n < pow16(w),
    ensures
        hex_chars_val(hex_chars(n, w)) == n,
    decreases w,
{
    if w == 0 {
        assert(hex_chars(n, w) =~= Seq::<char>::empty());
    } else {
        assert(n / 16 < pow16((w - 1) as nat)) by {
            if n / 16 >= pow16((w - 1) as nat) {
                assert(n >= 16 * (n / 16));
            }
        }
        lemma_hex_chars_val(n / 16, (w - 1) as nat);
        let t = hex_chars(n, w);
        assert(t == hex_chars(n / 16, (w - 1) as nat).push(hex_char_of((n % 16) as int)));
        assert(t.drop_last() =~= hex_chars(n / 16, (w - 1) as nat));
        assert(t.last() == hex_char_of((n % 16) as int));
        assert(hex_char_val(hex_char_of((n % 16) as int)) == n % 16);
        assert(hex_chars_val(t) == (n / 16) * 16 + n % 16);
    }
}

/// The canonical character form of a 128-bit identifier: five groups of
/// lowercase hexadecimal digits, eight, four, four, four and twelve wide,
/// joined by hyphens.
pub open spec fn uuid_chars(id: u128) -> Seq<char> {
    let n = id as nat;
    hex_chars(n / pow16(24), 8) + seq!['-'] + hex_chars(n / pow16(20) % pow16(4), 4) + seq!['-']
        + hex_chars(n / pow16(16) % pow16(4), 4) + seq!['-'] + hex_chars(
        n / pow16(12) % pow16(4),
        4,
    ) + seq!['-'] + hex_chars(n % pow16(12), 12)
}

/// Appends the fixed-width lowercase hexadecimal characters of `n`.
fn push_hex_chars(out: &mut String, n: u64, width: usize)
    ensures
        final(out)@ == old(out)@ + hex_chars(n as nat, width as nat),
    decreases width,
{
    if width == 0 {
        proof {
            assert(final(out)@ =~= old(out)@ + hex_chars(n as nat, width as nat));
        }
    } else {
        push_hex_chars(out, n / 16, width - 1);
        let d: u8 = (n % 16) as u8;
        let c: char = if d < 10 {
            (0x30 + d) as char
        } else {
            (0x57 + d) as char
        };
        string_push(out, c);
        proof {
            assert(c == hex_char_of((n as nat % 16) as int));
            assert(final(out)@ =~= old(out)@ + hex_chars(n as nat, width as nat));
        }
    }
}

/// The canonical hyphenated form of the identifier, as text.
pub fn uuid_string(id: u128) -> (r: String)
    ensures
        r@ == uuid_chars(id),
{
    proof {
        lemma_pow16_vals();
    }
    let d1: u64 = (id / 0x1000000000000000000000000u128) as u64;
    let d2: u64 = ((id / 0x100000000000000000000u128) % 0x10000) as u64;
    let d3: u64 = ((id / 0x10000000000000000u128) % 0x10000) as u64;
    let d4: u64 = ((id / 0x1000000000000u128) % 0x10000) as u64;
    let d5: u64 = (id % 0x1000000000000u128) as u64;
    let mut out = String::new();
    push_hex_chars(&mut out, d1, 8);
    string_push(&mut out, '-');
    push_hex_chars(&mut out, d2, 4);
    string_push(&mut out, '-');
    push_hex_chars(&mut out, d3, 4);
    string_push(&mut out, '-');
    push_hex_chars(&mut out, d4, 4);
    string_push(&mut out, '-');
    push_hex_chars(&mut out, d5, 12);
    proof {
        assert(pow16(24) == 0x1000000000000000000000000 && pow16(20) == 0x100000000000000000000
            && pow16(16) == 0x10000000000000000 && pow16(12) == 0x1000000000000 && pow16(4)
            == 0x10000);
        assert((id / 0x1000000000000000000000000u128) as nat == id as nat
            / 0x1000000000000000000000000);
        assert((id / 0x100000000000000000000u128) as nat == id as nat / 0x100000000000000000000);
        assert((id / 0x10000000000000000u128) as nat == id as nat / 0x10000000000000000);
        assert((id / 0x1000000000000u128) as nat == id as nat / 0x1000000000000);
        assert(d1 as nat == id as nat / pow16(24));
        assert(d2 as nat == id as nat / pow16(20) % pow16(4));
        assert(d3 as nat == id as nat / pow16(16) % pow16(4));
        assert(d4 as nat == id as nat / pow16(12) % pow16(4));
        assert(d5 as nat == id as nat % pow16(12));
        assert(out@ =~= uuid_chars(id));
    }
    out
}

/// Reads fixed-width lowercase hexadecimal characters of the text. Whatever
/// else it does, it reads the fixed-width form of every value that fits the
/// width.
fn parse_hex_chars(u: &str, pos: usize, width: usize) -> (r: Option<u64>)
    requires
        pos + width <= u@.len(),
        width <= 12,
        pos + width <= usize::MAX,
    ensures
        r matches Some(v) ==> v < pow16(width as nat),
        forall|n: u64|
            n < pow16(width as nat) && u@.subrange(pos as int, pos + width) == hex_chars(
                n as nat,
                width as nat,
            ) ==> r == Some(n),
{
    proof {
        lemma_pow16_vals();
    }
    let mut j: usize = 0;
    let mut acc: u64 = 0;
    while j < width
        invariant
            0 <= j <= width,
            width <= 12,
            pos + width <= usize::MAX,
            pos + width <= u@.len(),
            acc as int == hex_chars_val(u@.subrange(pos as int, pos + j)),
            acc < pow16(j as nat),
        decreases width - j,
    {
        let c: char = u.get_char(pos + j);
        let cu: u32 = c as u32;
        let v: u8 = if 0x30 <= cu && cu <= 0x39 {
            (cu - 0x30) as u8
        } else if 0x61 <= cu && cu <= 0x66 {
            (cu - 0x57) as u8
        } else {
            proof {
                assert forall|n: u64|
                    n < pow16(width as nat) && u@.subrange(pos as int, pos + width) == hex_chars(
                        n as nat,
                        width as nat,
                    ) implies false by {
                    lemma_hex_chars_shape(n as nat, width as nat);
                    assert(u@[pos + j] == u@.subrange(pos as int, pos + width)[j as int]);
                    assert(is_hex_char(hex_chars(n as nat, width as nat)[j as int]));
                }
            }
            return None;
        };
        proof {
            lemma_pow16_vals();
            crate::json::lemma_pow16_mono(j as nat, 11);
            assert(pow16(12) == 16 * pow16(11));
            assert(pow16((j + 1) as nat) == 16 * pow16(j as nat));
            assert(u@.subrange(pos as int, pos + j + 1).drop_last() =~= u@.subrange(
                pos as int,
                pos + j,
            ));
            assert(hex_char_val(u@[pos + j]) == v);
            assert(hex_chars_val(u@.subrange(pos as int, pos + j + 1)) == acc as int * 16 + v);
        }
        acc = acc * 16 + v as u64;
        j = j + 1;
    }
    proof {
        lemma_pow16_vals();
        assert forall|n: u64|
            n < pow16(width as nat) && u@.subrange(pos as int, pos + width) == hex_chars(
                n as nat,
                width as nat,
            ) implies acc == n by {
            lemma_hex_chars_val(n as nat, width as nat);
        }
    }
    Some(acc)
}

/// Reads the canonical hyphenated form of an identifier. Whatever else it
/// does, it reads the form of `id` whenever the text is exactly that form.
pub fn parse_uuid_string(u: &str) -> (r: Option<u128>)
    ensures
        forall|id: u128| u@ == uuid_chars(id) ==> r == Some(id),
{
    proof {
        lemma_pow16_vals();
        assert forall|id: u128| u@ == uuid_chars(id) implies u@.len() == 36 && u@[8] == '-'
            && u@[13] == '-' && u@[18] == '-' && u@[23] == '-' by {
            lemma_uuid_chars_shape(id);
        }
    }
    let n = u.unicode_len();
    if n != 36 {
        return None;
    }
    if !(u.get_char(8) == '-' && u.get_char(13) == '-' && u.get_char(18) == '-' && u.get_char(23)
        == '-') {
        return None;
    }
    let c1 = parse_hex_chars(u, 0, 8);
    let c2 = parse_hex_chars(u, 9, 4);
    let c3 = parse_hex_chars(u, 14, 4);
    let c4 = parse_hex_chars(u, 19, 4);
    let c5 = parse_hex_chars(u, 24, 12);
    match (c1, c2, c3, c4, c5) {
        (Some(d1), Some(d2), Some(d3), Some(d4), Some(d5)) => {
            proof {
                lemma_pow16_vals();
                assert(d1 < 0x100000000);
                assert(d2 < 0x10000 && d3 < 0x10000 && d4 < 0x10000);
                assert(d5 < 0x1000000000000);
            }
            let hi: u128 = ((((d1 as u128) * 0x10000 + (d2 as u128)) * 0x10000 + (d3 as u128))
                * 0x10000 + (d4 as u128));
            let id: u128 = hi * 0x1000000000000u128 + (d5 as u128);
            proof {
                assert forall|id0: u128| u@ == uuid_chars(id0) implies id == id0 by {
                    lemma_uuid_chars_shape(id0);
                }
            }
            Some(id)
        },
        _ => {
            proof {
                assert forall|id: u128| u@ == uuid_chars(id) implies false by {
                    lemma_uuid_chars_shape(id);
                }
            }
            None
        },
    }
}

/// The shape of an identifier's canonical form: thirty-six characters,
/// hyphens between the groups, and each group the fixed-width form of its
/// part of the value.
proof fn lemma_uuid_chars_shape(id: u128)
    ensures
        uuid_chars(id).len() == 36,
        uuid_chars(id)[8] == '-',
        uuid_chars(id)[13] == '-',
        uuid_chars(id)[18] == '-',
        uuid_chars(id)[23] == '-',
        uuid_chars(id).subrange(0, 8) == hex_chars(id as nat / pow16(24), 8),
        uuid_chars(id).subrange(9, 13) == hex_chars(id as nat / pow16(20) % pow16(4), 4),
        uuid_chars(id).subrange(14, 18) == hex_chars(id as nat / pow16(16) % pow16(4), 4),
        uuid_chars(id).subrange(19, 23) == hex_chars(id as nat / pow16(12) % pow16(4), 4),
        uuid_chars(id).subrange(24, 36) == hex_chars(id as nat % pow16(12), 12),
        id as nat / pow16(24) < pow16(8),
        id as nat / pow16(20) % pow16(4) < pow16(4),
        id as nat / pow16(16) % pow16(4) < pow16(4),
        id as nat / pow16(12) % pow16(4) < pow16(4),
        id as nat % pow16(12) < pow16(12),
        ((((id as nat / pow16(24)) * pow16(4) + id as nat / pow16(20) % pow16(4)) * pow16(4) + id
            as nat / pow16(16) % pow16(4)) * pow16(4) + id as nat / pow16(12) % pow16(4)) * pow16(
            12,
        ) + id as nat % pow16(12) == id as nat,
{
    lemma_pow16_vals();
    let n = id as nat;
    lemma_hex_chars_shape(n / pow16(24), 8);
    lemma_hex_chars_shape(n / pow16(20) % pow16(4), 4);
    lemma_hex_chars_shape(n / pow16(16) % pow16(4), 4);
    lemma_hex_chars_shape(n / pow16(12) % pow16(4), 4);
    lemma_hex_chars_shape(n % pow16(12), 12);
    let w = uuid_chars(id);
    assert(w.len() == 36);
    assert(w.subrange(0, 8) =~= hex_chars(n / pow16(24), 8));
    assert(w.subrange(9, 13) =~= hex_chars(n / pow16(20) % pow16(4), 4));
    assert(w.subrange(14, 18) =~= hex_chars(n / pow16(16) % pow16(4), 4));
    assert(w.subrange(19, 23) =~= hex_chars(n / pow16(12) % pow16(4), 4));
    assert(w.subrange(24, 36) =~= hex_chars(n % pow16(12), 12));
    assert(n / pow16(24) < pow16(8)) by {
        assert(n < pow16(32));
        assert(pow16(32) == pow16(24) * pow16(8)) by {
            assert(pow16(24) * pow16(8) == 0x1000000000000000000000000 * 0x100000000);
        }
        if n / pow16(24) >= pow16(8) {
            assert(n >= pow16(24) * (n / pow16(24)));
            assert(pow16(24) * (n / pow16(24)) >= pow16(24) * pow16(8)) by (nonlinear_arith)
                requires
                    n / pow16(24) >= pow16(8),
                    pow16(24) > 0,
            ;
        }
    }
    assert(((((n / pow16(24)) * pow16(4) + n / pow16(20) % pow16(4)) * pow16(4) + n / pow16(16)
        % pow16(4)) * pow16(4) + n / pow16(12) % pow16(4)) * pow16(12) + n % pow16(12) == n) by {
        lemma_uuid_recompose(n);
    }
}

/// Splitting a value into its five groups and reassembling them gives the
/// value back.
proof fn lemma_uuid_recompose(n: nat)
    ensures
        ((((n / pow16(24)) * pow16(4) + n / pow16(20) % pow16(4)) * pow16(4) + n / pow16(16)
            % pow16(4)) * pow16(4) + n / pow16(12) % pow16(4)) * pow16(12) + n % pow16(12) == n,
{
    lemma_pow16_vals();
    let a = n / 0x1000000000000;
    assert(a * 0x1000000000000 + n % 0x1000000000000 == n);
    let b = a / 0x10000;
    assert(b * 0x10000 + a % 0x10000 == a);
    let c = b / 0x10000;
    assert(c * 0x10000 + b % 0x10000 == b);
    let d = c / 0x10000;
    assert(d * 0x10000 + c % 0x10000 == c);
    lemma_div_chain(n, 0x1000000000000, 0x10000);
    assert(b == n / 0x10000000000000000);
    lemma_div_chain(n, 0x10000000000000000, 0x10000);
    assert(c == n / 0x100000000000000000000);
    lemma_div_chain(n, 0x100000000000000000000, 0x10000);
    assert(d == n / 0x1000000000000000000000000);
    let g1 = n / pow16(24);
    let g2 = n / pow16(20) % pow16(4);
    let g3 = n / pow16(16) % pow16(4);
    let g4 = n / pow16(12) % pow16(4);
    let g5 = n % pow16(12);
    assert(g1 == d && g2 == c % 0x10000 && g3 == b % 0x10000 && g4 == a % 0x10000 && g5 == n
        % 0x1000000000000);
    assert(g1 * pow16(4) + g2 == c);
    assert((g1 * pow16(4) + g2) * pow16(4) + g3 == b);
    assert(((g1 * pow16(4) + g2) * pow16(4) + g3) * pow16(4) + g4 == a);
    assert((((g1 * pow16(4) + g2) * pow16(4) + g3) * pow16(4) + g4) * pow16(12) + g5 == n);
}

/// Dividing twice is dividing by the product.
proof fn lemma_div_chain(n: nat, p: nat, q: nat)
    requires
        p > 0,
        q > 0,
    ensures
        (n / p) / q == n / (p * q),
{
    vstd::arithmetic::div_mod::lemma_div_denominator(n as int, p as int, q as int);
}

/// The values of a byte string, one JSON number per byte.
pub open spec fn bytes_jviews(p: Seq<u8>) -> Seq<JView> {
    Seq::new(p.len(), |i: int| JView::Int(p[i] as i64))
}

/// The value of a status on the wire: a bare string for the four plain
/// states, a one-member object carrying the reason for a failure.
pub open spec fn status_jview(sv: StatusView) -> JView {
    match sv {
        StatusView::Pending => JView::Str("Pending"@),
        StatusView::Running => JView::Str("Running"@),
        StatusView::Completed => JView::Str("Completed"@),
        StatusView::Cancelled => JView::Str("Cancelled"@),
        StatusView::Failed(m) => JView::Obj(seq![("Failed"@, JView::Str(m))]),
    }
}

/// The value of a result on the wire: null when absent, a byte array when
/// present.
pub open spec fn result_jview(r: Option<Seq<u8>>) -> JView {
    match r {
        None => JView::Null,
        Some(b) => JView::Arr(bytes_jviews(b)),
    }
}

/// The members of a task's wire record, in order.
pub open spec fn task_members(t: TaskView) -> Seq<(Seq<char>, JView)> {
    seq![
        ("id"@, JView::Str(uuid_chars(t.id))),
        ("name"@, JView::Str(t.name)),
        ("payload"@, JView::Arr(bytes_jviews(t.payload))),
        ("status"@, status_jview(t.status)),
        ("created_at"@, JView::Str(ts_chars(t.created_at))),
        ("retries"@, JView::Int(t.retries as i64)),
        ("max_retries"@, JView::Int(t.max_retries as i64)),
        ("result"@, result_jview(t.result)),
    ]
}

/// A task's wire record as a JSON value.
pub open spec fn task_jview(t: TaskView) -> JView {
    JView::Obj(task_members(t))
}

/// The wire form of a task: one JSON object.
pub open spec fn ser_task(t: TaskView) -> Seq<u8> {
    ser_jvalue(task_jview(t))
}

/// Appends the byte string as a JSON array of numbers.
fn write_byte_array(out: &mut Vec<u8>, b: &Vec<u8>)
    ensures
        final(out)@ == old(out)@ + ser_jvalue(JView::Arr(bytes_jviews(b@))),
{
    out.push(0x5B);
    let mut i: usize = 0;
    proof {
        assert(bytes_jviews(b@.subrange(0, 0)) =~= Seq::<JView>::empty());
        assert(out@ =~= old(out)@ + seq![0x5Bu8] + crate::json::ser_arr_items(
            bytes_jviews(b@.subrange(0, 0)),
        ));
    }
    while i < b.len()
        invariant
            i <= b@.len(),
            out@ == old(out)@ + seq![0x5Bu8] + crate::json::ser_arr_items(
                bytes_jviews(b@.subrange(0, i as int)),
            ),
        decreases b@.len() - i,
    {
        if i > 0 {
            out.push(0x2C);
        }
        write_i64(out, b[i] as i64);
        proof {
            let pre = bytes_jviews(b@.subrange(0, i as int));
            let post = bytes_jviews(b@.subrange(0, i + 1));
            assert(post =~= pre.push(JView::Int(b@[i as int] as i64)));
            assert(ser_jvalue(JView::Int(b@[i as int] as i64)) == crate::json::ser_i64(
                b@[i as int] as i64 as int,
            ));
            if i > 0 {
                assert(pre.len() == i);
                crate::json::lemma_ser_arr_items_push(pre, JView::Int(b@[i as int] as i64));
            } else {
                assert(pre.len() == 0);
                assert(post.len() == 1);
                assert(post[0] == JView::Int(b@[0] as i64));
                assert(crate::json::ser_arr_items(post) == ser_jvalue(post[0]));
            }
            assert(out@ =~= old(out)@ + seq![0x5Bu8] + crate::json::ser_arr_items(post));
        }
        i = i + 1;
    }
    out.push(0x5D);
    proof {
        assert(b@.subrange(0, b@.len() as int) =~= b@);
        assert(final(out)@ =~= old(out)@ + ser_jvalue(JView::Arr(bytes_jviews(b@))));
    }
}

/// Appends the wire form of a status.
fn write_status(out: &mut Vec<u8>, st: &TaskStatus)
    ensures
        final(out)@ == old(out)@ + ser_jvalue(status_jview(st@)),
{
    match st {
        TaskStatus::Pending => {
            write_jstring(out, "Pending");
        },
        TaskStatus::Running => {
            write_jstring(out, "Running");
        },
        TaskStatus::Completed => {
            write_jstring(out, "Completed");
        },
        TaskStatus::Cancelled => {
            write_jstring(out, "Cancelled");
        },
        TaskStatus::Failed(m) => {
            out.push(0x7B);
            write_jstring(out, "Failed");
            out.push(0x3A);
            write_jstring(out, m.as_str());
            out.push(0x7D);
            proof {
                let ms = seq![("Failed"@, JView::Str(m@))];
                assert(ms.len() == 1);
                assert(crate::json::ser_obj_members(ms) == crate::json::ser_jstring("Failed"@)
                    + seq![0x3Au8] + ser_jvalue(JView::Str(m@)));
                assert(final(out)@ =~= old(out)@ + ser_jvalue(status_jview(st@)));
            }
        },
    }
}

/// Rewrites one member's nested text onto the end of a flat text.
proof fn lemma_flatten_member(x: Seq<u8>, k: Seq<char>, v: JView, rest: Seq<u8>)
    ensures
        x + (crate::json::ser_jstring(k) + seq![0x3Au8] + ser_jvalue(v) + seq![0x2Cu8] + rest) == x
            + crate::json::ser_jstring(k) + seq![0x3Au8] + ser_jvalue(v) + seq![0x2Cu8] + rest,
{
    let a = crate::json::ser_jstring(k);
    let b = seq![0x3Au8];
    let c = ser_jvalue(v);
    let d = seq![0x2Cu8];
    vstd::seq_lib::lemma_concat_associative(x, a + b + c + d, rest);
    vstd::seq_lib::lemma_concat_associative(x, a + b + c, d);
    vstd::seq_lib::lemma_concat_associative(x, a + b, c);
    vstd::seq_lib::lemma_concat_associative(x, a, b);
}

/// Rewrites the last member's nested text onto the end of a flat text.
proof fn lemma_flatten_last(x: Seq<u8>, k: Seq<char>, v: JView)
    ensures
        x + (crate::json::ser_jstring(k) + seq![0x3Au8] + ser_jvalue(v)) == x
            + crate::json::ser_jstring(k) + seq![0x3Au8] + ser_jvalue(v),
{
    let a = crate::json::ser_jstring(k);
    let b = seq![0x3Au8];
    let c = ser_jvalue(v);
    vstd::seq_lib::lemma_concat_associative(x, a + b, c);
    vstd::seq_lib::lemma_concat_associative(x, a, b);
}

/// The wire record of the task: a JSON object with the fields in a fixed
/// order, the identifier as its hyphenated text, byte strings as arrays of
/// numbers, and the creation time as its calendar text, zone Z.
#[verifier::rlimit(100)]
pub fn serialize_task(t: &Task) -> (r: Vec<u8>)
    requires
        ts_in_range(t@.created_at),
    ensures
        r@ == ser_task(t@),
{
    let ghost ms = task_members(t@);
    let mut out: Vec<u8> = Vec::new();
    let ghost mut acc: Seq<u8> = Seq::empty();
    out.push(0x7B);
    proof {
        acc = seq![0x7Bu8];
        assert(out@ =~= acc);
    }
    write_jstring(&mut out, "id");
    proof {
        acc = acc + crate::json::ser_jstring("id"@);
    }
    out.push(0x3A);
    proof {
        let acc2 = acc + seq![0x3Au8];
        assert(out@ =~= acc2);
        acc = acc2;
    }
    let us = uuid_string(t.id);
    write_jstring(&mut out, us.as_str());
    proof {
        acc = acc + crate::json::ser_jstring(uuid_chars(t@.id));
    }
    out.push(0x2C);
    proof {
        let acc2 = acc + seq![0x2Cu8];
        assert(out@ =~= acc2);
        acc = acc2;
    }
    write_jstring(&mut out, "name");
    proof {
        acc = acc + crate::json::ser_jstring("name"@);
    }
    out.push(0x3A);
    proof {
        let acc2 = acc + seq![0x3Au8];
        assert(out@ =~= acc2);
        acc = acc2;
    }
    write_jstring(&mut out, t.name.as_str());
    proof {
        acc = acc + crate::json::ser_jstring(t@.name);
    }
    out.push(0x2C);
    proof {
        let acc2 = acc + seq![0x2Cu8];
        assert(out@ =~= acc2);
        acc = acc2;
    }
    write_jstring(&mut out, "payload");
    proof {
        acc = acc + crate::json::ser_jstring("payload"@);
    }
    out.push(0x3A);
    proof {
        let acc2 = acc + seq![0x3Au8];
        assert(out@ =~= acc2);
        acc = acc2;
    }
    write_byte_array(&mut out, &t.payload);
    proof {
        acc = acc + ser_jvalue(JView::Arr(bytes_jviews(t@.payload)));
    }
    out.push(0x2C);
    proof {
        let acc2 = acc + seq![0x2Cu8];
        assert(out@ =~= acc2);
        acc = acc2;
    }
    write_jstring(&mut out, "status");
    proof {
        acc = acc + crate::json::ser_jstring("status"@);
    }
    out.push(0x3A);
    proof {
        let acc2 = acc + seq![0x3Au8];
        assert(out@ =~= acc2);
        acc = acc2;
    }
    write_status(&mut out, &t.status);
    proof {
        acc = acc + ser_jvalue(status_jview(t@.status));
    }
    out.push(0x2C);
    proof {
        let acc2 = acc + seq![0x2Cu8];
        assert(out@ =~= acc2);
        acc = acc2;
    }
    write_jstring(&mut out, "created_at");
    proof {
        acc = acc + crate::json::ser_jstring("created_at"@);
    }
    out.push(0x3A);
    proof {
        let acc2 = acc + seq![0x3Au8];
        assert(out@ =~= acc2);
        acc = acc2;
    }
    let tss = timestamp_string(t.created_at);
    write_jstring(&mut out, tss.as_str());
    proof {
        acc = acc + crate::json::ser_jstring(ts_chars(t@.created_at));
    }
    out.push(0x2C);
    proof {
        let acc2 = acc + seq![0x2Cu8];
        assert(out@ =~= acc2);
        acc = acc2;
    }
    write_jstring(&mut out, "retries");
    proof {
        acc = acc + crate::json::ser_jstring("retries"@);
    }
    out.push(0x3A);
    proof {
        let acc2 = acc + seq![0x3Au8];
        assert(out@ =~= acc2);
        acc = acc2;
    }
    write_i64(&mut out, t.retries as i64);
    proof {
        acc = acc + crate::json::ser_i64(t@.retries as i64 as int);
    }
    out.push(0x2C);
    proof {
        let acc2 = acc + seq![0x2Cu8];
        assert(out@ =~= acc2);
        acc = acc2;
    }
    write_jstring(&mut out, "max_retries");
    proof {
        acc = acc + crate::json::ser_jstring("max_retries"@);
    }
    out.push(0x3A);
    proof {
        let acc2 = acc + seq![0x3Au8];
        assert(out@ =~= acc2);
        acc = acc2;
    }
    write_i64(&mut out, t.max_retries as i64);
    proof {
        acc = acc + crate::json::ser_i64(t@.max_retries as i64 as int);
    }
    out.push(0x2C);
    proof {
        let acc2 = acc + seq![0x2Cu8];
        assert(out@ =~= acc2);
        acc = acc2;
    }
    write_jstring(&mut out, "result");
    proof {
        acc = acc + crate::json::ser_jstring("result"@);
    }
    out.push(0x3A);
    proof {
        let acc2 = acc + seq![0x3Au8];
        assert(out@ =~= acc2);
        acc = acc2;
    }
    match &t.result {
        None => {
            out.push(0x6E);
            out.push(0x75);
            out.push(0x6C);
            out.push(0x6C);
            proof {
                let acc2 = acc + ser_jvalue(result_jview(t@.result));
                assert(ser_jvalue(result_jview(t@.result)) == seq![0x6Eu8, 0x75u8, 0x6Cu8, 0x6Cu8]);
                assert(out@ =~= acc2);
                acc = acc2;
            }
        },
        Some(b) => {
            write_byte_array(&mut out, b);
            proof {
                acc = acc + ser_jvalue(result_jview(t@.result));
            }
        },
    }
    out.push(0x7D);
    proof {
        let acc2 = acc + seq![0x7Du8];
        assert(out@ =~= acc2);
        acc = acc2;
        lemma_serialize_assemble(t@);
        assert(acc == ser_task(t@));
    }
    out
}

/// The flat text the writer lays down, member after member, is the task's
/// wire record.
#[verifier::rlimit(100)]
proof fn lemma_serialize_assemble(t: TaskView)
    ensures
        ser_task(t) == seq![0x7Bu8] + crate::json::ser_jstring("id"@) + seq![0x3Au8]
            + crate::json::ser_jstring(uuid_chars(t.id)) + seq![0x2Cu8] + crate::json::ser_jstring(
            "name"@,
        ) + seq![0x3Au8] + crate::json::ser_jstring(t.name) + seq![0x2Cu8]
            + crate::json::ser_jstring("payload"@) + seq![0x3Au8] + ser_jvalue(
            JView::Arr(bytes_jviews(t.payload)),
        ) + seq![0x2Cu8] + crate::json::ser_jstring("status"@) + seq![0x3Au8] + ser_jvalue(
            status_jview(t.status),
        ) + seq![0x2Cu8] + crate::json::ser_jstring("created_at"@) + seq![0x3Au8]
            + crate::json::ser_jstring(ts_chars(t.created_at)) + seq![0x2Cu8] + crate::json::ser_jstring(
            "retries"@,
        ) + seq![0x3Au8] + crate::json::ser_i64(t.retries as i64 as int) + seq![0x2Cu8]
            + crate::json::ser_jstring("max_retries"@) + seq![0x3Au8] + crate::json::ser_i64(
            t.max_retries as i64 as int,
        ) + seq![0x2Cu8] + crate::json::ser_jstring("result"@) + seq![0x3Au8] + ser_jvalue(
            result_jview(t.result),
        ) + seq![0x7Du8],
{
    let ms = task_members(t);
    let m1 = ms.drop_first();
    let m2 = m1.drop_first();
    let m3 = m2.drop_first();
    let m4 = m3.drop_first();
    let m5 = m4.drop_first();
    let m6 = m5.drop_first();
    let m7 = m6.drop_first();
    assert(m1.len() == 7 && m2.len() == 6 && m3.len() == 5 && m4.len() == 4 && m5.len() == 3
        && m6.len() == 2 && m7.len() == 1);
    assert(m1[0] == ms[1] && m2[0] == ms[2] && m3[0] == ms[3] && m4[0] == ms[4] && m5[0] == ms[5]
        && m6[0] == ms[6] && m7[0] == ms[7]);
    assert(ser_jvalue(ms[0].1) == crate::json::ser_jstring(uuid_chars(t.id)));
    assert(ser_jvalue(ms[1].1) == crate::json::ser_jstring(t.name));
    assert(ser_jvalue(ms[4].1) == crate::json::ser_jstring(ts_chars(t.created_at)));
    assert(ser_jvalue(ms[5].1) == crate::json::ser_i64(t.retries as i64 as int));
    assert(ser_jvalue(ms[6].1) == crate::json::ser_i64(t.max_retries as i64 as int));
    let y0 = seq![0x7Bu8];
    assert(crate::json::ser_obj_members(ms) == crate::json::ser_jstring(ms[0].0) + seq![0x3Au8]
        + ser_jvalue(ms[0].1) + seq![0x2Cu8] + crate::json::ser_obj_members(m1));
    lemma_flatten_member(y0, ms[0].0, ms[0].1, crate::json::ser_obj_members(m1));
    let y1 = y0 + crate::json::ser_jstring(ms[0].0) + seq![0x3Au8] + ser_jvalue(ms[0].1) + seq![
        0x2Cu8,
    ];
    assert(y0 + crate::json::ser_obj_members(ms) == y1 + crate::json::ser_obj_members(m1));
    assert(crate::json::ser_obj_members(m1) == crate::json::ser_jstring(m1[0].0) + seq![0x3Au8]
        + ser_jvalue(m1[0].1) + seq![0x2Cu8] + crate::json::ser_obj_members(m2));
    lemma_flatten_member(y1, m1[0].0, m1[0].1, crate::json::ser_obj_members(m2));
    let y2 = y1 + crate::json::ser_jstring(m1[0].0) + seq![0x3Au8] + ser_jvalue(m1[0].1) + seq![
        0x2Cu8,
    ];
    assert(y0 + crate::json::ser_obj_members(ms) == y2 + crate::json::ser_obj_members(m2));
    assert(crate::json::ser_obj_members(m2) == crate::json::ser_jstring(m2[0].0) + seq![0x3Au8]
        + ser_jvalue(m2[0].1) + seq![0x2Cu8] + crate::json::ser_obj_members(m3));
    lemma_flatten_member(y2, m2[0].0, m2[0].1, crate::json::ser_obj_members(m3));
    let y3 = y2 + crate::json::ser_jstring(m2[0].0) + seq![0x3Au8] + ser_jvalue(m2[0].1) + seq![
        0x2Cu8,
    ];
    assert(y0 + crate::json::ser_obj_members(ms) == y3 + crate::json::ser_obj_members(m3));
    assert(crate::json::ser_obj_members(m3) == crate::json::ser_jstring(m3[0].0) + seq![0x3Au8]
        + ser_jvalue(m3[0].1) + seq![0x2Cu8] + crate::json::ser_obj_members(m4));
    lemma_flatten_member(y3, m3[0].0, m3[0].1, crate::json::ser_obj_members(m4));
    let y4 = y3 + crate::json::ser_jstring(m3[0].0) + seq![0x3Au8] + ser_jvalue(m3[0].1) + seq![
        0x2Cu8,
    ];
    assert(y0 + crate::json::ser_obj_members(ms) == y4 + crate::json::ser_obj_members(m4));
    assert(crate::json::ser_obj_members(m4) == crate::json::ser_jstring(m4[0].0) + seq![0x3Au8]
        + ser_jvalue(m4[0].1) + seq![0x2Cu8] + crate::json::ser_obj_members(m5));
    lemma_flatten_member(y4, m4[0].0, m4[0].1, crate::json::ser_obj_members(m5));
    let y5 = y4 + crate::json::ser_jstring(m4[0].0) + seq![0x3Au8] + ser_jvalue(m4[0].1) + seq![
        0x2Cu8,
    ];
    assert(y0 + crate::json::ser_obj_members(ms) == y5 + crate::json::ser_obj_members(m5));
    assert(crate::json::ser_obj_members(m5) == crate::json::ser_jstring(m5[0].0) + seq![0x3Au8]
        + ser_jvalue(m5[0].1) + seq![0x2Cu8] + crate::json::ser_obj_members(m6));
    lemma_flatten_member(y5, m5[0].0, m5[0].1, crate::json::ser_obj_members(m6));
    let y6 = y5 + crate::json::ser_jstring(m5[0].0) + seq![0x3Au8] + ser_jvalue(m5[0].1) + seq![
        0x2Cu8,
    ];
    assert(y0 + crate::json::ser_obj_members(ms) == y6 + crate::json::ser_obj_members(m6));
    assert(crate::json::ser_obj_members(m6) == crate::json::ser_jstring(m6[0].0) + seq![0x3Au8]
        + ser_jvalue(m6[0].1) + seq![0x2Cu8] + crate::json::ser_obj_members(m7));
    lemma_flatten_member(y6, m6[0].0, m6[0].1, crate::json::ser_obj_members(m7));
    let y7 = y6 + crate::json::ser_jstring(m6[0].0) + seq![0x3Au8] + ser_jvalue(m6[0].1) + seq![
        0x2Cu8,
    ];
    assert(y0 + crate::json::ser_obj_members(ms) == y7 + crate::json::ser_obj_members(m7));
    assert(crate::json::ser_obj_members(m7) == crate::json::ser_jstring(m7[0].0) + seq![0x3Au8]
        + ser_jvalue(m7[0].1));
    lemma_flatten_last(y7, m7[0].0, m7[0].1);
    let y8 = y7 + crate::json::ser_jstring(m7[0].0) + seq![0x3Au8] + ser_jvalue(m7[0].1);
    assert(y0 + crate::json::ser_obj_members(ms) == y8);
    assert(ser_task(t) == seq![0x7Bu8] + crate::json::ser_obj_members(ms) + seq![0x7Du8]);
    vstd::seq_lib::lemma_concat_associative(
        y0,
        crate::json::ser_obj_members(ms),
        seq![0x7Du8],
    );
    assert(ser_task(t) == y8 + seq![0x7Du8]);
}

/// Reads bytes out of a parsed array of numbers. Whatever else it does, it
/// rebuilds every byte string whose numbers these are.
fn bytes_from_items(items: &Vec<JValue>) -> (r: Option<Vec<u8>>)
    ensures
        forall|p: Seq<u8>|
            jviews_of(items@) == #[trigger] bytes_jviews(p) ==> (r matches Some(b) && b@ == p),
{
    let mut out: Vec<u8> = Vec::new();
    let mut i: usize = 0;
    while i < items.len()
        invariant
            i <= items@.len(),
            out@.len() == i,
            forall|p: Seq<u8>|
                jviews_of(items@) == #[trigger] bytes_jviews(p) ==> out@ == p.subrange(
                    0,
                    i as int,
                ),
        decreases items@.len() - i,
    {
        let keep: u8 = match &items[i] {
            JValue::Int(n) => {
                if *n < 0 || *n > 255 {
                    proof {
                        assert forall|p: Seq<u8>|
                            jviews_of(items@) == #[trigger] bytes_jviews(p) implies false by {
                            lemma_jviews_of_index(items@);
                            assert(jviews_of(items@)[i as int] == bytes_jviews(p)[i as int]);
                            assert(jview_of(items@[i as int]) == JView::Int(p[i as int] as i64));
                        }
                    }
                    return None;
                }
                *n as u8
            },
            _ => {
                proof {
                    assert forall|p: Seq<u8>|
                        jviews_of(items@) == #[trigger] bytes_jviews(p) implies false by {
                        lemma_jviews_of_index(items@);
                        assert(jviews_of(items@)[i as int] == bytes_jviews(p)[i as int]);
                        assert(jview_of(items@[i as int]) == JView::Int(p[i as int] as i64));
                    }
                }
                return None;
            },
        };
        out.push(keep);
        proof {
            assert forall|p: Seq<u8>|
                jviews_of(items@) == #[trigger] bytes_jviews(p) implies out@ == p.subrange(
                0,
                i + 1,
            ) by {
                lemma_jviews_of_index(items@);
                assert(jviews_of(items@)[i as int] == bytes_jviews(p)[i as int]);
                assert(jview_of(items@[i as int]) == JView::Int(p[i as int] as i64));
                assert(keep == p[i as int]);
                assert(p.subrange(0, i + 1) =~= p.subrange(0, i as int).push(p[i as int]));
            }
        }
        i = i + 1;
    }
    proof {
        assert forall|p: Seq<u8>|
            jviews_of(items@) == #[trigger] bytes_jviews(p) implies out@ == p by {
            lemma_jviews_of_index(items@);
            assert(p.len() == items@.len());
            assert(p.subrange(0, p.len() as int) =~= p);
        }
    }
    Some(out)
}

/// Reads a task's wire record back. Whatever else it does, it rebuilds
/// every task whose record the text is: deserializing what
/// `serialize_task` wrote yields an equal task.
#[verifier::rlimit(100)]
pub fn deserialize_task(s: &Vec<u8>) -> (r: Result<Task, TaskError>)
    ensures
        forall|tv: TaskView|
            ts_in_range(tv.created_at) && s@ == #[trigger] ser_task(tv) ==> (r matches Ok(t) && t@
                == tv),
{
    proof {
        reveal_strlit("Pending");
        reveal_strlit("Running");
        reveal_strlit("Completed");
        reveal_strlit("Cancelled");
        assert forall|tv: TaskView| s@ == #[trigger] ser_task(tv) implies text_at(
            s@,
            0,
            crate::json::ser_jvalue(task_jview(tv)),
        ) && crate::json::non_digit_at(s@, crate::json::ser_jvalue(task_jview(tv)).len() as int) by {
            assert(s@.subrange(0, s@.len() as int) =~= s@);
        }
    }
    let parsed = parse_jvalue(s, 0);
    let (j, p) = match parsed {
        Some(pair) => pair,
        None => {
            return Err(TaskError::SerializationError("invalid task record".to_owned()));
        },
    };
    if p != s.len() {
        return Err(TaskError::SerializationError("invalid task record".to_owned()));
    }
    let mut members: Vec<(String, JValue)> = match j {
        JValue::Obj(ms) => ms,
        _ => {
            return Err(TaskError::SerializationError("invalid task record".to_owned()));
        },
    };
    let ghost mvs = members@;
    proof {
        assert forall|tv: TaskView| s@ == #[trigger] ser_task(tv) implies (mvs.len() == 8 && (
        #[trigger] jmembers_of(mvs)) == task_members(tv) && mvs[0].0@ == "id"@ && jview_of(
            mvs[0].1,
        ) == JView::Str(uuid_chars(tv.id)) && mvs[1].0@ == "name"@ && jview_of(mvs[1].1)
            == JView::Str(tv.name) && mvs[2].0@ == "payload"@ && jview_of(mvs[2].1) == JView::Arr(
            bytes_jviews(tv.payload),
        ) && mvs[3].0@ == "status"@ && jview_of(mvs[3].1) == status_jview(tv.status) && mvs[4].0@
            == "created_at"@ && jview_of(mvs[4].1) == JView::Str(ts_chars(tv.created_at))
            && mvs[5].0@
            == "retries"@ && jview_of(mvs[5].1) == JView::Int(tv.retries as i64) && mvs[6].0@
            == "max_retries"@ && jview_of(mvs[6].1) == JView::Int(tv.max_retries as i64)
            && mvs[7].0@ == "result"@ && jview_of(mvs[7].1) == result_jview(tv.result)) by {
            lemma_jmembers_of_index(mvs);
            assert(jmembers_of(mvs) == task_members(tv));
            assert(jmembers_of(mvs).len() == 8);
            assert(forall|i: int| 0 <= i < 8 ==> #[trigger] jmembers_of(mvs)[i] == task_members(
                tv,
            )[i]);
        }
    }
    if members.len() != 8 {
        return Err(TaskError::SerializationError("invalid task record".to_owned()));
    }
    let (k7, v7) = match members.pop() {
        Some(x) => x,
        None => {
            return Err(TaskError::SerializationError("invalid task record".to_owned()));
        },
    };
    let (k6, v6) = match members.pop() {
        Some(x) => x,
        None => {
            return Err(TaskError::SerializationError("invalid task record".to_owned()));
        },
    };
    let (k5, v5) = match members.pop() {
        Some(x) => x,
        None => {
            return Err(TaskError::SerializationError("invalid task record".to_owned()));
        },
    };
    let (k4, v4) = match members.pop() {
        Some(x) => x,
        None => {
            return Err(TaskError::SerializationError("invalid task record".to_owned()));
        },
    };
    let (k3, v3) = match members.pop() {
        Some(x) => x,
        None => {
            return Err(TaskError::SerializationError("invalid task record".to_owned()));
        },
    };
    let (k2, v2) = match members.pop() {
        Some(x) => x,
        None => {
            return Err(TaskError::SerializationError("invalid task record".to_owned()));
        },
    };
    let (k1, v1) = match members.pop() {
        Some(x) => x,
        None => {
            return Err(TaskError::SerializationError("invalid task record".to_owned()));
        },
    };
    let (k0, v0) = match members.pop() {
        Some(x) => x,
        None => {
            return Err(TaskError::SerializationError("invalid task record".to_owned()));
        },
    };
    proof {
        assert((k0, v0) == mvs[0] && (k1, v1) == mvs[1] && (k2, v2) == mvs[2] && (k3, v3) == mvs[3]
            && (k4, v4) == mvs[4] && (k5, v5) == mvs[5] && (k6, v6) == mvs[6] && (k7, v7)
            == mvs[7]);
    }
    if !(k0 == "id".to_owned() && k1 == "name".to_owned() && k2 == "payload".to_owned() && k3
        == "status".to_owned() && k4 == "created_at".to_owned() && k5 == "retries".to_owned()
        && k6 == "max_retries".to_owned() && k7 == "result".to_owned()) {
        return Err(TaskError::SerializationError("invalid task record".to_owned()));
    }
    let id: u128 = match &v0 {
        JValue::Str(us) => {
            match parse_uuid_string(us.as_str()) {
                Some(i) => i,
                None => {
                    return Err(TaskError::SerializationError("invalid task record".to_owned()));
                },
            }
        },
        _ => {
            return Err(TaskError::SerializationError("invalid task record".to_owned()));
        },
    };
    let name: String = match v1 {
        JValue::Str(nm) => nm,
        _ => {
            return Err(TaskError::SerializationError("invalid task record".to_owned()));
        },
    };
    let payload: Vec<u8> = match &v2 {
        JValue::Arr(items) => {
            match bytes_from_items(items) {
                Some(b) => b,
                None => {
                    return Err(TaskError::SerializationError("invalid task record".to_owned()));
                },
            }
        },
        _ => {
            return Err(TaskError::SerializationError("invalid task record".to_owned()));
        },
    };
    let status: TaskStatus = match v3 {
        JValue::Str(st) => {
            if st == "Pending".to_owned() {
                TaskStatus::Pending
            } else if st == "Running".to_owned() {
                TaskStatus::Running
            } else if st == "Completed".to_owned() {
                TaskStatus::Completed
            } else if st == "Cancelled".to_owned() {
                TaskStatus::Cancelled
            } else {
                return Err(TaskError::SerializationError("invalid task record".to_owned()));
            }
        },
        JValue::Obj(mut fm) => {
            let ghost fmv = fm@;
            proof {
                lemma_jmembers_of_index(fmv);
            }
            if fm.len() != 1 {
                return Err(TaskError::SerializationError("invalid task record".to_owned()));
            }
            let (fk, fv) = match fm.pop() {
                Some(x) => x,
                None => {
                    return Err(TaskError::SerializationError("invalid task record".to_owned()));
                },
            };
            if !(fk == "Failed".to_owned()) {
                return Err(TaskError::SerializationError("invalid task record".to_owned()));
            }
            match fv {
                JValue::Str(reason) => TaskStatus::Failed(reason),
                _ => {
                    return Err(TaskError::SerializationError("invalid task record".to_owned()));
                },
            }
        },
        _ => {
            return Err(TaskError::SerializationError("invalid task record".to_owned()));
        },
    };
    let created_at: i64 = match &v4 {
        JValue::Str(st) => {
            match parse_timestamp_string(st.as_str()) {
                Some(ms) => ms,
                None => {
                    return Err(TaskError::SerializationError("invalid task record".to_owned()));
                },
            }
        },
        _ => {
            return Err(TaskError::SerializationError("invalid task record".to_owned()));
        },
    };
    let retries: u32 = match &v5 {
        JValue::Int(n) => {
            if *n < 0 || *n > u32::MAX as i64 {
                return Err(TaskError::SerializationError("invalid task record".to_owned()));
            }
            *n as u32
        },
        _ => {
            return Err(TaskError::SerializationError("invalid task record".to_owned()));
        },
    };
    let max_retries: u32 = match &v6 {
        JValue::Int(n) => {
            if *n < 0 || *n > u32::MAX as i64 {
                return Err(TaskError::SerializationError("invalid task record".to_owned()));
            }
            *n as u32
        },
        _ => {
            return Err(TaskError::SerializationError("invalid task record".to_owned()));
        },
    };
    let result: Option<Vec<u8>> = match &v7 {
        JValue::Null => None,
        JValue::Arr(items) => {
            match bytes_from_items(items) {
                Some(b) => Some(b),
                None => {
                    return Err(TaskError::SerializationError("invalid task record".to_owned()));
                },
            }
        },
        _ => {
            return Err(TaskError::SerializationError("invalid task record".to_owned()));
        },
    };
    let t = Task { id, name, payload, status, created_at, retries, max_retries, result };
    proof {
        assert forall|tv: TaskView|
            ts_in_range(tv.created_at) && s@ == #[trigger] ser_task(tv) implies t@ =~= tv by {
            assert(mvs.len() == 8);
            assert(jview_of(mvs[0].1) == JView::Str(uuid_chars(tv.id)));
            assert(t.id == tv.id);
            assert(jview_of(mvs[1].1) == JView::Str(tv.name));
            assert(t.name@ == tv.name);
            assert(jview_of(mvs[2].1) == JView::Arr(bytes_jviews(tv.payload)));
            assert(t.payload@ == tv.payload);
            assert(jview_of(mvs[3].1) == status_jview(tv.status));
            reveal_strlit("Pending");
            reveal_strlit("Running");
            reveal_strlit("Completed");
            reveal_strlit("Cancelled");
            assert("Pending"@[0] == 'P' && "Running"@[0] == 'R' && "Completed"@[0] == 'C'
                && "Cancelled"@[0] == 'C' && "Completed"@[1] == 'o' && "Cancelled"@[1] == 'a');
            assert("Pending"@ != "Running"@ && "Pending"@ != "Completed"@ && "Pending"@
                != "Cancelled"@ && "Running"@ != "Completed"@ && "Running"@ != "Cancelled"@
                && "Completed"@ != "Cancelled"@);
            assert(t.status@ == tv.status);
            assert(jview_of(mvs[4].1) == JView::Str(ts_chars(tv.created_at)));
            assert(t.created_at == tv.created_at);
            assert(t.retries == tv.retries);
            assert(t.max_retries == tv.max_retries);
            match tv.result {
                None => {
                    assert(jview_of(mvs[7].1) == JView::Null);
                    assert(t.result is None);
                },
                Some(b) => {
                    assert(jview_of(mvs[7].1) == JView::Arr(bytes_jviews(b)));
                    assert(t@.result == Some(b));
                },
            }
        }
    }
    Ok(t)
}

/// The mathematical value of a signature.
pub struct SigView {
    pub name: Seq<char>,
    pub args: Seq<JView>,
    pub kwargs: Seq<(Seq<char>, JView)>,
}

impl View for TaskSignature {
    type V = SigView;

    open spec fn view(&self) -> SigView {
        SigView { name: self.name@, args: jviews_of(self.args@), kwargs: jmembers_of(self.kwargs@) }
    }
}

/// The members of a signature's wire record, in order.
pub open spec fn sig_members(sv: SigView) -> Seq<(Seq<char>, JView)> {
    seq![
        ("name"@, JView::Str(sv.name)),
        ("args"@, JView::Arr(sv.args)),
        ("kwargs"@, JView::Obj(sv.kwargs)),
    ]
}

/// The wire form of a signature: one JSON object.
pub open spec fn ser_signature(sv: SigView) -> Seq<u8> {
    ser_jvalue(JView::Obj(sig_members(sv)))
}

/// The flat text the writer lays down for a signature.
proof fn lemma_sig_assemble(sv: SigView)
    ensures
        ser_signature(sv) == seq![0x7Bu8] + crate::json::ser_jstring("name"@) + seq![0x3Au8]
            + crate::json::ser_jstring(sv.name) + seq![0x2Cu8] + crate::json::ser_jstring("args"@)
            + seq![0x3Au8] + ser_jvalue(JView::Arr(sv.args)) + seq![0x2Cu8]
            + crate::json::ser_jstring("kwargs"@) + seq![0x3Au8] + ser_jvalue(JView::Obj(sv.kwargs))
            + seq![0x7Du8],
{
    let ms = sig_members(sv);
    let m1 = ms.drop_first();
    let m2 = m1.drop_first();
    assert(m1.len() == 2 && m2.len() == 1);
    assert(m1[0] == ms[1] && m2[0] == ms[2]);
    assert(ser_jvalue(ms[0].1) == crate::json::ser_jstring(sv.name));
    let y0 = seq![0x7Bu8];
    assert(crate::json::ser_obj_members(ms) == crate::json::ser_jstring(ms[0].0) + seq![0x3Au8]
        + ser_jvalue(ms[0].1) + seq![0x2Cu8] + crate::json::ser_obj_members(m1));
    lemma_flatten_member(y0, ms[0].0, ms[0].1, crate::json::ser_obj_members(m1));
    let y1 = y0 + crate::json::ser_jstring(ms[0].0) + seq![0x3Au8] + ser_jvalue(ms[0].1) + seq![
        0x2Cu8,
    ];
    assert(y0 + crate::json::ser_obj_members(ms) == y1 + crate::json::ser_obj_members(m1));
    assert(crate::json::ser_obj_members(m1) == crate::json::ser_jstring(m1[0].0) + seq![0x3Au8]
        + ser_jvalue(m1[0].1) + seq![0x2Cu8] + crate::json::ser_obj_members(m2));
    lemma_flatten_member(y1, m1[0].0, m1[0].1, crate::json::ser_obj_members(m2));
    let y2 = y1 + crate::json::ser_jstring(m1[0].0) + seq![0x3Au8] + ser_jvalue(m1[0].1) + seq![
        0x2Cu8,
    ];
    assert(y0 + crate::json::ser_obj_members(ms) == y2 + crate::json::ser_obj_members(m2));
    assert(crate::json::ser_obj_members(m2) == crate::json::ser_jstring(m2[0].0) + seq![0x3Au8]
        + ser_jvalue(m2[0].1));
    lemma_flatten_last(y2, m2[0].0, m2[0].1);
    let y3 = y2 + crate::json::ser_jstring(m2[0].0) + seq![0x3Au8] + ser_jvalue(m2[0].1);
    assert(y0 + crate::json::ser_obj_members(ms) == y3);
    assert(ser_signature(sv) == seq![0x7Bu8] + crate::json::ser_obj_members(ms) + seq![0x7Du8]);
    vstd::seq_lib::lemma_concat_associative(y0, crate::json::ser_obj_members(ms), seq![0x7Du8]);
    assert(ser_signature(sv) == y3 + seq![0x7Du8]);
}

impl TaskSignature {
    /// The wire record of the signature: one JSON object carrying the
    /// handler name and the arguments.
    pub fn to_bytes(&self) -> (r: Vec<u8>)
        ensures
            r@ == ser_signature(self@),
    {
        let mut out: Vec<u8> = Vec::new();
        let ghost mut acc: Seq<u8> = Seq::empty();
        out.push(0x7B);
        proof {
            acc = seq![0x7Bu8];
            assert(out@ =~= acc);
        }
        write_jstring(&mut out, "name");
        proof {
            acc = acc + crate::json::ser_jstring("name"@);
        }
        out.push(0x3A);
        proof {
            let acc2 = acc + seq![0x3Au8];
            assert(out@ =~= acc2);
            acc = acc2;
        }
        write_jstring(&mut out, self.name.as_str());
        proof {
            acc = acc + crate::json::ser_jstring(self.name@);
        }
        out.push(0x2C);
        proof {
            let acc2 = acc + seq![0x2Cu8];
            assert(out@ =~= acc2);
            acc = acc2;
        }
        write_jstring(&mut out, "args");
        proof {
            acc = acc + crate::json::ser_jstring("args"@);
        }
        out.push(0x3A);
        proof {
            let acc2 = acc + seq![0x3Au8];
            assert(out@ =~= acc2);
            acc = acc2;
        }
        out.push(0x5B);
        proof {
            let acc2 = acc + seq![0x5Bu8];
            assert(out@ =~= acc2);
            acc = acc2;
        }
        crate::json::write_arr_items(&self.args, 0, &mut out);
        proof {
            acc = acc + crate::json::ser_arr_items(crate::json::jviews_from(self.args@, 0));
        }
        out.push(0x5D);
        proof {
            let acc2 = acc + seq![0x5Du8];
            assert(out@ =~= acc2);
            acc = acc2;
        }
        out.push(0x2C);
        proof {
            let acc2 = acc + seq![0x2Cu8];
            assert(out@ =~= acc2);
            acc = acc2;
        }
        write_jstring(&mut out, "kwargs");
        proof {
            acc = acc + crate::json::ser_jstring("kwargs"@);
        }
        out.push(0x3A);
        proof {
            let acc2 = acc + seq![0x3Au8];
            assert(out@ =~= acc2);
            acc = acc2;
        }
        out.push(0x7B);
        proof {
            let acc2 = acc + seq![0x7Bu8];
            assert(out@ =~= acc2);
            acc = acc2;
        }
        crate::json::write_obj_members(&self.kwargs, 0, &mut out);
        proof {
            acc = acc + crate::json::ser_obj_members(crate::json::jmembers_from(self.kwargs@, 0));
        }
        out.push(0x7D);
        proof {
            let acc2 = acc + seq![0x7Du8];
            assert(out@ =~= acc2);
            acc = acc2;
        }
        out.push(0x7D);
        proof {
            let acc2 = acc + seq![0x7Du8];
            assert(out@ =~= acc2);
            acc = acc2;
        }
        proof {
            lemma_sig_assemble(self@);
            assert(self.args@.subrange(0, self.args@.len() as int) =~= self.args@);
            assert(crate::json::jviews_from(self.args@, 0) == jviews_of(self.args@));
            assert(self.kwargs@.subrange(0, self.kwargs@.len() as int) =~= self.kwargs@);
            assert(crate::json::jmembers_from(self.kwargs@, 0) == jmembers_of(self.kwargs@));
            assert(ser_jvalue(JView::Arr(self@.args)) == seq![0x5Bu8] + crate::json::ser_arr_items(
                self@.args,
            ) + seq![0x5Du8]);
            assert(ser_jvalue(JView::Obj(self@.kwargs)) == seq![0x7Bu8]
                + crate::json::ser_obj_members(self@.kwargs) + seq![0x7Du8]);
            lemma_flatten_seg3(
                seq![0x7Bu8] + crate::json::ser_jstring("name"@) + seq![0x3Au8]
                    + crate::json::ser_jstring(self.name@) + seq![0x2Cu8]
                    + crate::json::ser_jstring("args"@) + seq![0x3Au8],
                seq![0x5Bu8],
                crate::json::ser_arr_items(self@.args),
                seq![0x5Du8],
            );
            lemma_flatten_seg3(
                seq![0x7Bu8] + crate::json::ser_jstring("name"@) + seq![0x3Au8]
                    + crate::json::ser_jstring(self.name@) + seq![0x2Cu8]
                    + crate::json::ser_jstring("args"@) + seq![0x3Au8] + ser_jvalue(
                    JView::Arr(self@.args),
                ) + seq![0x2Cu8] + crate::json::ser_jstring("kwargs"@) + seq![0x3Au8],
                seq![0x7Bu8],
                crate::json::ser_obj_members(self@.kwargs),
                seq![0x7Du8],
            );
            assert(out@ == ser_signature(self@));
        }
        out
    }
}

/// Rewrites a bracketed three-part text onto the end of a flat text.
proof fn lemma_flatten_seg3(x: Seq<u8>, a: Seq<u8>, b: Seq<u8>, c: Seq<u8>)
    ensures
        x + (a + b + c) == x + a + b + c,
{
    vstd::seq_lib::lemma_concat_associative(x, a + b, c);
    vstd::seq_lib::lemma_concat_associative(x, a, b);
}

/// Reads a signature's wire record back. Whatever else it does, it rebuilds
/// every signature whose record the text is: parsing what `to_bytes` wrote
/// yields an equal signature.
pub fn parse_signature(payload: &Vec<u8>) -> (r: Result<TaskSignature, TaskError>)
    ensures
        forall|sv: SigView|
            payload@ == #[trigger] ser_signature(sv) ==> (r matches Ok(sig) && sig@ == sv),
{
    proof {
        assert forall|sv: SigView| payload@ == #[trigger] ser_signature(sv) implies text_at(
            payload@,
            0,
            crate::json::ser_jvalue(JView::Obj(sig_members(sv))),
        ) && crate::json::non_digit_at(
            payload@,
            crate::json::ser_jvalue(JView::Obj(sig_members(sv))).len() as int,
        ) by {
            assert(payload@.subrange(0, payload@.len() as int) =~= payload@);
        }
    }
    let parsed = parse_jvalue(payload, 0);
    let (j, p) = match parsed {
        Some(pair) => pair,
        None => {
            return Err(TaskError::SerializationError("invalid signature payload".to_owned()));
        },
    };
    if p != payload.len() {
        return Err(TaskError::SerializationError("invalid signature payload".to_owned()));
    }
    let mut members: Vec<(String, JValue)> = match j {
        JValue::Obj(ms) => ms,
        _ => {
            return Err(TaskError::SerializationError("invalid signature payload".to_owned()));
        },
    };
    let ghost mvs = members@;
    proof {
        assert forall|sv: SigView| payload@ == #[trigger] ser_signature(sv) implies (mvs.len() == 3
            && mvs[0].0@ == "name"@ && jview_of(mvs[0].1) == JView::Str(sv.name) && mvs[1].0@
            == "args"@ && jview_of(mvs[1].1) == JView::Arr(sv.args) && mvs[2].0@ == "kwargs"@
            && jview_of(mvs[2].1) == JView::Obj(sv.kwargs)) by {
            lemma_jmembers_of_index(mvs);
            assert(jmembers_of(mvs) == sig_members(sv));
            assert(forall|i: int| 0 <= i < 3 ==> #[trigger] jmembers_of(mvs)[i] == sig_members(
                sv,
            )[i]);
        }
    }
    if members.len() != 3 {
        return Err(TaskError::SerializationError("invalid signature payload".to_owned()));
    }
    let (k2, v2) = match members.pop() {
        Some(x) => x,
        None => {
            return Err(TaskError::SerializationError("invalid signature payload".to_owned()));
        },
    };
    let (k1, v1) = match members.pop() {
        Some(x) => x,
        None => {
            return Err(TaskError::SerializationError("invalid signature payload".to_owned()));
        },
    };
    let (k0, v0) = match members.pop() {
        Some(x) => x,
        None => {
            return Err(TaskError::SerializationError("invalid signature payload".to_owned()));
        },
    };
    proof {
        assert((k0, v0) == mvs[0] && (k1, v1) == mvs[1] && (k2, v2) == mvs[2]);
    }
    if !(k0 == "name".to_owned() && k1 == "args".to_owned() && k2 == "kwargs".to_owned()) {
        return Err(TaskError::SerializationError("invalid signature payload".to_owned()));
    }
    let name: String = match v0 {
        JValue::Str(nm) => nm,
        _ => {
            return Err(TaskError::SerializationError("invalid signature payload".to_owned()));
        },
    };
    let args: Vec<JValue> = match v1 {
        JValue::Arr(items) => items,
        _ => {
            return Err(TaskError::SerializationError("invalid signature payload".to_owned()));
        },
    };
    let kwargs: Vec<(String, JValue)> = match v2 {
        JValue::Obj(ms) => ms,
        _ => {
            return Err(TaskError::SerializationError("invalid signature payload".to_owned()));
        },
    };
    let sig = TaskSignature { name, args, kwargs };
    proof {
        assert forall|sv: SigView| payload@ == #[trigger] ser_signature(sv) implies sig@ =~= sv by {
            assert(mvs.len() == 3);
        }
    }
    Ok(sig)
}

impl Task {
    /// A short description of the task: its identifier's hyphenated form
    /// and its name.
    pub fn display_string(&self) -> (r: String)
        ensures
            r@ == "Task("@ + uuid_chars(self@.id) + ", "@ + self@.name + ")"@,
    {
        let mut out = "Task(".to_owned();
        let us = uuid_string(self.id);
        out.append(us.as_str());
        out.append(", ");
        out.append(self.name.as_str());
        out.append(")");
        out
    }
}

} // verus!



