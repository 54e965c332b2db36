//! The byte-level codec for documents.
//!
//! `ser` is the canonical serialization: no whitespace, `"` and `\` escaped
//! with a backslash, every other byte of a string taken as itself, integers
//! in decimal. `to_bytes` produces exactly `ser` of the document. The reader
//! accepts canonical bytes and, between tokens, whitespace.

use vstd::prelude::*;
use crate::json::Json;
use crate::json::JVal;
use crate::json::lemma_seq_view;
use crate::json::lemma_pairs_view;
use crate::json::lemma_wf_seq_all;
use crate::json::lemma_wf_seq_from_all;
use crate::json::lemma_wf_pairs_all;
use crate::json::lemma_wf_pairs_from_all;

verus! {

pub open spec fn is_ws(b: u8) -> bool {
    b == 32 || b == 9 || b == 10 || b == 13
}

pub open spec fn is_digit(b: u8) -> bool {
    48 <= b <= 57
}

/// The decimal digits of `n`, most significant first.
pub open spec fn digits(n: nat) -> Seq<u8>
    decreases n,
{
    if n < 10 {
        seq![(48 + n) as u8]
    } else {
        digits(n / 10).push((48 + n % 10) as u8)
    }
}

/// The decimal form of `i`: a minus sign for negative values, then digits.
pub open spec fn int_ser(i: int) -> Seq<u8> {
    if i >= 0 {
        digits(i as nat)
    } else {
        seq![45u8] + digits((-i) as nat)
    }
}

/// How one byte of a string is written: `"` and `\` get a backslash.
pub open spec fn esc_byte(b: u8) -> Seq<u8> {
    if b == 34 || b == 92 {
        seq![92u8, b]
    } else {
        seq![b]
    }
}

/// The escaped form of a string's bytes.
pub open spec fn esc(s: Seq<u8>) -> Seq<u8>
    decreases s,
{
    if s.len() == 0 {
        Seq::empty()
    } else {
        esc(s.drop_last()) + esc_byte(s.last())
    }
}

/// The canonical serialization of a document.
pub open spec fn ser(v: JVal) -> Seq<u8>
    decreases v,
{
    match v {
        JVal::Null => seq![110u8, 117u8, 108u8, 108u8],
        JVal::Bool(b) => if b {
            seq![116u8, 114u8, 117u8, 101u8]
        } else {
            seq![102u8, 97u8, 108u8, 115u8, 101u8]
        },
        JVal::Int(i) => int_ser(i),
        JVal::Str(s) => seq![34u8] + esc(s) + seq![34u8],
        JVal::Arr(a) => seq![91u8] + ser_elems(a) + seq![93u8],
        JVal::Obj(o) => seq![123u8] + ser_members(o) + seq![125u8],
    }
}

/// The elements of an array, separated by commas.
pub open spec fn ser_elems(a: Seq<JVal>) -> Seq<u8>
    decreases a,
{
    if a.len() == 0 {
        Seq::empty()
    } else if a.len() == 1 {
        ser(a[0])
    } else {
        ser_elems(a.drop_last()) + seq![44u8] + ser(a.last())
    }
}

/// One object binding: the quoted key, a colon, the value.
pub open spec fn ser_member(p: (Seq<u8>, JVal)) -> Seq<u8>
    decreases p,
{
    seq![34u8] + esc(p.0) + seq![34u8, 58u8] + ser(p.1)
}

/// The bindings of an object, separated by commas.
pub open spec fn ser_members(o: Seq<(Seq<u8>, JVal)>) -> Seq<u8>
    decreases o,
{
    if o.len() == 0 {
        Seq::empty()
    } else if o.len() == 1 {
        ser_member(o[0])
    } else {
        ser_members(o.drop_last()) + seq![44u8] + ser_member(o.last())
    }
}

/// Writes the decimal digits of `n`.
fn write_nat(n: u64, out: &mut Vec<u8>)
    ensures
        final(out)@ == old(out)@ + digits(n as nat),
    decreases n,
{
    if n < 10 {
        out.push(48 + n as u8);
        proof {
            assert(final(out)@ =~= old(out)@ + digits(n as nat));
        }
    } else {
        write_nat(n / 10, out);
        out.push(48 + (n % 10) as u8);
        proof {
            assert(final(out)@ =~= old(out)@ + digits(n as nat));
        }
    }
}

/// Writes the canonical serialization of a document.
fn write_value(j: &Json, out: &mut Vec<u8>)
    ensures
        final(out)@ == old(out)@ + ser(j@),
    decreases *j,
{
    match j {
        Json::Null => {
            out.push(110);
            out.push(117);
            out.push(108);
            out.push(108);
            proof {
                assert(final(out)@ =~= old(out)@ + ser(j@));
            }
        }
        Json::Bool(b) => {
            if *b {
                out.push(116);
                out.push(114);
                out.push(117);
                out.push(101);
            } else {
                out.push(102);
                out.push(97);
                out.push(108);
                out.push(115);
                out.push(101);
            }
            proof {
                assert(final(out)@ =~= old(out)@ + ser(j@));
            }
        }
        Json::Int(i) => {
            let i = *i;
            if i < 0 {
                out.push(45);
                let m: u64 = (-(i as i128)) as u64;
                proof {
                    assert(m == -(i as int));
                }
                write_nat(m, out);
                proof {
                    assert(final(out)@ =~= old(out)@ + (seq![45u8] + digits((-(i as int)) as nat)));
                }
            } else {
                write_nat(i as u64, out);
            }
        }
        Json::Str(s) => {
            out.push(34);
            let mut k: usize = 0;
            while k < s.len()
                invariant
                    k <= s@.len(),
                    out@ == old(out)@ + seq![34u8] + esc(s@.take(k as int)),
                decreases s@.len() - k,
            {
                let b = s[k];
                if b == 34 || b == 92 {
                    out.push(92);
                    out.push(b);
                } else {
                    out.push(b);
                }
                proof {
                    assert(s@.take(k + 1).drop_last() =~= s@.take(k as int));
                    assert(s@.take(k + 1).last() == s@[k as int]);
                    assert(out@ =~= old(out)@ + seq![34u8] + esc(s@.take(k + 1)));
                }
                k = k + 1;
            }
            out.push(34);
            proof {
                assert(s@.take(s@.len() as int) =~= s@);
                assert(final(out)@ =~= old(out)@ + ser(j@));
            }
        }
        Json::Arr(v) => {
            out.push(91);
            let ghost va = Json::seq_view(v@);
            proof {
                lemma_seq_view(v@);
            }
            let mut k: usize = 0;
            while k < v.len()
                invariant
                    k <= v@.len(),
                    va == Json::seq_view(v@),
                    va.len() == v@.len(),
                    forall|t: int| 0 <= t < v@.len() ==> #[trigger] va[t] == v@[t]@,
                    out@ == old(out)@ + seq![91u8] + ser_elems(va.take(k as int)),
                    *j == Json::Arr(*v),
                decreases v@.len() - k,
            {
                if k > 0 {
                    out.push(44);
                }
                proof {
                    let a = *j;
                    assert(decreases_to!(a => a->Arr_0));
                    assert(a->Arr_0 == *v);
                    assert(decreases_to!(*v => v@));
                    assert(decreases_to!(v@ => v@[k as int]));
                }
                write_value(&v[k], out);
                proof {
                    assert(va.take(k + 1).drop_last() =~= va.take(k as int));
                    assert(va.take(k + 1).last() == va[k as int]);
                    if k == 0 {
                        assert(va.take(1)[0] == va[0]);
                        assert(ser_elems(va.take(1)) == ser(va[0]));
                    }
                    assert(out@ =~= old(out)@ + seq![91u8] + ser_elems(va.take(k + 1)));
                }
                k = k + 1;
            }
            out.push(93);
            proof {
                assert(va.take(va.len() as int) =~= va);
                assert(final(out)@ =~= old(out)@ + (seq![91u8] + ser_elems(va) + seq![93u8]));
            }
        }
        Json::Obj(v) => {
            out.push(123);
            let ghost vo = Json::pairs_view(v@);
            proof {
                lemma_pairs_view(v@);
            }
            let mut k: usize = 0;
            while k < v.len()
                invariant
                    k <= v@.len(),
                    vo == Json::pairs_view(v@),
                    vo.len() == v@.len(),
                    forall|t: int| 0 <= t < v@.len() ==> #[trigger] vo[t] == (v@[t].0@, v@[t].1@),
                    out@ == old(out)@ + seq![123u8] + ser_members(vo.take(k as int)),
                    *j == Json::Obj(*v),
                decreases v@.len() - k,
            {
                if k > 0 {
                    out.push(44);
                }
                out.push(34);
                let key = &v[k].0;
                let mut t: usize = 0;
                while t < key.len()
                    invariant
                        t <= key@.len(),
                        out@ == old(out)@ + seq![123u8] + ser_members(vo.take(k as int)) + (if k
                            > 0 {
                            seq![44u8]
                        } else {
                            Seq::<u8>::empty()
                        }) + seq![34u8] + esc(key@.take(t as int)),
                    decreases key@.len() - t,
                {
                    let b = key[t];
                    if b == 34 || b == 92 {
                        out.push(92);
                        out.push(b);
                    } else {
                        out.push(b);
                    }
                    proof {
                        assert(key@.take(t + 1).drop_last() =~= key@.take(t as int));
                        assert(key@.take(t + 1).last() == key@[t as int]);
                        assert(out@ =~= old(out)@ + seq![123u8] + ser_members(vo.take(k as int))
                            + (if k > 0 {
                                seq![44u8]
                            } else {
                                Seq::<u8>::empty()
                            }) + seq![34u8] + esc(key@.take(t + 1)));
                    }
                    t = t + 1;
                }
                out.push(34);
                out.push(58);
                proof {
                    let a = *j;
                    assert(decreases_to!(a => a->Obj_0));
                    assert(a->Obj_0 == *v);
                    assert(decreases_to!(*v => v@));
                    assert(decreases_to!(v@ => v@[k as int]));
                    let p = v@[k as int];
                    assert(decreases_to!(p => p.1));
                }
                write_value(&v[k].1, out);
                proof {
                    assert(key@.take(key@.len() as int) =~= key@);
                    assert(ser_member(vo[k as int]) =~= seq![34u8] + esc(key@) + seq![34u8, 58u8]
                        + ser(v@[k as int].1@));
                    assert(vo.take(k + 1).drop_last() =~= vo.take(k as int));
                    assert(vo.take(k + 1).last() == vo[k as int]);
                    if k == 0 {
                        assert(vo.take(1)[0] == vo[0]);
                        assert(ser_members(vo.take(1)) == ser_member(vo[0]));
                    }
                    assert(out@ =~= old(out)@ + seq![123u8] + ser_members(vo.take(k + 1)));
                }
                k = k + 1;
            }
            out.push(125);
            proof {
                assert(vo.take(vo.len() as int) =~= vo);
                assert(final(out)@ =~= old(out)@ + (seq![123u8] + ser_members(vo) + seq![125u8]));
            }
        }
    }
}

/// A position clamped into `[lo, s.len()]`, so that the reader's recursion
/// is total however an inner position was produced. On the runs the reader
/// actually takes, the position is already in range and the clamp changes
/// nothing.
pub open spec fn clamp(s: Seq<u8>, lo: int, n: int) -> int {
    if n < lo {
        lo
    } else if n > s.len() {
        s.len() as int
    } else {
        n
    }
}

/// The first position at or after `j` that holds no whitespace.
pub open spec fn p_ws(s: Seq<u8>, j: int) -> int
    decreases s.len() - j,
{
    if 0 <= j < s.len() && is_ws(s[j]) {
        p_ws(s, j + 1)
    } else {
        j
    }
}

/// The first position at or after `j` that holds no decimal digit.
pub open spec fn p_digits_end(s: Seq<u8>, j: int) -> int
    decreases s.len() - j,
{
    if 0 <= j < s.len() && is_digit(s[j]) {
        p_digits_end(s, j + 1)
    } else {
        j
    }
}

/// The numeric value of a run of decimal digits.
pub open spec fn num_val(ds: Seq<u8>) -> int
    decreases ds,
{
    if ds.len() == 0 {
        0
    } else {
        num_val(ds.drop_last()) * 10 + (ds.last() - 48)
    }
}

/// Reads an integer at `i`: an optional minus sign, then a run of at most
/// 19 digits whose value fits in a 64-bit signed integer.
pub open spec fn p_int(s: Seq<u8>, i: int) -> Option<(JVal, int)> {
    let neg = 0 <= i < s.len() && s[i] == 45;
    let d0 = if neg {
        i + 1
    } else {
        i
    };
    if 0 <= d0 < s.len() && is_digit(s[d0]) {
        let e = p_digits_end(s, d0);
        if e - d0 > 19 {
            Option::None
        } else {
            let m = num_val(s.subrange(d0, e));
            if neg {
                if m <= 0x8000_0000_0000_0000 {
                    Option::Some((JVal::Int(-m), e))
                } else {
                    Option::None
                }
            } else {
                if m <= 0x7fff_ffff_ffff_ffff {
                    Option::Some((JVal::Int(m), e))
                } else {
                    Option::None
                }
            }
        }
    } else {
        Option::None
    }
}

/// Reads the body of a string from `j` (the opening quote already behind):
/// bytes up to the closing quote, a backslash escaping only `"` or `\`.
pub open spec fn p_str(s: Seq<u8>, j: int) -> Option<(Seq<u8>, int)>
    decreases s.len() - j,
{
    if !(0 <= j < s.len()) {
        Option::None
    } else if s[j] == 34 {
        Option::Some((Seq::empty(), j + 1))
    } else if s[j] == 92 {
        if j + 1 < s.len() && (s[j + 1] == 34 || s[j + 1] == 92) {
            match p_str(s, j + 2) {
                Option::Some((t, e)) => Option::Some((seq![s[j + 1]] + t, e)),
                Option::None => Option::None,
            }
        } else {
            Option::None
        }
    } else {
        match p_str(s, j + 1) {
            Option::Some((t, e)) => Option::Some((seq![s[j]] + t, e)),
            Option::None => Option::None,
        }
    }
}

/// Reads one value at `i`. The first byte picks the form; whitespace is
/// accepted between tokens, not before `i`.
pub open spec fn p_value(s: Seq<u8>, i: int) -> Option<(JVal, int)>
    decreases s.len() - i, 0int,
{
    if !(0 <= i < s.len()) {
        Option::None
    } else {
        let b = s[i];
        if b == 110 {
            if i + 4 <= s.len() && s[i + 1] == 117 && s[i + 2] == 108 && s[i + 3] == 108 {
                Option::Some((JVal::Null, i + 4))
            } else {
                Option::None
            }
        } else if b == 116 {
            if i + 4 <= s.len() && s[i + 1] == 114 && s[i + 2] == 117 && s[i + 3] == 101 {
                Option::Some((JVal::Bool(true), i + 4))
            } else {
                Option::None
            }
        } else if b == 102 {
            if i + 5 <= s.len() && s[i + 1] == 97 && s[i + 2] == 108 && s[i + 3] == 115 && s[i + 4]
                == 101 {
                Option::Some((JVal::Bool(false), i + 5))
            } else {
                Option::None
            }
        } else if b == 45 || is_digit(b) {
            p_int(s, i)
        } else if b == 34 {
            match p_str(s, i + 1) {
                Option::Some((t, e)) => Option::Some((JVal::Str(t), e)),
                Option::None => Option::None,
            }
        } else if b == 91 {
            let sw = clamp(s, i + 1, p_ws(s, i + 1));
            if sw < s.len() && s[sw] == 93 {
                Option::Some((JVal::Arr(Seq::empty()), sw + 1))
            } else {
                match p_elems(s, sw) {
                    Option::Some((es, e)) => Option::Some((JVal::Arr(es), e)),
                    Option::None => Option::None,
                }
            }
        } else if b == 123 {
            let sw = clamp(s, i + 1, p_ws(s, i + 1));
            if sw < s.len() && s[sw] == 125 {
                Option::Some((JVal::Obj(Seq::empty()), sw + 1))
            } else {
                match p_members(s, sw) {
                    Option::Some((ms, e)) => Option::Some((JVal::Obj(ms), e)),
                    Option::None => Option::None,
                }
            }
        } else {
            Option::None
        }
    }
}

/// Reads the elements of a non-empty array from `j` up to and including the
/// closing bracket.
pub open spec fn p_elems(s: Seq<u8>, j: int) -> Option<(Seq<JVal>, int)>
    decreases s.len() - j, 1int,
{
    if !(0 <= j <= s.len()) {
        Option::None
    } else {
        match p_value(s, j) {
            Option::None => Option::None,
            Option::Some((v, n0)) => {
                let n = clamp(s, j + 1, n0);
                let sw = clamp(s, n, p_ws(s, n));
                if sw < s.len() && s[sw] == 44 {
                    let sw2 = clamp(s, sw + 1, p_ws(s, sw + 1));
                    match p_elems(s, sw2) {
                        Option::Some((es, e)) => Option::Some((seq![v] + es, e)),
                        Option::None => Option::None,
                    }
                } else if sw < s.len() && s[sw] == 93 {
                    Option::Some((seq![v], sw + 1))
                } else {
                    Option::None
                }
            },
        }
    }
}

/// Reads the bindings of a non-empty object from `j` up to and including
/// the closing brace.
pub open spec fn p_members(s: Seq<u8>, j: int) -> Option<(Seq<(Seq<u8>, JVal)>, int)>
    decreases s.len() - j, 1int,
{
    if !(0 <= j < s.len() && s[j] == 34) {
        Option::None
    } else {
        match p_str(s, j + 1) {
            Option::None => Option::None,
            Option::Some((key, e0)) => {
                let e = clamp(s, j + 1, e0);
                let sw = clamp(s, e, p_ws(s, e));
                if sw < s.len() && s[sw] == 58 {
                    let vs = clamp(s, sw + 1, p_ws(s, sw + 1));
                    match p_value(s, vs) {
                        Option::None => Option::None,
                        Option::Some((v, n0)) => {
                            let n = clamp(s, vs + 1, n0);
                            let sw2 = clamp(s, n, p_ws(s, n));
                            if sw2 < s.len() && s[sw2] == 44 {
                                let ks = clamp(s, sw2 + 1, p_ws(s, sw2 + 1));
                                match p_members(s, ks) {
                                    Option::Some((ms, e2)) => Option::Some(
                                        (seq![(key, v)] + ms, e2),
                                    ),
                                    Option::None => Option::None,
                                }
                            } else if sw2 < s.len() && s[sw2] == 125 {
                                Option::Some((seq![(key, v)], sw2 + 1))
                            } else {
                                Option::None
                            }
                        },
                    }
                } else {
                    Option::None
                }
            },
        }
    }
}

/// Reads a whole document: optional whitespace, one value, optional
/// whitespace, the end of the input.
pub open spec fn p_doc(s: Seq<u8>) -> Option<JVal> {
    let i = clamp(s, 0, p_ws(s, 0));
    match p_value(s, i) {
        Option::None => Option::None,
        Option::Some((v, n0)) => {
            let n = clamp(s, i, n0);
            let e = clamp(s, n, p_ws(s, n));
            if e == s.len() {
                Option::Some(v)
            } else {
                Option::None
            }
        },
    }
}

/// Powers of ten.
pub open spec fn pow10(k: nat) -> int
    decreases k,
{
    if k == 0 {
        1
    } else {
        10 * pow10((k - 1) as nat)
    }
}

pub proof fn lemma_pow10_pos(k: nat)
    ensures
        pow10(k) >= 1,
    decreases k,
{
    if k > 0 {
        lemma_pow10_pos((k - 1) as nat);
    }
}

pub proof fn lemma_pow10_mono(a: nat, b: nat)
    requires
        a <= b,
    ensures
        pow10(a) <= pow10(b),
    decreases b,
{
    if a < b {
        lemma_pow10_mono(a, (b - 1) as nat);
        lemma_pow10_pos((b - 1) as nat);
    }
}

/// A digit scan never moves backwards.
pub proof fn lemma_p_digits_end_lb(s: Seq<u8>, j: int)
    ensures
        p_digits_end(s, j) >= j,
    decreases s.len() - j,
{
    if 0 <= j < s.len() && is_digit(s[j]) {
        lemma_p_digits_end_lb(s, j + 1);
    }
}

/// Moves `i` past any whitespace.
fn skip_ws(s: &[u8], i: usize) -> (r: usize)
    requires
        i <= s@.len(),
    ensures
        r == p_ws(s@, i as int),
        i <= r <= s@.len(),
{
    let mut j = i;
    while j < s.len() && (s[j] == 32 || s[j] == 9 || s[j] == 10 || s[j] == 13)
        invariant
            i <= j <= s@.len(),
            p_ws(s@, i as int) == p_ws(s@, j as int),
        decreases s@.len() - j,
    {
        j = j + 1;
    }
    j
}

/// Reads an integer, as `p_int` does.
fn parse_int(s: &[u8], i: usize) -> (r: Option<(Json, usize)>)
    requires
        i <= s@.len(),
    ensures
        match p_int(s@, i as int) {
            Option::None => r is None,
            Option::Some((v, n)) => r matches Option::Some(p) && p.0@ == v && (p.1 as int) == n
                && i < p.1 <= s@.len(),
        },
{
    let mut j = i;
    let mut neg = false;
    if j < s.len() && s[j] == 45 {
        neg = true;
        j = j + 1;
    }
    if j >= s.len() || s[j] < 48 || s[j] > 57 {
        return Option::None;
    }
    let ghost d0 = j as int;
    let mut acc: u64 = 0;
    let mut cnt: usize = 0;
    while j < s.len() && 48 <= s[j] && s[j] <= 57
        invariant
            i <= d0 <= j <= s@.len(),
            cnt == j - d0,
            cnt <= 19,
            forall|k: int| d0 <= k < j ==> is_digit(#[trigger] s@[k]),
            acc == num_val(s@.subrange(d0, j as int)),
            acc < pow10(cnt as nat),
            p_digits_end(s@, d0) == p_digits_end(s@, j as int),
            neg == (0 <= i < s@.len() && s@[i as int] == 45),
            d0 == if neg {
                i + 1
            } else {
                i as int
            },
            d0 < s@.len() && is_digit(s@[d0]),
        decreases s@.len() - j,
    {
        if cnt == 19 {
            proof {
                lemma_p_digits_end_lb(s@, j + 1);
            }
            return Option::None;
        }
        let d = (s[j] - 48) as u64;
        proof {
            lemma_pow10_mono((cnt + 1) as nat, 19);
            assert(pow10(19) == 10_000_000_000_000_000_000) by {
                reveal_with_fuel(pow10, 21);
            }
            assert(pow10((cnt + 1) as nat) == 10 * pow10(cnt as nat));
        }
        let ghost pre = s@.subrange(d0, j as int);
        acc = acc * 10 + d;
        proof {
            assert(s@.subrange(d0, j + 1).drop_last() =~= pre);
            assert(s@.subrange(d0, j + 1).last() == s@[j as int]);
        }
        j = j + 1;
        cnt = cnt + 1;
    }
    proof {
        assert(p_digits_end(s@, d0) == j as int);
    }
    if neg {
        if acc > 9_223_372_036_854_775_808u64 {
            return Option::None;
        }
        let v: i64 = if acc == 9_223_372_036_854_775_808u64 {
            i64::MIN
        } else {
            -(acc as i64)
        };
        Option::Some((Json::Int(v), j))
    } else {
        if acc > 9_223_372_036_854_775_807u64 {
            return Option::None;
        }
        Option::Some((Json::Int(acc as i64), j))
    }
}

/// Reads the body of a string, as `p_str` does.
fn parse_str(s: &[u8], i: usize) -> (r: Option<(Vec<u8>, usize)>)
    requires
        i <= s@.len(),
    ensures
        match p_str(s@, i as int) {
            Option::None => r is None,
            Option::Some((t, e)) => r matches Option::Some(p) && p.0@ == t && (p.1 as int) == e
                && i < p.1 <= s@.len(),
        },
{
    let mut out: Vec<u8> = Vec::new();
    let mut j = i;
    loop
        invariant
            i <= j <= s@.len(),
            match p_str(s@, j as int) {
                Option::None => p_str(s@, i as int) is None,
                Option::Some((t, e)) => p_str(s@, i as int) matches Option::Some(q) && q.0 == out@
                    + t && q.1 == e,
            },
        decreases s@.len() - j,
    {
        if j >= s.len() {
            return Option::None;
        }
        let b = s[j];
        if b == 34 {
            proof {
                assert(out@ + Seq::<u8>::empty() =~= out@);
            }
            return Option::Some((out, j + 1));
        } else if b == 92 {
            if j + 1 < s.len() && (s[j + 1] == 34 || s[j + 1] == 92) {
                let ghost ob = out@;
                out.push(s[j + 1]);
                proof {
                    let ps = p_str(s@, j + 2);
                    if ps is Some {
                        assert(ob + (seq![s@[j + 1]] + (ps->0).0) =~= out@ + (ps->0).0);
                    }
                }
                j = j + 2;
            } else {
                return Option::None;
            }
        } else {
            let ghost ob = out@;
            out.push(b);
            proof {
                let ps = p_str(s@, j + 1);
                if ps is Some {
                    assert(ob + (seq![s@[j as int]] + (ps->0).0) =~= out@ + (ps->0).0);
                }
            }
            j = j + 1;
        }
    }
}

/// Reads one value, as `p_value` does.
fn parse_value(s: &[u8], i: usize) -> (r: Option<(Json, usize)>)
    requires
        i <= s@.len(),
    ensures
        match p_value(s@, i as int) {
            Option::None => r is None,
            Option::Some((v, n)) => r matches Option::Some(p) && p.0@ == v && (p.1 as int) == n
                && i < p.1 <= s@.len(),
        },
    decreases s@.len() - i, 0int,
{
    if i >= s.len() {
        return Option::None;
    }
    let b = s[i];
    if b == 110 {
        if s.len() - i >= 4 && s[i + 1] == 117 && s[i + 2] == 108 && s[i + 3] == 108 {
            Option::Some((Json::Null, i + 4))
        } else {
            Option::None
        }
    } else if b == 116 {
        if s.len() - i >= 4 && s[i + 1] == 114 && s[i + 2] == 117 && s[i + 3] == 101 {
            Option::Some((Json::Bool(true), i + 4))
        } else {
            Option::None
        }
    } else if b == 102 {
        if s.len() - i >= 5 && s[i + 1] == 97 && s[i + 2] == 108 && s[i + 3] == 115 && s[i + 4]
            == 101 {
            Option::Some((Json::Bool(false), i + 5))
        } else {
            Option::None
        }
    } else if b == 45 || (48 <= b && b <= 57) {
        parse_int(s, i)
    } else if b == 34 {
        match parse_str(s, i + 1) {
            Option::Some((t, e)) => Option::Some((Json::Str(t), e)),
            Option::None => Option::None,
        }
    } else if b == 91 {
        let sw = skip_ws(s, i + 1);
        proof {
            assert(clamp(s@, i + 1, p_ws(s@, i + 1)) == sw as int);
        }
        if sw < s.len() && s[sw] == 93 {
            let es: Vec<Json> = Vec::new();
            proof {
                assert(Json::seq_view(es@) =~= Seq::<JVal>::empty());
            }
            Option::Some((Json::Arr(es), sw + 1))
        } else {
            match parse_elems(s, sw) {
                Option::Some((es, e)) => Option::Some((Json::Arr(es), e)),
                Option::None => Option::None,
            }
        }
    } else if b == 123 {
        let sw = skip_ws(s, i + 1);
        proof {
            assert(clamp(s@, i + 1, p_ws(s@, i + 1)) == sw as int);
        }
        if sw < s.len() && s[sw] == 125 {
            let ms: Vec<(Vec<u8>, Json)> = Vec::new();
            proof {
                assert(Json::pairs_view(ms@) =~= Seq::<(Seq<u8>, JVal)>::empty());
            }
            Option::Some((Json::Obj(ms), sw + 1))
        } else {
            match parse_members(s, sw) {
                Option::Some((ms, e)) => Option::Some((Json::Obj(ms), e)),
                Option::None => Option::None,
            }
        }
    } else {
        Option::None
    }
}

/// Reads the elements of a non-empty array, as `p_elems` does.
fn parse_elems(s: &[u8], j: usize) -> (r: Option<(Vec<Json>, usize)>)
    requires
        j <= s@.len(),
    ensures
        match p_elems(s@, j as int) {
            Option::None => r is None,
            Option::Some((es, e)) => r matches Option::Some(p) && Json::seq_view(p.0@) == es && (
            p.1 as int) == e && j < p.1 <= s@.len(),
        },
    decreases s@.len() - j, 1int,
{
    match parse_value(s, j) {
        Option::None => Option::None,
        Option::Some((v, n)) => {
            proof {
                assert(clamp(s@, j + 1, n as int) == n as int);
            }
            let sw = skip_ws(s, n);
            proof {
                assert(clamp(s@, n as int, p_ws(s@, n as int)) == sw as int);
            }
            if sw < s.len() && s[sw] == 44 {
                let sw2 = skip_ws(s, sw + 1);
                proof {
                    assert(clamp(s@, sw + 1, p_ws(s@, sw + 1)) == sw2 as int);
                }
                match parse_elems(s, sw2) {
                    Option::Some((es, e)) => {
                        let ghost vv = v@;
                        let ghost eso = es@;
                        let mut es = es;
                        es.insert(0, v);
                        proof {
                            lemma_seq_view(es@);
                            lemma_seq_view(eso);
                            assert(Json::seq_view(es@) =~= seq![vv] + Json::seq_view(eso));
                        }
                        Option::Some((es, e))
                    },
                    Option::None => Option::None,
                }
            } else if sw < s.len() && s[sw] == 93 {
                let ghost vv = v@;
                let mut es: Vec<Json> = Vec::new();
                es.push(v);
                proof {
                    lemma_seq_view(es@);
                    assert(Json::seq_view(es@) =~= seq![vv]);
                }
                Option::Some((es, sw + 1))
            } else {
                Option::None
            }
        },
    }
}

/// Reads the bindings of a non-empty object, as `p_members` does.
fn parse_members(s: &[u8], j: usize) -> (r: Option<(Vec<(Vec<u8>, Json)>, usize)>)
    requires
        j <= s@.len(),
    ensures
        match p_members(s@, j as int) {
            Option::None => r is None,
            Option::Some((ms, e)) => r matches Option::Some(p) && Json::pairs_view(p.0@) == ms
                && (p.1 as int) == e && j < p.1 <= s@.len(),
        },
    decreases s@.len() - j, 1int,
{
    if j >= s.len() || s[j] != 34 {
        return Option::None;
    }
    match parse_str(s, j + 1) {
        Option::None => Option::None,
        Option::Some((key, e)) => {
            proof {
                assert(clamp(s@, j + 1, e as int) == e as int);
            }
            let sw = skip_ws(s, e);
            proof {
                assert(clamp(s@, e as int, p_ws(s@, e as int)) == sw as int);
            }
            if sw < s.len() && s[sw] == 58 {
                let vs = skip_ws(s, sw + 1);
                proof {
                    assert(clamp(s@, sw + 1, p_ws(s@, sw + 1)) == vs as int);
                }
                match parse_value(s, vs) {
                    Option::None => Option::None,
                    Option::Some((v, n)) => {
                        proof {
                            assert(clamp(s@, vs + 1, n as int) == n as int);
                        }
                        let sw2 = skip_ws(s, n);
                        proof {
                            assert(clamp(s@, n as int, p_ws(s@, n as int)) == sw2 as int);
                        }
                        if sw2 < s.len() && s[sw2] == 44 {
                            let ks = skip_ws(s, sw2 + 1);
                            proof {
                                assert(clamp(s@, sw2 + 1, p_ws(s@, sw2 + 1)) == ks as int);
                            }
                            match parse_members(s, ks) {
                                Option::Some((ms, e2)) => {
                                    let ghost kk = key@;
                                    let ghost vv = v@;
                                    let ghost mso = ms@;
                                    let mut ms = ms;
                                    ms.insert(0, (key, v));
                                    proof {
                                        lemma_pairs_view(ms@);
                                        lemma_pairs_view(mso);
                                        assert(Json::pairs_view(ms@) =~= seq![(kk, vv)]
                                            + Json::pairs_view(mso));
                                    }
                                    Option::Some((ms, e2))
                                },
                                Option::None => Option::None,
                            }
                        } else if sw2 < s.len() && s[sw2] == 125 {
                            let ghost kk = key@;
                            let ghost vv = v@;
                            let mut ms: Vec<(Vec<u8>, Json)> = Vec::new();
                            ms.push((key, v));
                            proof {
                                lemma_pairs_view(ms@);
                                assert(Json::pairs_view(ms@) =~= seq![(kk, vv)]);
                            }
                            Option::Some((ms, sw2 + 1))
                        } else {
                            Option::None
                        }
                    },
                }
            } else {
                Option::None
            }
        },
    }
}

/// Reads a whole document, as `p_doc` does: optional whitespace, one value,
/// optional whitespace, the end of the input.
pub fn parse_doc(s: &[u8]) -> (r: Option<Json>)
    ensures
        match p_doc(s@) {
            Option::None => r is None,
            Option::Some(v) => r matches Option::Some(j) && j@ == v,
        },
{
    let i = skip_ws(s, 0);
    proof {
        assert(clamp(s@, 0, p_ws(s@, 0)) == i as int);
    }
    match parse_value(s, i) {
        Option::None => Option::None,
        Option::Some((j, n)) => {
            proof {
                assert(clamp(s@, i as int, n as int) == n as int);
            }
            let e = skip_ws(s, n);
            proof {
                assert(clamp(s@, n as int, p_ws(s@, n as int)) == e as int);
            }
            if e == s.len() {
                Option::Some(j)
            } else {
                Option::None
            }
        },
    }
}

/// `t` stands in `s` at position `i`.
pub open spec fn starts_at(s: Seq<u8>, i: int, t: Seq<u8>) -> bool {
    0 <= i && i + t.len() <= s.len() && s.subrange(i, i + t.len()) == t
}

pub proof fn lemma_starts_at_bytes(s: Seq<u8>, i: int, t: Seq<u8>)
    requires
        starts_at(s, i, t),
    ensures
        forall|k: int| 0 <= k < t.len() ==> s[i + k] == #[trigger] t[k],
{
    assert forall|k: int| 0 <= k < t.len() implies s[i + k] == #[trigger] t[k] by {
        assert(s.subrange(i, i + t.len())[k] == s[i + k]);
    }
}

pub proof fn lemma_starts_at_split(s: Seq<u8>, i: int, a: Seq<u8>, b: Seq<u8>)
    requires
        starts_at(s, i, a + b),
    ensures
        starts_at(s, i, a),
        starts_at(s, i + a.len(), b),
{
    lemma_starts_at_bytes(s, i, a + b);
    assert forall|k: int| 0 <= k < a.len() implies s.subrange(i, i + a.len())[k] == a[k] by {
        assert((a + b)[k] == a[k]);
    }
    assert(s.subrange(i, i + a.len()) =~= a);
    assert forall|k: int| 0 <= k < b.len() implies s.subrange(
        i + a.len(),
        i + a.len() + b.len(),
    )[k] == b[k] by {
        assert((a + b)[a.len() + k] == b[k]);
    }
    assert(s.subrange(i + a.len(), i + a.len() + b.len()) =~= b);
}

/// The digits of `n` are decimal digits, at least one, and their value is
/// `n` again.
pub proof fn lemma_digits_all(n: nat)
    ensures
        digits(n).len() >= 1,
        forall|k: int| 0 <= k < digits(n).len() ==> is_digit(#[trigger] digits(n)[k]),
        num_val(digits(n)) == n,
    decreases n,
{
    if n < 10 {
        assert(digits(n) == seq![(48 + n) as u8]);
        assert(digits(n).drop_last() =~= Seq::<u8>::empty());
        assert(digits(n).last() == (48 + n) as u8);
        assert(num_val(Seq::<u8>::empty()) == 0);
        assert(num_val(digits(n)) == n);
    } else {
        lemma_digits_all(n / 10);
        let d = (48 + n % 10) as u8;
        assert(digits(n) == digits(n / 10).push(d));
        assert forall|k: int| 0 <= k < digits(n).len() implies is_digit(
            #[trigger] digits(n)[k],
        ) by {
            if k < digits(n).len() - 1 {
                assert(digits(n)[k] == digits(n / 10)[k]);
            } else {
                assert(digits(n)[k] == d);
            }
        }
        assert(digits(n).drop_last() =~= digits(n / 10));
        assert(digits(n).last() == d);
        assert(num_val(digits(n)) == (n / 10) * 10 + n % 10);
        assert(n == (n / 10) * 10 + n % 10) by {
            vstd::arithmetic::div_mod::lemma_fundamental_div_mod(n as int, 10);
        }
    }
}

/// A value below ten to the `k` has at most `k` digits.
pub proof fn lemma_digits_len(n: nat, k: nat)
    requires
        k >= 1,
        n < pow10(k),
    ensures
        digits(n).len() <= k,
    decreases k,
{
    if n < 10 {
    } else {
        assert(k >= 2) by {
            if k == 1 {
                assert(pow10(1) == 10) by {
                    reveal_with_fuel(pow10, 2);
                }
            }
        }
        assert(pow10(k) == 10 * pow10((k - 1) as nat));
        assert(n / 10 < pow10((k - 1) as nat)) by {
            vstd::arithmetic::div_mod::lemma_fundamental_div_mod(n as int, 10);
        }
        lemma_digits_len(n / 10, (k - 1) as nat);
    }
}

/// A run of digits from `j` to `e`, with no digit at `e`, scans to `e`.
pub proof fn lemma_digit_run(s: Seq<u8>, j: int, e: int)
    requires
        0 <= j <= e <= s.len(),
        forall|k: int| j <= k < e ==> is_digit(#[trigger] s[k]),
        e == s.len() || !is_digit(s[e]),
    ensures
        p_digits_end(s, j) == e,
    decreases e - j,
{
    if j < e {
        assert(is_digit(s[j]));
        lemma_digit_run(s, j + 1, e);
    }
}

/// The escaped form of a string read from the front.
pub proof fn lemma_esc_front(t: Seq<u8>)
    requires
        t.len() > 0,
    ensures
        esc(t) == esc_byte(t[0]) + esc(t.drop_first()),
    decreases t.len(),
{
    if t.len() == 1 {
        assert(esc(t.drop_last()) =~= Seq::<u8>::empty());
        assert(t.drop_first() =~= Seq::<u8>::empty());
        assert(esc(t) =~= esc_byte(t[0]) + esc(t.drop_first()));
    } else {
        lemma_esc_front(t.drop_last());
        assert(t.drop_last()[0] == t[0]);
        assert(t.drop_last().drop_first() =~= t.drop_first().drop_last());
        assert(t.drop_first().last() == t.last());
        assert(esc(t) == (esc_byte(t[0]) + esc(t.drop_first().drop_last())) + esc_byte(
            t.last(),
        ));
        assert(esc(t.drop_first()) == esc(t.drop_first().drop_last()) + esc_byte(t.last()));
        assert(esc(t) =~= esc_byte(t[0]) + esc(t.drop_first()));
    }
}

/// The first byte of a serialization: never whitespace, never a separator
/// or a closing bracket, and it names the form of the value.
pub proof fn lemma_ser_first(v: JVal)
    ensures
        ser(v).len() > 0,
        !is_ws(ser(v)[0]),
        ser(v)[0] != 44 && ser(v)[0] != 58 && ser(v)[0] != 93 && ser(v)[0] != 125,
        v is Null ==> ser(v)[0] == 110,
        v == JVal::Bool(true) ==> ser(v)[0] == 116,
        v == JVal::Bool(false) ==> ser(v)[0] == 102,
        v is Int ==> (ser(v)[0] == 45 || is_digit(ser(v)[0])) && ser(v)[0] != 110 && ser(v)[0]
            != 116 && ser(v)[0] != 102,
        v is Str ==> ser(v)[0] == 34,
        v is Arr ==> ser(v)[0] == 91,
        v is Obj ==> ser(v)[0] == 123,
{
    match v {
        JVal::Int(i) => {
            if i >= 0 {
                lemma_digits_all(i as nat);
                assert(is_digit(ser(v)[0]));
            } else {
                lemma_digits_all((-i) as nat);
                assert(ser(v)[0] == 45);
            }
        },
        _ => {},
    }
}

/// The elements of a non-empty array read from the front.
pub proof fn lemma_ser_elems_front(a: Seq<JVal>)
    requires
        a.len() > 0,
    ensures
        a.len() == 1 ==> ser_elems(a) == ser(a[0]),
        a.len() > 1 ==> ser_elems(a) == ser(a[0]) + seq![44u8] + ser_elems(a.drop_first()),
    decreases a.len(),
{
    if a.len() == 1 {
    } else if a.len() == 2 {
        assert(a.drop_last().len() == 1);
        assert(a.drop_last()[0] == a[0]);
        assert(a.drop_first().len() == 1);
        assert(a.drop_first()[0] == a[1]);
        assert(ser_elems(a.drop_last()) == ser(a.drop_last()[0]));
        assert(ser_elems(a.drop_first()) == ser(a.drop_first()[0]));
        assert(a.last() == a[1]);
        assert(ser_elems(a) =~= ser(a[0]) + seq![44u8] + ser_elems(a.drop_first()));
    } else {
        lemma_ser_elems_front(a.drop_last());
        assert(a.drop_last()[0] == a[0]);
        assert(a.drop_last().drop_first() =~= a.drop_first().drop_last());
        assert(a.drop_first().last() == a.last());
        assert(a.drop_first().len() > 1);
        assert(ser_elems(a) == (ser(a[0]) + seq![44u8] + ser_elems(a.drop_first().drop_last()))
            + seq![44u8] + ser(a.last()));
        assert(ser_elems(a.drop_first()) == ser_elems(a.drop_first().drop_last()) + seq![44u8]
            + ser(a.drop_first().last()));
        assert(ser_elems(a) =~= ser(a[0]) + seq![44u8] + ser_elems(a.drop_first()));
    }
}

/// The bindings of a non-empty object read from the front.
pub proof fn lemma_ser_members_front(o: Seq<(Seq<u8>, JVal)>)
    requires
        o.len() > 0,
    ensures
        o.len() == 1 ==> ser_members(o) == ser_member(o[0]),
        o.len() > 1 ==> ser_members(o) == ser_member(o[0]) + seq![44u8] + ser_members(
            o.drop_first(),
        ),
    decreases o.len(),
{
    if o.len() == 1 {
    } else if o.len() == 2 {
        assert(o.drop_last().len() == 1);
        assert(o.drop_last()[0] == o[0]);
        assert(o.drop_first().len() == 1);
        assert(o.drop_first()[0] == o[1]);
        assert(ser_members(o.drop_last()) == ser_member(o.drop_last()[0]));
        assert(ser_members(o.drop_first()) == ser_member(o.drop_first()[0]));
        assert(o.last() == o[1]);
        assert(ser_members(o) =~= ser_member(o[0]) + seq![44u8] + ser_members(o.drop_first()));
    } else {
        lemma_ser_members_front(o.drop_last());
        assert(o.drop_last()[0] == o[0]);
        assert(o.drop_last().drop_first() =~= o.drop_first().drop_last());
        assert(o.drop_first().last() == o.last());
        assert(o.drop_first().len() > 1);
        assert(ser_members(o) == (ser_member(o[0]) + seq![44u8] + ser_members(
            o.drop_first().drop_last(),
        )) + seq![44u8] + ser_member(o.last()));
        assert(ser_members(o.drop_first()) == ser_members(o.drop_first().drop_last())
            + seq![44u8] + ser_member(o.drop_first().last()));
        assert(ser_members(o) =~= ser_member(o[0]) + seq![44u8] + ser_members(o.drop_first()));
    }
}

/// Reading a canonically escaped string body recovers the string.
pub proof fn lemma_p_str_canonical(s: Seq<u8>, j: int, t: Seq<u8>)
    requires
        starts_at(s, j, esc(t) + seq![34u8]),
    ensures
        p_str(s, j) == Option::Some((t, j + esc(t).len() + 1)),
    decreases t.len(),
{
    lemma_starts_at_bytes(s, j, esc(t) + seq![34u8]);
    if t.len() == 0 {
        assert(esc(t) =~= Seq::<u8>::empty());
        assert((esc(t) + seq![34u8])[0] == 34);
        assert(s[j] == 34);
        assert(t =~= Seq::<u8>::empty());
    } else {
        lemma_esc_front(t);
        let b = t[0];
        let rest = esc(t.drop_first()) + seq![34u8];
        assert(esc(t) + seq![34u8] =~= esc_byte(b) + rest);
        lemma_starts_at_split(s, j, esc_byte(b), rest);
        if b == 34 || b == 92 {
            assert((esc_byte(b) + rest)[0] == 92);
            assert((esc_byte(b) + rest)[1] == b);
            assert(s[j] == 92 && s[j + 1] == b);
            lemma_p_str_canonical(s, j + 2, t.drop_first());
            assert(seq![s[j + 1]] + t.drop_first() =~= t);
        } else {
            assert((esc_byte(b) + rest)[0] == b);
            assert(s[j] == b);
            assert(b != 34 && b != 92);
            lemma_p_str_canonical(s, j + 1, t.drop_first());
            assert(seq![s[j]] + t.drop_first() =~= t);
        }
    }
}

/// Reading a canonically written integer recovers it.
pub proof fn lemma_p_int_canonical(s: Seq<u8>, i: int, n: int)
    requires
        -0x8000_0000_0000_0000 <= n <= 0x7fff_ffff_ffff_ffff,
        starts_at(s, i, int_ser(n)),
        i + int_ser(n).len() == s.len() || !is_digit(s[i + int_ser(n).len()]),
    ensures
        p_int(s, i) == Option::Some((JVal::Int(n), i + int_ser(n).len())),
{
    assert(pow10(19) == 10_000_000_000_000_000_000) by {
        reveal_with_fuel(pow10, 21);
    }
    lemma_starts_at_bytes(s, i, int_ser(n));
    if n >= 0 {
        lemma_digits_all(n as nat);
        lemma_digits_len(n as nat, 19);
        let dl = digits(n as nat).len();
        assert forall|k: int| i <= k < i + dl implies is_digit(#[trigger] s[k]) by {
            assert(s[k] == digits(n as nat)[k - i]);
        }
        assert(s[i] == digits(n as nat)[0]);
        assert(is_digit(s[i]) && s[i] != 45);
        lemma_digit_run(s, i, i + dl);
        assert(s.subrange(i, i + dl) == digits(n as nat));
        assert(num_val(s.subrange(i, i + dl)) == n);
    } else {
        let m = (-n) as nat;
        lemma_digits_all(m);
        lemma_digits_len(m, 19);
        let dl = digits(m).len();
        assert(int_ser(n) == seq![45u8] + digits(m));
        lemma_starts_at_split(s, i, seq![45u8], digits(m));
        lemma_starts_at_bytes(s, i + 1, digits(m));
        assert((seq![45u8] + digits(m))[0] == 45);
        assert(s[i] == 45);
        assert forall|k: int| i + 1 <= k < i + 1 + dl implies is_digit(#[trigger] s[k]) by {
            assert(s[k] == digits(m)[k - (i + 1)]);
        }
        assert(s[i + 1] == digits(m)[0]);
        assert(is_digit(s[i + 1]));
        lemma_digit_run(s, i + 1, i + 1 + dl);
        assert(s.subrange(i + 1, i + 1 + dl) == digits(m));
        assert(num_val(s.subrange(i + 1, i + 1 + dl)) == m);
    }
}

/// Reading the canonical bytes of a well-formed value, wherever they stand
/// followed by a separator, a closing bracket or the end, recovers the value.
pub proof fn lemma_p_value_canonical(s: Seq<u8>, i: int, v: JVal)
    requires
        v.wf(),
        starts_at(s, i, ser(v)),
        i + ser(v).len() == s.len() || s[i + ser(v).len()] == 44 || s[i + ser(v).len()] == 93
            || s[i + ser(v).len()] == 125,
    ensures
        p_value(s, i) == Option::Some((v, i + ser(v).len())),
    decreases v,
{
    lemma_ser_first(v);
    lemma_starts_at_bytes(s, i, ser(v));
    match v {
        JVal::Null => {
            assert(s[i] == 110 && s[i + 1] == 117 && s[i + 2] == 108 && s[i + 3] == 108);
        },
        JVal::Bool(b) => {
            if b {
                assert(s[i] == 116 && s[i + 1] == 114 && s[i + 2] == 117 && s[i + 3] == 101);
            } else {
                assert(s[i] == 102 && s[i + 1] == 97 && s[i + 2] == 108 && s[i + 3] == 115 && s[i
                    + 4] == 101);
            }
        },
        JVal::Int(n) => {
            lemma_p_int_canonical(s, i, n);
        },
        JVal::Str(t) => {
            assert(s[i] == 34);
            assert(ser(v) =~= seq![34u8] + (esc(t) + seq![34u8]));
            lemma_starts_at_split(s, i, seq![34u8], esc(t) + seq![34u8]);
            lemma_p_str_canonical(s, i + 1, t);
        },
        JVal::Arr(a) => {
            assert(s[i] == 91);
            if a.len() == 0 {
                assert(ser_elems(a) =~= Seq::<u8>::empty());
                assert(ser(v)[1] == 93);
                assert(s[i + 1] == 93);
                assert(p_ws(s, i + 1) == i + 1);
                assert(clamp(s, i + 1, i + 1) == i + 1);
                assert(a =~= Seq::<JVal>::empty());
                assert(ser(v).len() == 2);
            } else {
                lemma_wf_seq_all(a);
                lemma_ser_elems_front(a);
                lemma_ser_first(a[0]);
                assert(ser_elems(a)[0] == ser(a[0])[0]) by {
                    if a.len() == 1 {
                    } else {
                        assert((ser(a[0]) + seq![44u8] + ser_elems(a.drop_first()))[0] == ser(
                            a[0],
                        )[0]);
                    }
                }
                assert(ser(v) =~= seq![91u8] + (ser_elems(a) + seq![93u8]));
                lemma_starts_at_split(s, i, seq![91u8], ser_elems(a) + seq![93u8]);
                lemma_starts_at_bytes(s, i + 1, ser_elems(a) + seq![93u8]);
                assert((ser_elems(a) + seq![93u8])[0] == ser_elems(a)[0]);
                assert(s[i + 1] == ser(a[0])[0]);
                assert(!is_ws(s[i + 1]) && s[i + 1] != 93);
                assert(p_ws(s, i + 1) == i + 1);
                assert(clamp(s, i + 1, i + 1) == i + 1);
                lemma_p_elems_canonical(s, i + 1, a);
                assert(ser(v).len() == 1 + ser_elems(a).len() + 1);
            }
        },
        JVal::Obj(o) => {
            assert(s[i] == 123);
            if o.len() == 0 {
                assert(ser_members(o) =~= Seq::<u8>::empty());
                assert(ser(v)[1] == 125);
                assert(s[i + 1] == 125);
                assert(p_ws(s, i + 1) == i + 1);
                assert(clamp(s, i + 1, i + 1) == i + 1);
                assert(o =~= Seq::<(Seq<u8>, JVal)>::empty());
                assert(ser(v).len() == 2);
            } else {
                lemma_wf_pairs_all(o);
                lemma_ser_members_front(o);
                assert(ser_member(o[0])[0] == 34) by {
                    assert((seq![34u8] + esc(o[0].0) + seq![34u8, 58u8] + ser(o[0].1))[0] == 34);
                }
                assert(ser_members(o)[0] == 34) by {
                    if o.len() == 1 {
                    } else {
                        assert((ser_member(o[0]) + seq![44u8] + ser_members(o.drop_first()))[0]
                            == ser_member(o[0])[0]);
                    }
                }
                assert(ser(v) =~= seq![123u8] + (ser_members(o) + seq![125u8]));
                lemma_starts_at_split(s, i, seq![123u8], ser_members(o) + seq![125u8]);
                lemma_starts_at_bytes(s, i + 1, ser_members(o) + seq![125u8]);
                assert((ser_members(o) + seq![125u8])[0] == ser_members(o)[0]);
                assert(s[i + 1] == 34);
                assert(p_ws(s, i + 1) == i + 1);
                assert(clamp(s, i + 1, i + 1) == i + 1);
                lemma_p_members_canonical(s, i + 1, o);
                assert(ser(v).len() == 1 + ser_members(o).len() + 1);
            }
        },
    }
}

/// Reading the canonical elements of a non-empty array, up to and including
/// the closing bracket, recovers them.
pub proof fn lemma_p_elems_canonical(s: Seq<u8>, j: int, a: Seq<JVal>)
    requires
        a.len() > 0,
        JVal::wf_seq(a),
        starts_at(s, j, ser_elems(a) + seq![93u8]),
    ensures
        p_elems(s, j) == Option::Some((a, j + ser_elems(a).len() + 1)),
    decreases a,
{
    lemma_wf_seq_all(a);
    lemma_ser_elems_front(a);
    lemma_ser_first(a[0]);
    let v0 = a[0];
    let l0 = ser(v0).len() as int;
    lemma_starts_at_bytes(s, j, ser_elems(a) + seq![93u8]);
    if a.len() == 1 {
        assert(ser_elems(a) + seq![93u8] =~= ser(v0) + seq![93u8]);
        lemma_starts_at_split(s, j, ser(v0), seq![93u8]);
        lemma_starts_at_bytes(s, j + l0, seq![93u8]);
        assert(s[j + l0] == seq![93u8][0]);
        assert(s[j + l0] == 93);
        lemma_p_value_canonical(s, j, v0);
        assert(clamp(s, j + 1, j + l0) == j + l0);
        assert(p_ws(s, j + l0) == j + l0);
        assert(clamp(s, j + l0, j + l0) == j + l0);
        assert(seq![v0] =~= a);
    } else {
        let df = a.drop_first();
        assert(ser_elems(a) + seq![93u8] =~= ser(v0) + (seq![44u8] + (ser_elems(df)
            + seq![93u8])));
        lemma_starts_at_split(s, j, ser(v0), seq![44u8] + (ser_elems(df) + seq![93u8]));
        lemma_starts_at_split(s, j + l0, seq![44u8], ser_elems(df) + seq![93u8]);
        lemma_starts_at_bytes(s, j + l0, seq![44u8]);
        assert(s[j + l0] == seq![44u8][0]);
        assert(s[j + l0] == 44);
        lemma_p_value_canonical(s, j, v0);
        assert(clamp(s, j + 1, j + l0) == j + l0);
        assert(p_ws(s, j + l0) == j + l0);
        assert(clamp(s, j + l0, j + l0) == j + l0);
        lemma_ser_elems_front(df);
        lemma_ser_first(df[0]);
        assert(ser_elems(df)[0] == ser(df[0])[0]) by {
            if df.len() == 1 {
            } else {
                assert((ser(df[0]) + seq![44u8] + ser_elems(df.drop_first()))[0] == ser(df[0])[0]);
            }
        }
        lemma_starts_at_bytes(s, j + l0 + 1, ser_elems(df) + seq![93u8]);
        assert((ser_elems(df) + seq![93u8])[0] == ser_elems(df)[0]);
        assert(s[j + l0 + 1] == ser(df[0])[0]);
        assert(!is_ws(s[j + l0 + 1]));
        assert(p_ws(s, j + l0 + 1) == j + l0 + 1);
        assert(clamp(s, j + l0 + 1, j + l0 + 1) == j + l0 + 1);
        assert(forall|k: int| 0 <= k < df.len() ==> (#[trigger] df[k]) == a[k + 1]);
        lemma_wf_seq_from_all(df);
        lemma_p_elems_canonical(s, j + l0 + 1, df);
        assert(seq![v0] + df =~= a);
        assert(ser_elems(a).len() == l0 + 1 + ser_elems(df).len());
    }
}

/// Reading the canonical bindings of a non-empty object, up to and
/// including the closing brace, recovers them.
pub proof fn lemma_p_members_canonical(s: Seq<u8>, j: int, o: Seq<(Seq<u8>, JVal)>)
    requires
        o.len() > 0,
        JVal::wf_pairs(o),
        starts_at(s, j, ser_members(o) + seq![125u8]),
    ensures
        p_members(s, j) == Option::Some((o, j + ser_members(o).len() + 1)),
    decreases o,
{
    lemma_wf_pairs_all(o);
    lemma_ser_members_front(o);
    let k0 = o[0].0;
    let v0 = o[0].1;
    let m0 = ser_member(o[0]);
    assert(m0 == seq![34u8] + esc(k0) + seq![34u8, 58u8] + ser(v0));
    let el = esc(k0).len() as int;
    let l0 = ser(v0).len() as int;
    assert(m0.len() == el + l0 + 3);
    let tail = if o.len() == 1 {
        seq![125u8]
    } else {
        seq![44u8] + (ser_members(o.drop_first()) + seq![125u8])
    };
    assert(ser_members(o) + seq![125u8] =~= m0 + tail) by {
        if o.len() > 1 {
            assert(ser_members(o) == m0 + seq![44u8] + ser_members(o.drop_first()));
        }
    }
    lemma_starts_at_split(s, j, m0, tail);
    assert(m0 =~= seq![34u8] + ((esc(k0) + seq![34u8]) + (seq![58u8] + ser(v0))));
    lemma_starts_at_split(s, j, seq![34u8], (esc(k0) + seq![34u8]) + (seq![58u8] + ser(v0)));
    lemma_starts_at_split(s, j + 1, esc(k0) + seq![34u8], seq![58u8] + ser(v0));
    lemma_starts_at_split(s, j + 1 + el + 1, seq![58u8], ser(v0));
    lemma_starts_at_bytes(s, j, seq![34u8]);
    assert(s[j] == seq![34u8][0]);
    assert(s[j] == 34);
    lemma_p_str_canonical(s, j + 1, k0);
    let e = j + 1 + el + 1;
    assert(clamp(s, j + 1, e) == e);
    lemma_starts_at_bytes(s, e, seq![58u8]);
    assert(s[e] == seq![58u8][0]);
    assert(s[e] == 58);
    assert(p_ws(s, e) == e);
    assert(clamp(s, e, e) == e);
    let vs = e + 1;
    lemma_ser_first(v0);
    lemma_starts_at_bytes(s, vs, ser(v0));
    assert(s[vs] == ser(v0)[0]);
    assert(!is_ws(s[vs]) && s[vs] != 58);
    assert(p_ws(s, vs) == vs);
    assert(clamp(s, e + 1, vs) == vs);
    let n = vs + l0;
    lemma_starts_at_bytes(s, n, tail);
    if o.len() == 1 {
        assert(s[n] == tail[0]);
        assert(s[n] == 125);
        lemma_p_value_canonical(s, vs, v0);
        assert(clamp(s, vs + 1, n) == n);
        assert(p_ws(s, n) == n);
        assert(clamp(s, n, n) == n);
        assert((o[0].0, o[0].1) == o[0]);
        assert(seq![(k0, v0)] =~= o);
        assert(ser_members(o).len() == m0.len());
        assert(p_members(s, j) == Option::Some((o, j + ser_members(o).len() + 1)));
    } else {
        let df = o.drop_first();
        assert(s[n] == tail[0]);
        assert(s[n] == 44);
        lemma_p_value_canonical(s, vs, v0);
        assert(clamp(s, vs + 1, n) == n);
        assert(p_ws(s, n) == n);
        assert(clamp(s, n, n) == n);
        lemma_starts_at_split(s, n, seq![44u8], ser_members(df) + seq![125u8]);
        lemma_ser_members_front(df);
        assert(ser_member(df[0])[0] == 34) by {
            assert((seq![34u8] + esc(df[0].0) + seq![34u8, 58u8] + ser(df[0].1))[0] == 34);
        }
        assert(ser_members(df)[0] == 34) by {
            if df.len() == 1 {
            } else {
                assert((ser_member(df[0]) + seq![44u8] + ser_members(df.drop_first()))[0]
                    == ser_member(df[0])[0]);
            }
        }
        lemma_starts_at_bytes(s, n + 1, ser_members(df) + seq![125u8]);
        assert((ser_members(df) + seq![125u8])[0] == ser_members(df)[0]);
        assert(s[n + 1] == 34);
        assert(p_ws(s, n + 1) == n + 1);
        assert(clamp(s, n + 1, n + 1) == n + 1);
        assert(forall|k: int| 0 <= k < df.len() ==> (#[trigger] df[k]) == o[k + 1]);
        lemma_wf_pairs_from_all(df);
        lemma_p_members_canonical(s, n + 1, df);
        assert((o[0].0, o[0].1) == o[0]);
        assert(seq![(k0, v0)] + df =~= o);
        assert(ser_members(o).len() == m0.len() + 1 + ser_members(df).len());
        assert(p_members(s, j) == Option::Some((o, j + ser_members(o).len() + 1)));
    }
}

/// The codec round trip: reading back the canonical bytes of a well-formed
/// document yields the document itself.
pub proof fn lemma_codec_round_trip(v: JVal)
    requires
        v.wf(),
    ensures
        p_doc(ser(v)) == Option::Some(v),
{
    let s = ser(v);
    lemma_ser_first(v);
    assert(s.subrange(0, s.len() as int) =~= s);
    assert(starts_at(s, 0, ser(v)));
    lemma_p_value_canonical(s, 0, v);
    assert(p_ws(s, 0) == 0);
    assert(clamp(s, 0, 0) == 0);
    assert(clamp(s, 0, s.len() as int) == s.len());
    assert(p_ws(s, s.len() as int) == s.len());
    assert(clamp(s, s.len() as int, s.len() as int) == s.len());
}

/// The canonical bytes of a document.
pub fn to_bytes(j: &Json) -> (r: Vec<u8>)
    ensures
        r@ == ser(j@),
{
    let mut out: Vec<u8> = Vec::new();
    write_value(j, &mut out);
    proof {
        assert(out@ =~= ser(j@));
    }
    out
}

} // verus!
