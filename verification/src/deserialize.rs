use vstd::prelude::*;

use crate::compilation::{CompiledChunk, CompiledValue, Compilation, StringRef, groups_view, texts_view};
use crate::grammar::{
    digits_value, digit_of, free_of, is_digit, lemma_byte_text_shape, lemma_bytes_text_injective, lemma_byte_texts,
    lemma_decimal, lemma_decimal_injective, lemma_digits_prefix, lemma_join_terminated, lemma_line_text_shape,
    number_text_ok, all_digits, is_sign, mantissa_ok, exponent_ok, unsigned_number_ok, spells, lemma_mantissa_chars,
    terminated, lemma_terminated_push, function_header, ref_ok, value_loadable, chunk_loadable,
    lemma_value_text_start, lemma_chunk_text, lemma_chunk_unique, lemma_value_unique, lemma_number_text_free,
    lemma_line_texts_index, lemma_value_texts_index, kind_char, loadable, string_loadable, string_end,
    holds_string_end, lemma_loadable_no_end, lemma_strings_front, z_strs, compilation_view,
    lemma_serialize_root_injective,
};
use crate::opcode::{Byte, OpCode};
use crate::output::{decimal_chars, spec_decimal};
use crate::serialize::{
    byte_texts, join, line_texts, spec_bytes_text, spec_line_text, spec_serialize_byte, spec_serialize_chunk,
    spec_serialize_value, value_texts, spec_serialize_root, spec_strings_text,
};
use crate::text::chars_eq;

verus! {

/// Whether `s` stands in `text` from `pos` on.
pub open spec fn at(text: Seq<char>, pos: int, s: Seq<char>) -> bool {
    0 <= pos && pos + s.len() <= text.len() && text.subrange(pos, pos + s.len()) == s
}

/// The first position in `from..to` that holds `c`, or `to` if none does.
fn find_char(text: &Vec<char>, from: usize, to: usize, c: char) -> (res: usize)
    requires
        from <= to <= text.len(),
    ensures
        from <= res <= to,
        res < to ==> text@[res as int] == c,
        forall|k: int| from <= k < res ==> text@[k] != c,
{
    let mut i = from;
    while i < to
        invariant
            from <= i <= to <= text.len(),
            forall|k: int| from <= k < i ==> text@[k] != c,
        decreases to - i,
    {
        if text[i] == c {
            return i;
        }
        i = i + 1;
    }
    to
}

/// Whether `lit` stands in `text` from `pos` on.
fn has_at(text: &Vec<char>, pos: usize, lit: &Vec<char>) -> (res: bool)
    ensures
        res == at(text@, pos as int, lit@),
{
    if lit.len() > text.len() || pos > text.len() - lit.len() {
        return false;
    }
    let mut i: usize = 0;
    while i < lit.len()
        invariant
            pos + lit.len() <= text.len(),
            i <= lit.len(),
            forall|k: int| 0 <= k < i ==> text@[pos + k] == lit@[k],
        decreases lit.len() - i,
    {
        if text[pos + i] != lit[i] {
            assert(text@.subrange(pos as int, pos + lit.len())[i as int] != lit@[i as int]);
            return false;
        }
        i = i + 1;
    }
    assert(text@.subrange(pos as int, pos + lit.len()) =~= lit@);
    true
}

/// The characters of `text` in `start..end`, as a new list.
fn slice_chars(text: &Vec<char>, start: usize, end: usize) -> (res: Vec<char>)
    requires
        start <= end <= text.len(),
    ensures
        res@ == text@.subrange(start as int, end as int),
{
    let mut out: Vec<char> = Vec::new();
    let mut i = start;
    while i < end
        invariant
            start <= i <= end <= text.len(),
            out@ == text@.subrange(start as int, i as int),
        decreases end - i,
    {
        out.push(text[i]);
        i = i + 1;
        assert(out@ =~= text@.subrange(start as int, i as int));
    }
    out
}

/// The value of a decimal digit.
fn digit_value(c: char) -> (res: u64)
    requires
        is_digit(c),
    ensures
        res == digit_of(c),
        res < 10,
{
    (c as u32 - '0' as u32) as u64
}

/// The number written in decimal in `start..end`, if the text there is the
/// decimal text of a number no greater than `bound`.
#[verifier::spinoff_prover]
fn parse_number(text: &Vec<char>, start: usize, end: usize, bound: u64) -> (res: Option<u64>)
    requires
        start <= end <= text.len(),
        bound <= u32::MAX,
    ensures
        match res {
            Some(n) => n <= bound && text@.subrange(start as int, end as int) == spec_decimal(n as nat),
            None => forall|n: nat| n <= bound ==> text@.subrange(start as int, end as int) != spec_decimal(n),
        },
{
    let ghost seg = text@.subrange(start as int, end as int);
    if start == end {
        proof {
            assert forall|n: nat| n <= bound implies seg != spec_decimal(n) by {
                lemma_decimal(n);
            }
        }
        return None;
    }
    let mut acc: u64 = 0;
    let mut i = start;
    while i < end
        invariant
            start <= i <= end <= text.len(),
            bound <= u32::MAX,
            seg == text@.subrange(start as int, end as int),
            forall|k: int| start <= k < i ==> is_digit(#[trigger] text@[k]),
            acc == digits_value(text@.subrange(start as int, i as int)),
            acc <= bound,
        decreases end - i,
    {
        let c = text[i];
        if !('0' <= c && c <= '9') {
            proof {
                assert forall|n: nat| n <= bound implies seg != spec_decimal(n) by {
                    lemma_decimal(n);
                    if seg == spec_decimal(n) {
                        assert(seg[i - start] == c);
                    }
                }
            }
            return None;
        }
        let d = digit_value(c);
        proof {
            let s = text@.subrange(start as int, i + 1);
            assert(s.drop_last() =~= text@.subrange(start as int, i as int));
        }
        let next = acc * 10 + d;
        if next > bound {
            proof {
                assert forall|n: nat| n <= bound implies seg != spec_decimal(n) by {
                    lemma_decimal(n);
                    if seg == spec_decimal(n) {
                        lemma_digits_prefix(seg, i + 1 - start);
                        assert(seg.subrange(0, i + 1 - start) =~= text@.subrange(start as int, i + 1));
                    }
                }
            }
            return None;
        }
        acc = next;
        i = i + 1;
    }
    let written = decimal_chars(acc);
    let piece = slice_chars(text, start, end);
    proof {
        assert(text@.subrange(start as int, i as int) == seg);
    }
    if chars_eq(&written, &piece) {
        Some(acc)
    } else {
        proof {
            assert forall|n: nat| n <= bound implies seg != spec_decimal(n) by {
                lemma_decimal(n);
                lemma_decimal(acc as nat);
            }
        }
        None
    }
}

/// The end of the run of digits in `t` that starts at `a`, before `b`.
fn digits_run_end(t: &Vec<char>, a: usize, b: usize) -> (r: usize)
    requires
        a <= b <= t.len(),
    ensures
        a <= r <= b,
        all_digits(t@.subrange(a as int, r as int)),
        r < b ==> !is_digit(t@[r as int]),
{
    let mut i: usize = a;
    while i < b
        invariant
            a <= i <= b,
            b <= t.len(),
            forall|k: int| a <= k < i ==> is_digit(#[trigger] t@[k]),
        decreases b - i,
    {
        let c = t[i];
        if !('0' <= c && c <= '9') {
            proof {
                assert forall|k: int| 0 <= k < i - a implies is_digit(
                    #[trigger] t@.subrange(a as int, i as int)[k],
                ) by {
                    assert(is_digit(t@[a + k]));
                }
            }
            return i;
        }
        i = i + 1;
    }
    proof {
        assert forall|k: int| 0 <= k < i - a implies is_digit(#[trigger] t@.subrange(a as int, i as int)[k]) by {
            assert(is_digit(t@[a + k]));
        }
    }
    i
}

/// Whether `t[a..b]` is a mantissa: digits with at most one point, and at
/// least one digit.
fn is_mantissa(t: &Vec<char>, a: usize, b: usize) -> (res: bool)
    requires
        a <= b <= t.len(),
    ensures
        res == mantissa_ok(t@.subrange(a as int, b as int)),
{
    let ghost m = t@.subrange(a as int, b as int);
    let p = digits_run_end(t, a, b);
    if p == b {
        proof {
            assert(m =~= t@.subrange(a as int, p as int));
        }
        return b > a;
    }
    if t[p] != '.' {
        proof {
            assert(m[p - a] == t@[p as int]);
            if mantissa_ok(m) {
                lemma_mantissa_chars(m);
                assert(is_digit(m[p - a]) || m[p - a] == '.');
            }
        }
        return false;
    }
    let q = digits_run_end(t, p + 1, b);
    proof {
        assert(m[p - a] == '.');
        assert(m.take(p - a) =~= t@.subrange(a as int, p as int));
    }
    if q != b {
        proof {
            assert(m[q - a] == t@[q as int]);
            if mantissa_ok(m) {
                assert(!is_digit(m[p - a]));
                let k = choose|k: int|
                    0 <= k < m.len() && #[trigger] m[k] == '.' && m.len() > 1 && all_digits(m.take(k))
                        && all_digits(m.skip(k + 1));
                if k < p - a {
                    assert(m[k] == t@.subrange(a as int, p as int)[k]);
                } else if k > p - a {
                    assert(m.take(k)[p - a] == m[p - a]);
                } else {
                    assert(m.skip(k + 1)[q - p - 1] == m[q - a]);
                }
            }
        }
        return false;
    }
    proof {
        assert(m.skip(p - a + 1) =~= t@.subrange(p + 1, b as int));
        if b - a > 1 {
            assert(0 <= p - a < m.len() && m[p - a] == '.' && m.len() > 1 && all_digits(m.take(p - a))
                && all_digits(m.skip(p - a + 1)));
        } else {
            assert(!is_digit(m[p - a]));
        }
    }
    b - a > 1
}

/// Whether `t[a..b]` is what follows the `e` of an exponent: an optional
/// sign, then digits.
fn is_exponent(t: &Vec<char>, a: usize, b: usize) -> (res: bool)
    requires
        a <= b <= t.len(),
    ensures
        res == exponent_ok(t@.subrange(a as int, b as int)),
{
    let ghost e = t@.subrange(a as int, b as int);
    let s: usize = if a < b && (t[a] == '+' || t[a] == '-') {
        a + 1
    } else {
        a
    };
    proof {
        if a < b {
            assert(e[0] == t@[a as int]);
        }
        let d = if e.len() > 0 && is_sign(e[0]) {
            e.skip(1)
        } else {
            e
        };
        assert(d =~= t@.subrange(s as int, b as int));
    }
    let r = digits_run_end(t, s, b);
    proof {
        if r < b {
            assert(t@.subrange(s as int, b as int)[r - s] == t@[r as int]);
        } else {
            assert(t@.subrange(s as int, b as int) =~= t@.subrange(s as int, r as int));
        }
    }
    r == b && b > s
}

/// A number made only of digits and points has no exponent.
proof fn lemma_no_exponent(n: Seq<char>)
    requires
        forall|k: int| 0 <= k < n.len() ==> is_digit(#[trigger] n[k]) || n[k] == '.',
    ensures
        unsigned_number_ok(n) == mantissa_ok(n),
{
    assert forall|k: int|
        !(0 <= k < n.len() && (#[trigger] n[k] == 'e' || n[k] == 'E') && mantissa_ok(n.take(k)) && exponent_ok(
            n.skip(k + 1),
        )) by {
        if 0 <= k < n.len() {
            assert(is_digit(n[k]) || n[k] == '.');
        }
    }
}

/// Where the first character that is neither a digit nor a point stands at
/// `j`, the only exponent that can follow is one introduced there.
proof fn lemma_exponent_at(n: Seq<char>, j: int)
    requires
        0 <= j < n.len(),
        forall|k: int| 0 <= k < j ==> is_digit(#[trigger] n[k]) || n[k] == '.',
        !(is_digit(n[j]) || n[j] == '.'),
    ensures
        unsigned_number_ok(n) == ((n[j] == 'e' || n[j] == 'E') && mantissa_ok(n.take(j)) && exponent_ok(
            n.skip(j + 1),
        )),
{
    if mantissa_ok(n) {
        lemma_mantissa_chars(n);
    }
    assert forall|k: int|
        0 <= k < n.len() && (#[trigger] n[k] == 'e' || n[k] == 'E') && mantissa_ok(n.take(k)) && exponent_ok(
            n.skip(k + 1),
        ) implies k == j by {
        if k < j {
            assert(is_digit(n[k]) || n[k] == '.');
        } else if k > j {
            lemma_mantissa_chars(n.take(k));
            assert(n.take(k)[j] == n[j]);
        }
    }
}

/// Whether `t[a..b]` is a number without its sign: a mantissa, then an
/// optional exponent.
fn is_unsigned_number(t: &Vec<char>, a: usize, b: usize) -> (res: bool)
    requires
        a <= b <= t.len(),
    ensures
        res == unsigned_number_ok(t@.subrange(a as int, b as int)),
{
    let ghost n = t@.subrange(a as int, b as int);
    let mut q: usize = a;
    while q < b
        invariant
            a <= q <= b,
            b <= t.len(),
            n == t@.subrange(a as int, b as int),
            forall|k: int| 0 <= k < q - a ==> is_digit(#[trigger] n[k]) || n[k] == '.',
        ensures
            a <= q <= b,
            forall|k: int| 0 <= k < q - a ==> is_digit(#[trigger] n[k]) || n[k] == '.',
            q < b ==> !(is_digit(n[q - a]) || n[q - a] == '.'),
        decreases b - q,
    {
        let c = t[q];
        proof {
            assert(n[q - a] == c);
        }
        if !(('0' <= c && c <= '9') || c == '.') {
            break ;
        }
        q = q + 1;
    }
    if q == b {
        proof {
            lemma_no_exponent(n);
        }
        return is_mantissa(t, a, b);
    }
    let c = t[q];
    proof {
        assert(n[q - a] == c);
        lemma_exponent_at(n, q - a);
        assert(n.take(q - a) =~= t@.subrange(a as int, q as int));
        assert(n.skip(q - a + 1) =~= t@.subrange(q + 1, b as int));
    }
    if c == 'e' || c == 'E' {
        let m = is_mantissa(t, a, q);
        let e = is_exponent(t, q + 1, b);
        return m && e;
    }
    false
}

/// Whether `t[a..b]` spells the word with lower-case letters `lo` and
/// upper-case letters `up`, each letter in either case.
fn spells_at(t: &Vec<char>, a: usize, b: usize, lo: &Vec<char>, up: &Vec<char>) -> (res: bool)
    requires
        a <= b <= t.len(),
        lo@.len() == up@.len(),
    ensures
        res == spells(t@.subrange(a as int, b as int), lo@, up@),
{
    let ghost w = t@.subrange(a as int, b as int);
    if b - a != lo.len() {
        return false;
    }
    let mut i: usize = 0;
    while i < lo.len()
        invariant
            i <= lo@.len(),
            lo@.len() == up@.len(),
            b - a == lo@.len(),
            a <= b <= t.len(),
            w == t@.subrange(a as int, b as int),
            forall|k: int| 0 <= k < i ==> #[trigger] w[k] == lo@[k] || w[k] == up@[k],
        decreases lo@.len() - i,
    {
        let c = t[a + i];
        proof {
            assert(w[i as int] == c);
        }
        if c != lo[i] && c != up[i] {
            return false;
        }
        i = i + 1;
    }
    true
}

/// Whether the characters are the text of a number constant, as the
/// standard library reads a 64-bit float.
fn is_number_text(t: &Vec<char>) -> (res: bool)
    ensures
        res == number_text_ok(t@),
{
    let n = t.len();
    let a: usize = if n > 0 && (t[0] == '+' || t[0] == '-') {
        1
    } else {
        0
    };
    proof {
        let body = if t@.len() > 0 && is_sign(t@[0]) {
            t@.skip(1)
        } else {
            t@
        };
        assert(body =~= t@.subrange(a as int, n as int));
    }
    let inf_lo = crate::text::str_to_chars("inf");
    let inf_up = crate::text::str_to_chars("INF");
    let infinity_lo = crate::text::str_to_chars("infinity");
    let infinity_up = crate::text::str_to_chars("INFINITY");
    let nan_lo = crate::text::str_to_chars("nan");
    let nan_up = crate::text::str_to_chars("NAN");
    proof {
        reveal_strlit("inf");
        reveal_strlit("INF");
        reveal_strlit("infinity");
        reveal_strlit("INFINITY");
        reveal_strlit("nan");
        reveal_strlit("NAN");
        assert(inf_lo@ =~= seq!['i', 'n', 'f']);
        assert(inf_up@ =~= seq!['I', 'N', 'F']);
        assert(infinity_lo@ =~= seq!['i', 'n', 'f', 'i', 'n', 'i', 't', 'y']);
        assert(infinity_up@ =~= seq!['I', 'N', 'F', 'I', 'N', 'I', 'T', 'Y']);
        assert(nan_lo@ =~= seq!['n', 'a', 'n']);
        assert(nan_up@ =~= seq!['N', 'A', 'N']);
    }
    spells_at(t, a, n, &inf_lo, &inf_up) || spells_at(t, a, n, &infinity_lo, &infinity_up) || spells_at(
        t,
        a,
        n,
        &nan_lo,
        &nan_up,
    ) || is_unsigned_number(t, a, n)
}

/// The byte written in `start..end`: an opcode by its name, or a raw byte in
/// decimal.
fn parse_byte(text: &Vec<char>, start: usize, end: usize) -> (res: Option<Byte>)
    requires
        start <= end <= text.len(),
    ensures
        match res {
            Some(b) => text@.subrange(start as int, end as int) == spec_serialize_byte(b),
            None => forall|b: Byte| text@.subrange(start as int, end as int) != spec_serialize_byte(b),
        },
{
    let piece = slice_chars(text, start, end);
    match OpCode::parse_name(&piece) {
        Some(op) => Some(Byte::Named(op)),
        None => match parse_number(text, start, end, 255) {
            Some(n) => Some(Byte::Raw(n as u8)),
            None => {
                proof {
                    assert forall|b: Byte| text@.subrange(start as int, end as int) != spec_serialize_byte(b) by {
                        match b {
                            Byte::Named(op) => {},
                            Byte::Raw(n) => {
                                assert((n as nat) <= 255);
                            },
                        }
                    }
                }
                None
            },
        },
    }
}

/// The line group written in `start..end`: `L`, the line number, a space,
/// and the bytes separated by spaces.
#[verifier::spinoff_prover]
fn parse_line(text: &Vec<char>, start: usize, end: usize) -> (res: Option<(u32, Vec<Byte>)>)
    requires
        start <= end <= text.len(),
    ensures
        match res {
            Some(g) => text@.subrange(start as int, end as int) == spec_line_text((g.0, g.1@)),
            None => forall|g: (u32, Seq<Byte>)| text@.subrange(start as int, end as int) != spec_line_text(g),
        },
{
    let ghost seg = text@.subrange(start as int, end as int);
    let ghost wit: Option<(u32, Seq<Byte>)> = if exists|g: (u32, Seq<Byte>)| seg == spec_line_text(g) {
        Some(choose|g: (u32, Seq<Byte>)| seg == spec_line_text(g))
    } else {
        None
    };
    proof {
        if let Some(g) = wit {
            lemma_decimal(g.0 as nat);
            lemma_byte_texts(g.1);
            assert(seg == seq!['L'] + spec_decimal(g.0 as nat) + seq![' '] + spec_bytes_text(g.1));
            assert(seg[0] == 'L');
            assert(seg[1 + spec_decimal(g.0 as nat).len() as int] == ' ');
        }
    }
    if start == end || text[start] != 'L' {
        return None;
    }
    let sp = find_char(text, start + 1, end, ' ');
    proof {
        if let Some(g) = wit {
            let d = spec_decimal(g.0 as nat);
            assert forall|k: int| start + 1 <= k < start + 1 + d.len() implies text@[k] != ' ' by {
                assert(text@[k] == seg[k - start]);
                assert(seg[k - start] == d[k - start - 1]);
            }
            assert(text@[start + 1 + d.len()] == seg[1 + d.len() as int]);
            assert(sp == start + 1 + d.len());
            assert(seg.subrange(1, 1 + d.len() as int) =~= d);
            assert(text@.subrange(start + 1, sp as int) =~= seg.subrange(1, 1 + d.len() as int));
        }
    }
    if sp == end {
        return None;
    }
    let line = match parse_number(text, start + 1, sp, 0xffff_ffff) {
        Some(n) => n as u32,
        None => {
            return None;
        },
    };
    let mut bytes: Vec<Byte> = Vec::new();
    proof {
        lemma_decimal(line as nat);
        if let Some(g) = wit {
            crate::grammar::lemma_decimal_injective(line as nat, g.0 as nat);
        }
    }
    let ghost body_start = sp + 1;
    proof {
        if let Some(g) = wit {
            let d = spec_decimal(g.0 as nat);
            assert(seg.subrange(2 + d.len() as int, seg.len() as int) =~= spec_bytes_text(g.1));
            assert(text@.subrange(body_start as int, end as int) =~= seg.subrange(2 + d.len() as int, seg.len() as int));
        }
    }
    proof {
        if let Some(g) = wit {
            if sp + 1 < end {
                let ts = byte_texts(g.1);
                lemma_byte_texts(g.1);
                if g.1.len() == 0 {
                    assert(spec_bytes_text(g.1) =~= Seq::<char>::empty());
                    assert(text@.subrange(body_start as int, end as int).len() > 0);
                }
                lemma_join_terminated(ts, ' ');
                assert(ts.skip(0) =~= ts);
            }
        }
    }
    if sp + 1 < end {
        let mut a = sp + 1;
        loop
            invariant
                sp + 1 <= a <= end <= text.len(),
                start < sp,
                body_start == sp + 1,
                seg == text@.subrange(start as int, end as int),
                text@[start as int] == 'L',
                text@[sp as int] == ' ',
                text@.subrange(start + 1, sp as int) == spec_decimal(line as nat),
                wit is None ==> forall|g: (u32, Seq<Byte>)| seg != spec_line_text(g),
                wit matches Some(g) ==> seg == spec_line_text(g),
                text@.subrange(body_start as int, a as int) == terminated(byte_texts(bytes@), ' '),
                wit matches Some(g) ==> {
                    let ts = byte_texts(g.1);
                    &&& bytes@.len() < ts.len()
                    &&& text@.subrange(a as int, end as int) + seq![' '] == terminated(ts.skip(bytes@.len() as int), ' ')
                },
            decreases end - a,
        {
            let b = find_char(text, a, end, ' ');
            proof {
                if let Some(g) = wit {
                    let ts = byte_texts(g.1);
                    let k = bytes@.len() as int;
                    let rest = ts.skip(k);
                    assert(rest[0] == ts[k]);
                    assert(rest.drop_first() =~= ts.skip(k + 1));
                    let t0 = ts[k];
                    let tail = text@.subrange(a as int, end as int) + seq![' '];
                    assert(tail == t0 + seq![' '] + terminated(ts.skip(k + 1), ' '));
                    lemma_byte_texts(g.1);
                    assert(free_of(t0, ' '));
                    assert forall|q: int| a <= q < a + t0.len() implies text@[q] != ' ' by {
                        assert(tail[q - a] == t0[q - a]);
                        assert(text@[q] == tail[q - a]);
                    }
                    if a + t0.len() < end {
                        assert(text@[a + t0.len()] == tail[t0.len() as int]);
                    }
                    assert(b == a + t0.len() || (b == end && a + t0.len() >= end));
                    assert(a + t0.len() <= end) by {
                        assert(tail.len() == end - a + 1);
                    }
                    assert(b == a + t0.len());
                    assert(text@.subrange(a as int, b as int) =~= tail.subrange(0, t0.len() as int));
                    assert(tail.subrange(0, t0.len() as int) =~= t0);
                    assert(text@.subrange(a as int, b as int) == ts[k]);
                }
            }
            let byte = match parse_byte(text, a, b) {
                Some(x) => x,
                None => {
                    proof {
                        if let Some(g) = wit {
                            let ts = byte_texts(g.1);
                            let k = bytes@.len() as int;
                            lemma_byte_texts(g.1);
                            assert(ts[k] == spec_serialize_byte(g.1[k]));
                            assert(text@.subrange(a as int, b as int) == spec_serialize_byte(g.1[k]));
                        }
                    }
                    return None;
                },
            };
            let ghost old_bytes = bytes@;
            bytes.push(byte);
            proof {
                assert(byte_texts(bytes@) =~= byte_texts(old_bytes).push(spec_serialize_byte(byte)));
                lemma_terminated_push(byte_texts(old_bytes), spec_serialize_byte(byte), ' ');
            }
            if b == end {
                proof {
                    lemma_join_terminated(byte_texts(bytes@), ' ');
                    let j = join(byte_texts(bytes@), seq![' ']);
                    assert(text@.subrange(body_start as int, end as int) + seq![' '] =~= terminated(
                        byte_texts(bytes@),
                        ' ',
                    ));
                    let x = text@.subrange(body_start as int, end as int);
                    assert((x + seq![' ']).drop_last() =~= x);
                    assert((j + seq![' ']).drop_last() =~= j);
                    assert(x =~= j);
                    assert(seg =~= seq!['L'] + text@.subrange(start + 1, sp as int) + seq![' '] + text@.subrange(
                        body_start as int,
                        end as int,
                    ));
                }
                return Some((line, bytes));
            }
            proof {
                assert(text@.subrange(body_start as int, b + 1) =~= text@.subrange(body_start as int, a as int)
                    + text@.subrange(a as int, b as int) + seq![' ']);
                if let Some(g) = wit {
                    let ts = byte_texts(g.1);
                    let k = old_bytes.len() as int;
                    let tail = text@.subrange(a as int, end as int) + seq![' '];
                    let t0 = ts[k];
                    assert(tail == t0 + seq![' '] + terminated(ts.skip(k + 1), ' '));
                    assert(text@.subrange(b + 1, end as int) + seq![' '] =~= tail.subrange(t0.len() as int + 1, tail.len() as int));
                    if k + 1 == ts.len() {
                        assert(ts.skip(k + 1) =~= Seq::<Seq<char>>::empty());
                        assert(tail.len() == t0.len() + 1);
                    }
                }
            }
            a = b + 1;
        }
    } else {
        proof {
            if let Some(g) = wit {
                if g.1.len() > 0 {
                    lemma_byte_text_shape(g.1[0]);
                    lemma_byte_texts(g.1);
                    crate::grammar::lemma_join_nonempty(byte_texts(g.1), ' ');
                }
            }
            assert(byte_texts(bytes@) =~= Seq::<Seq<char>>::empty());
            assert(seg =~= seq!['L'] + text@.subrange(start + 1, sp as int) + seq![' ']);
            assert(spec_line_text((line, bytes@)) =~= seq!['L'] + spec_decimal(line as nat) + seq![' ']);
        }
        Some((line, bytes))
    }
}

/// Where the pieces of a function header lie in the text.
proof fn lemma_header_layout(text: Seq<char>, pos: int, a: u32, u: u16, r: StringRef)
    requires
        at(text, pos, function_header(a, u, r)),
    ensures
        ({
            let da = spec_decimal(a as nat);
            let du = spec_decimal(u as nat);
            let dr = spec_decimal(r.0 as nat);
            let s1 = pos + 3 + da.len();
            let s2 = s1 + 1 + du.len();
            let nl = s2 + 2 + dr.len();
            &&& nl + 1 == pos + function_header(a, u, r).len()
            &&& text.subrange(pos, pos + 3) == seq!['F', 'N', '\n']
            &&& (forall|k: int| pos + 3 <= k < nl ==> text[k] != '\n')
            &&& text[nl] == '\n'
            &&& (forall|k: int| pos + 3 <= k < s1 ==> text[k] != ' ')
            &&& text[s1] == ' '
            &&& (forall|k: int| s1 + 1 <= k < s2 ==> text[k] != ' ')
            &&& text[s2] == ' '
            &&& text[s2 + 1] == 's'
            &&& text.subrange(pos + 3, s1) == da
            &&& text.subrange(s1 + 1, s2) == du
            &&& text.subrange(s2 + 2, nl) == dr
        }),
{
    let da = spec_decimal(a as nat);
    let du = spec_decimal(u as nat);
    let dr = spec_decimal(r.0 as nat);
    lemma_decimal(a as nat);
    lemma_decimal(u as nat);
    lemma_decimal(r.0 as nat);
    let start = pos + 3;
    let s1w = start + da.len();
    let s2w = s1w + 1 + du.len();
    let nlw = s2w + 2 + dr.len();
    let fh = function_header(a, u, r);
    assert(fh =~= seq!['F', 'N', '\n'] + da + seq![' '] + du + seq![' ', 's'] + dr + seq!['\n']);
    assert forall|k: int| pos <= k < pos + fh.len() implies text[k] == #[trigger] fh[k - pos] by {
        assert(text.subrange(pos, pos + fh.len())[k - pos] == text[k]);
    }
    assert forall|k: int| start <= k < nlw implies text[k] != '\n' by {
        assert(text[k] == fh[k - pos]);
        if k < s1w {
            assert(fh[k - pos] == da[k - start]);
        } else if k == s1w {
        } else if k < s2w {
            assert(fh[k - pos] == du[k - s1w - 1]);
        } else if k <= s2w + 1 {
        } else {
            assert(fh[k - pos] == dr[k - s2w - 2]);
        }
    }
    assert(text[nlw] == fh[nlw - pos]);
    assert forall|k: int| start <= k < s1w implies text[k] != ' ' by {
        assert(text[k] == fh[k - pos]);
        assert(fh[k - pos] == da[k - start]);
    }
    assert(text[s1w] == fh[s1w - pos]);
    assert forall|k: int| s1w + 1 <= k < s2w implies text[k] != ' ' by {
        assert(text[k] == fh[k - pos]);
        assert(fh[k - pos] == du[k - s1w - 1]);
    }
    assert(text[s2w] == fh[s2w - pos]);
    assert(text[s2w + 1] == fh[s2w + 1 - pos]);
    assert(text.subrange(pos, pos + 3) =~= fh.subrange(0, 3));
    assert(text.subrange(start, s1w) =~= fh.subrange(3, 3 + da.len() as int));
    assert(text.subrange(s1w + 1, s2w) =~= fh.subrange(s1w + 1 - pos, s2w - pos));
    assert(text.subrange(s2w + 2, nlw) =~= fh.subrange(s2w + 2 - pos, nlw - pos));
}

/// The header of a function constant at `pos`: `FN`, a line break, the
/// arity, the upvalue count and the name's string reference, and a line
/// break. Gives them and the position after the header.
#[verifier::spinoff_prover]
fn parse_header(text: &Vec<char>, pos: usize, n: usize, Ghost(exp): Ghost<Option<(u32, u16, StringRef)>>) -> (res:
    Option<(u32, u16, StringRef, usize)>)
    requires
        pos <= text.len(),
        exp matches Some(h) ==> ref_ok(h.2, n as nat) && at(text@, pos as int, function_header(h.0, h.1, h.2)),
    ensures
        res matches Some(r) ==> ref_ok(r.2, n as nat) && r.3 == pos + function_header(r.0, r.1, r.2).len() && at(
            text@,
            pos as int,
            function_header(r.0, r.1, r.2),
        ),
        exp matches Some(h) ==> res matches Some(r) && r.0 == h.0 && r.1 == h.1 && r.2 == h.2,
{
    proof {
        if let Some(h) = exp {
            lemma_header_layout(text@, pos as int, h.0, h.1, h.2);
        }
    }
    if !has_at(text, pos, &vec!['F', 'N', '\n']) {
        return None;
    }
    let nl = find_char(text, pos + 3, text.len(), '\n');
    if nl == text.len() {
        return None;
    }
    let s1 = find_char(text, pos + 3, nl, ' ');
    if s1 == nl {
        return None;
    }
    let arity = match parse_number(text, pos + 3, s1, 0xffff_ffff) {
        Some(a) => a as u32,
        None => {
            return None;
        },
    };
    let s2 = find_char(text, s1 + 1, nl, ' ');
    if s2 == nl {
        return None;
    }
    let upvalue_count = match parse_number(text, s1 + 1, s2, 0xffff) {
        Some(u) => u as u16,
        None => {
            return None;
        },
    };
    if s2 + 1 >= nl || text[s2 + 1] != 's' {
        return None;
    }
    let name = match parse_number(text, s2 + 2, nl, 255) {
        Some(r) => r as usize,
        None => {
            return None;
        },
    };
    proof {
        if let Some(h) = exp {
            lemma_decimal_injective(arity as nat, h.0 as nat);
            lemma_decimal_injective(upvalue_count as nat, h.1 as nat);
            lemma_decimal_injective(name as nat, h.2.0 as nat);
        }
    }
    if name >= n {
        return None;
    }
    let name_ref = StringRef(name);
    proof {
        lemma_header_text(text@, pos as int, s1 as int, s2 as int, nl as int, arity, upvalue_count, name_ref);
    }
    Some((arity, upvalue_count, name_ref, nl + 1))
}

/// A header whose pieces stand in the text is there whole.
proof fn lemma_header_text(text: Seq<char>, pos: int, s1: int, s2: int, nl: int, a: u32, u: u16, r: StringRef)
    requires
        0 <= pos && pos + 3 <= s1 < s2 && s2 + 2 <= nl < text.len(),
        text.subrange(pos, pos + 3) == seq!['F', 'N', '\n'],
        text.subrange(pos + 3, s1) == spec_decimal(a as nat),
        text[s1] == ' ',
        text.subrange(s1 + 1, s2) == spec_decimal(u as nat),
        text[s2] == ' ',
        text[s2 + 1] == 's',
        text.subrange(s2 + 2, nl) == spec_decimal(r.0 as nat),
        text[nl] == '\n',
    ensures
        at(text, pos, function_header(a, u, r)),
        nl + 1 == pos + function_header(a, u, r).len(),
{
    let fh = function_header(a, u, r);
    assert(fh =~= seq!['F', 'N', '\n'] + spec_decimal(a as nat) + seq![' '] + spec_decimal(u as nat) + seq![' ', 's']
        + spec_decimal(r.0 as nat) + seq!['\n']);
    assert(text.subrange(pos, nl + 1) =~= text.subrange(pos, pos + 3) + text.subrange(pos + 3, s1) + seq![' ']
        + text.subrange(s1 + 1, s2) + seq![' ', 's'] + text.subrange(s2 + 2, nl) + seq!['\n']);
}

/// The line that opens a chunk.
pub open spec fn chunk_head() -> Seq<char> {
    seq!['C', 'H', 'U', 'N', 'K', '\n']
}

/// The line that opens a chunk's constants.
pub open spec fn consts_head() -> Seq<char> {
    seq!['C', 'O', 'N', 'S', 'T', 'S', '\n']
}

/// The line that closes a function constant.
pub open spec fn fn_end() -> Seq<char> {
    seq!['Z', '_', 'F', 'N', '\n']
}

/// The line that closes the main chunk.
pub open spec fn main_end() -> Seq<char> {
    seq!['Z', '_', 'M', 'A', 'I', 'N', '\n']
}

/// Whether a chunk's constants may end at `pos`: the end of a function or of
/// the main chunk stands there.
pub open spec fn at_chunk_end(text: Seq<char>, pos: int) -> bool {
    at(text, pos, fn_end()) || at(text, pos, main_end())
}

/// The characters `F`, `N` and a line break.
fn fn_head_chars() -> (res: Vec<char>)
    ensures
        res@ == seq!['F', 'N', '\n'],
{
    let res = vec!['F', 'N', '\n'];
    assert(res@ =~= seq!['F', 'N', '\n']);
    res
}

/// The line that closes a function constant.
fn fn_end_chars() -> (res: Vec<char>)
    ensures
        res@ == seq!['Z', '_', 'F', 'N', '\n'],
{
    let res = vec!['Z', '_', 'F', 'N', '\n'];
    assert(res@ =~= seq!['Z', '_', 'F', 'N', '\n']);
    res
}

/// The line that closes the main chunk.
fn main_end_chars() -> (res: Vec<char>)
    ensures
        res@ == seq!['Z', '_', 'M', 'A', 'I', 'N', '\n'],
{
    let res = vec!['Z', '_', 'M', 'A', 'I', 'N', '\n'];
    assert(res@ =~= seq!['Z', '_', 'M', 'A', 'I', 'N', '\n']);
    res
}

/// The line that opens a chunk.
fn chunk_head_chars() -> (res: Vec<char>)
    ensures
        res@ == seq!['C', 'H', 'U', 'N', 'K', '\n'],
{
    let res = vec!['C', 'H', 'U', 'N', 'K', '\n'];
    assert(res@ =~= seq!['C', 'H', 'U', 'N', 'K', '\n']);
    res
}

/// The word that opens a chunk's constants.
fn consts_word_chars() -> (res: Vec<char>)
    ensures
        res@ == seq!['C', 'O', 'N', 'S', 'T', 'S'],
{
    let res = vec!['C', 'O', 'N', 'S', 'T', 'S'];
    assert(res@ =~= seq!['C', 'O', 'N', 'S', 'T', 'S']);
    res
}

/// The line that opens a chunk's constants.
fn consts_head_chars() -> (res: Vec<char>)
    ensures
        res@ == seq!['C', 'O', 'N', 'S', 'T', 'S', '\n'],
{
    let res = vec!['C', 'O', 'N', 'S', 'T', 'S', '\n'];
    assert(res@ =~= seq!['C', 'O', 'N', 'S', 'T', 'S', '\n']);
    res
}

/// The line of a nil constant.
fn nil_chars() -> (res: Vec<char>)
    ensures
        res@ == seq!['n', '\n'],
{
    let res = vec!['n', '\n'];
    assert(res@ =~= seq!['n', '\n']);
    res
}

/// The line of a true constant.
fn true_chars() -> (res: Vec<char>)
    ensures
        res@ == seq!['t', '\n'],
{
    let res = vec!['t', '\n'];
    assert(res@ =~= seq!['t', '\n']);
    res
}

/// The line of a false constant.
fn false_chars() -> (res: Vec<char>)
    ensures
        res@ == seq!['f', '\n'],
{
    let res = vec!['f', '\n'];
    assert(res@ =~= seq!['f', '\n']);
    res
}

/// The line that opens the strings section.
fn strs_head_chars() -> (res: Vec<char>)
    ensures
        res@ == seq!['S', 'T', 'R', 'S', '\n'],
{
    let res = vec!['S', 'T', 'R', 'S', '\n'];
    assert(res@ =~= seq!['S', 'T', 'R', 'S', '\n']);
    res
}

/// The word that closes the strings section.
fn z_strs_chars() -> (res: Vec<char>)
    ensures
        res@ == seq!['Z', '_', 'S', 'T', 'R', 'S'],
{
    let res = vec!['Z', '_', 'S', 'T', 'R', 'S'];
    assert(res@ =~= seq!['Z', '_', 'S', 'T', 'R', 'S']);
    res
}

/// The end of the strings section and the line that opens the main chunk.
fn main_head_chars() -> (res: Vec<char>)
    ensures
        res@ == seq!['Z', '_', 'S', 'T', 'R', 'S', '\n', '\n', 'M', 'A', 'I', 'N', '\n'],
{
    let res = vec!['Z', '_', 'S', 'T', 'R', 'S', '\n', '\n', 'M', 'A', 'I', 'N', '\n'];
    assert(res@ =~= seq!['Z', '_', 'S', 'T', 'R', 'S', '\n', '\n', 'M', 'A', 'I', 'N', '\n']);
    res
}

/// Text standing at `p` is followed by the rest of the text.
proof fn lemma_at_rest(text: Seq<char>, p: int, s: Seq<char>)
    requires
        at(text, p, s),
    ensures
        text.subrange(p, text.len() as int) == s + text.subrange(p + s.len(), text.len() as int),
{
    assert(text.subrange(p, text.len() as int) =~= s + text.subrange(p + s.len(), text.len() as int));
}

/// The rest of the text from `p` on, cut in two.
proof fn lemma_rest_at(text: Seq<char>, p: int, s: Seq<char>, r: Seq<char>)
    requires
        0 <= p <= text.len(),
        text.subrange(p, text.len() as int) == s + r,
    ensures
        at(text, p, s),
        text.subrange(p + s.len(), text.len() as int) == r,
{
    let t = text.subrange(p, text.len() as int);
    assert(t.len() == text.len() - p);
    assert(t.len() == s.len() + r.len());
    assert(text.subrange(p, p + s.len()) =~= t.subrange(0, s.len() as int));
    assert(t.subrange(0, s.len() as int) =~= s);
    assert(text.subrange(p + s.len(), text.len() as int) =~= t.subrange(s.len() as int, t.len() as int));
    assert(t.subrange(s.len() as int, t.len() as int) =~= r);
}

/// Terminated parts from the `k`-th on: that part, the separator, the rest.
proof fn lemma_terminated_skip(ps: Seq<Seq<char>>, k: int, sep: char)
    requires
        0 <= k < ps.len(),
    ensures
        terminated(ps.skip(k), sep) == ps[k] + seq![sep] + terminated(ps.skip(k + 1), sep),
{
    assert(ps.skip(k)[0] == ps[k]);
    assert(ps.skip(k).drop_first() =~= ps.skip(k + 1));
}

/// A piece free of `c` and followed by `c` at `p`: where `c` first comes.
proof fn lemma_first_delim(text: Seq<char>, p: int, s: Seq<char>, c: char, r: Seq<char>)
    requires
        0 <= p <= text.len(),
        text.subrange(p, text.len() as int) == s + seq![c] + r,
        free_of(s, c),
    ensures
        p + s.len() < text.len(),
        forall|k: int| p <= k < p + s.len() ==> text[k] != c,
        text[p + s.len()] == c,
        text.subrange(p, p + s.len()) == s,
        text.subrange(p + s.len() + 1, text.len() as int) == r,
{
    let t = text.subrange(p, text.len() as int);
    assert(t.len() == text.len() - p);
    assert(t.len() == s.len() + 1 + r.len());
    assert forall|k: int| p <= k < p + s.len() implies text[k] != c by {
        assert(text[k] == t[k - p]);
        assert(t[k - p] == s[k - p]);
    }
    assert(text[p + s.len()] == t[s.len() as int]);
    assert(text.subrange(p, p + s.len()) =~= t.subrange(0, s.len() as int));
    assert(t.subrange(0, s.len() as int) =~= s);
    assert(text.subrange(p + s.len() + 1, text.len() as int) =~= t.subrange(s.len() as int + 1, t.len() as int));
    assert(t.subrange(s.len() as int + 1, t.len() as int) =~= r);
}

/// A constant other than a function at `pos`, with the line break after
/// it: `n`, `t`, `f`, a string reference or a number.
#[verifier::spinoff_prover]
fn parse_simple_value(text: &Vec<char>, pos: usize, n: usize, Ghost(exp): Ghost<Option<CompiledValue>>) -> (res:
    Option<(CompiledValue, usize)>)
    requires
        pos <= text.len(),
        exp matches Some(m) ==> !(m is CompiledFunction) && value_loadable(m, n as nat) && at(
            text@,
            pos as int,
            spec_serialize_value(m) + seq!['\n'],
        ),
    ensures
        res matches Some(r) ==> value_loadable(r.0, n as nat) && pos < r.1 <= text.len() && text@.subrange(
            pos as int,
            r.1 as int,
        ) == spec_serialize_value(r.0) + seq!['\n'],
        exp is Some ==> res is Some,
{
    let len = text.len();
    proof {
        if let Some(m) = exp {
            let t = spec_serialize_value(m) + seq!['\n'];
            lemma_at_rest(text@, pos as int, t);
            match m {
                CompiledValue::CompiledNil => {
                    assert(t =~= seq!['n', '\n']);
                },
                CompiledValue::CompiledBoolean(b) => {
                    if b {
                        assert(t =~= seq!['t', '\n']);
                    } else {
                        assert(t =~= seq!['f', '\n']);
                    }
                },
                _ => {
                    lemma_value_text_start(m);
                    assert(text@[pos as int] == text@.subrange(pos as int, len as int)[0]);
                },
            }
        }
    }
    if has_at(text, pos, &nil_chars()) {
        proof {
            assert(spec_serialize_value(CompiledValue::CompiledNil) + seq!['\n'] =~= seq!['n', '\n']);
        }
        return Some((CompiledValue::CompiledNil, pos + 2));
    }
    if has_at(text, pos, &true_chars()) {
        proof {
            assert(spec_serialize_value(CompiledValue::CompiledBoolean(true)) + seq!['\n'] =~= seq!['t', '\n']);
        }
        return Some((CompiledValue::CompiledBoolean(true), pos + 2));
    }
    if has_at(text, pos, &false_chars()) {
        proof {
            assert(spec_serialize_value(CompiledValue::CompiledBoolean(false)) + seq!['\n'] =~= seq!['f', '\n']);
        }
        return Some((CompiledValue::CompiledBoolean(false), pos + 2));
    }
    if pos < len && text[pos] == 's' {
        let ghost dw: Seq<char> = match exp {
            Some(CompiledValue::CompiledString(r)) => spec_decimal(r.0 as nat),
            _ => Seq::empty(),
        };
        proof {
            if let Some(m) = exp {
                assert(m is CompiledString);
                lemma_decimal(m->CompiledString_0.0 as nat);
                let rest = text@.subrange(pos + (spec_serialize_value(m) + seq!['\n']).len(), len as int);
                assert(text@.subrange(pos + 1, len as int) =~= text@.subrange(pos as int, len as int).drop_first());
                assert(text@.subrange(pos + 1, len as int) =~= dw + seq!['\n'] + rest);
                lemma_first_delim(text@, pos + 1, dw, '\n', rest);
            }
        }
        let nl = find_char(text, pos + 1, len, '\n');
        if nl == len {
            return None;
        }
        let r = match parse_number(text, pos + 1, nl, 255) {
            Some(r) => r as usize,
            None => {
                return None;
            },
        };
        proof {
            lemma_decimal(r as nat);
            if let Some(m) = exp {
                lemma_decimal_injective(r as nat, m->CompiledString_0.0 as nat);
            }
        }
        if r >= n {
            return None;
        }
        let v = CompiledValue::CompiledString(StringRef(r));
        proof {
            assert(text@.subrange(pos as int, nl + 1) =~= seq!['s'] + text@.subrange(pos + 1, nl as int) + seq!['\n']);
        }
        return Some((v, nl + 1));
    }
    if pos < len && text[pos] == 'd' {
        let ghost tw: Seq<char> = match exp {
            Some(CompiledValue::CompiledNumber(t)) => t@,
            _ => Seq::empty(),
        };
        proof {
            if let Some(m) = exp {
                assert(m is CompiledNumber);
                lemma_number_text_free(tw);
                let rest = text@.subrange(pos + (spec_serialize_value(m) + seq!['\n']).len(), len as int);
                assert(text@.subrange(pos + 1, len as int) =~= text@.subrange(pos as int, len as int).drop_first());
                assert(text@.subrange(pos + 1, len as int) =~= tw + seq!['\n'] + rest);
                lemma_first_delim(text@, pos + 1, tw, '\n', rest);
            }
        }
        let nl = find_char(text, pos + 1, len, '\n');
        if nl == len {
            return None;
        }
        let t = slice_chars(text, pos + 1, nl);
        if !is_number_text(&t) {
            return None;
        }
        proof {
            assert(text@.subrange(pos as int, nl + 1) =~= seq!['d'] + t@ + seq!['\n']);
        }
        return Some((CompiledValue::CompiledNumber(t), nl + 1));
    }
    None
}

/// A function constant at `pos`, with the line break after it: its header,
/// its chunk, and `Z_FN`.
#[verifier::spinoff_prover]
fn parse_function_value(text: &Vec<char>, pos: usize, n: usize, Ghost(exp): Ghost<Option<CompiledValue>>) -> (res:
    Option<(CompiledValue, usize)>)
    requires
        pos <= text.len(),
        exp matches Some(m) ==> m is CompiledFunction && value_loadable(m, n as nat) && at(
            text@,
            pos as int,
            spec_serialize_value(m) + seq!['\n'],
        ),
    ensures
        res matches Some(r) ==> value_loadable(r.0, n as nat) && pos < r.1 <= text.len() && text@.subrange(
            pos as int,
            r.1 as int,
        ) == spec_serialize_value(r.0) + seq!['\n'],
        exp is Some ==> res is Some,
    decreases text.len() - pos, 0int,
{
    let len = text.len();
    let ghost hexp: Option<(u32, u16, StringRef)> = match exp {
        Some(CompiledValue::CompiledFunction { arity, upvalue_count, name_ref, .. }) => Some(
            (arity, upvalue_count, name_ref),
        ),
        _ => None,
    };
    let ghost cexp: Option<CompiledChunk> = match exp {
        Some(CompiledValue::CompiledFunction { chunk, .. }) => Some(chunk),
        _ => None,
    };
    proof {
        if let Some(m) = exp {
            let fh = function_header(m->arity, m->upvalue_count, m->name_ref);
            let ch = spec_serialize_chunk(m->chunk);
            lemma_at_rest(text@, pos as int, spec_serialize_value(m) + seq!['\n']);
            let rest = text@.subrange(pos + (spec_serialize_value(m) + seq!['\n']).len(), len as int);
            assert(spec_serialize_value(m) + seq!['\n'] + rest =~= fh + (ch + seq!['\n'] + (fn_end() + rest)));
            lemma_rest_at(text@, pos as int, fh, ch + seq!['\n'] + (fn_end() + rest));
            lemma_rest_at(text@, pos + fh.len(), ch + seq!['\n'], fn_end() + rest);
            lemma_rest_at(text@, pos + fh.len() + ch.len() + 1, fn_end(), rest);
        }
    }
    let (arity, upvalue_count, name_ref, h) = match parse_header(text, pos, n, Ghost(hexp)) {
        Some(r) => r,
        None => {
            return None;
        },
    };
    let (chunk, e1) = match parse_chunk(text, h, n, Ghost(cexp)) {
        Some(r) => r,
        None => {
            return None;
        },
    };
    proof {
        if let Some(m) = exp {
            let ch = spec_serialize_chunk(m->chunk);
            let ew = h + ch.len() + 1;
            lemma_at_rest(text@, h as int, spec_serialize_chunk(chunk) + seq!['\n']);
            lemma_at_rest(text@, h as int, ch + seq!['\n']);
            lemma_chunk_end_starts_z(text@, e1 as int);
            lemma_chunk_end_starts_z(text@, ew);
            lemma_chunk_unique(
                chunk,
                m->chunk,
                n as nat,
                n as nat,
                text@.subrange(e1 as int, len as int),
                text@.subrange(ew, len as int),
            );
        }
    }
    if !has_at(text, e1, &fn_end_chars()) {
        return None;
    }
    let v = CompiledValue::CompiledFunction { arity, upvalue_count, name_ref, chunk };
    proof {
        let fh = function_header(arity, upvalue_count, name_ref);
        assert(spec_serialize_value(v) + seq!['\n'] =~= fh + (spec_serialize_chunk(chunk) + seq!['\n']) + fn_end());
        assert(text@.subrange(pos as int, e1 + 5) =~= text@.subrange(pos as int, h as int) + text@.subrange(
            h as int,
            e1 as int,
        ) + text@.subrange(e1 as int, e1 + 5));
    }
    Some((v, e1 + 5))
}

/// Where a chunk may end, the rest of the text begins with `Z`.
proof fn lemma_chunk_end_starts_z(text: Seq<char>, p: int)
    requires
        at_chunk_end(text, p),
    ensures
        p < text.len(),
        text.subrange(p, text.len() as int).len() > 0,
        text.subrange(p, text.len() as int)[0] == 'Z',
{
    if at(text, p, fn_end()) {
        assert(text.subrange(p, p + 5)[0] == text[p]);
    } else {
        assert(text.subrange(p, p + 7)[0] == text[p]);
    }
    assert(text.subrange(p, text.len() as int)[0] == text[p]);
}

/// The constant written at `pos`, with the line break after it; gives the
/// constant and the position after that line break.
#[verifier::spinoff_prover]
fn parse_value(text: &Vec<char>, pos: usize, n: usize, Ghost(exp): Ghost<Option<CompiledValue>>) -> (res: Option<
    (CompiledValue, usize),
>)
    requires
        pos <= text.len(),
        exp matches Some(m) ==> value_loadable(m, n as nat) && at(
            text@,
            pos as int,
            spec_serialize_value(m) + seq!['\n'],
        ),
    ensures
        res matches Some(r) ==> value_loadable(r.0, n as nat) && pos < r.1 <= text.len() && text@.subrange(
            pos as int,
            r.1 as int,
        ) == spec_serialize_value(r.0) + seq!['\n'],
        exp is Some ==> res is Some,
    decreases text.len() - pos, 1int,
{
    proof {
        if let Some(m) = exp {
            lemma_value_text_start(m);
            lemma_at_rest(text@, pos as int, spec_serialize_value(m) + seq!['\n']);
            assert(text@[pos as int] == text@.subrange(pos as int, text.len() as int)[0]);
            if m is CompiledFunction {
                assert(spec_serialize_value(m).subrange(0, 3) =~= seq!['F', 'N', '\n']);
                assert(text@.subrange(pos as int, pos + 3) =~= spec_serialize_value(m).subrange(0, 3));
            }
        }
    }
    if has_at(text, pos, &fn_head_chars()) {
        parse_function_value(text, pos, n, Ghost(exp))
    } else {
        parse_simple_value(text, pos, n, Ghost(exp))
    }
}

/// The line groups written from `start` on, each followed by a line break,
/// up to where `CONSTS` stands; gives them and that position.
#[verifier::spinoff_prover]
fn parse_lines(text: &Vec<char>, start: usize, Ghost(exp): Ghost<Option<(Seq<(u32, Seq<Byte>)>, Seq<char>)>>) -> (res:
    Option<(Vec<(u32, Vec<Byte>)>, usize)>)
    requires
        start <= text.len(),
        exp matches Some(e) ==> e.0.len() > 0 && text@.subrange(start as int, text.len() as int) == terminated(
            line_texts(e.0),
            '\n',
        ) + consts_head() + e.1,
    ensures
        res matches Some(r) ==> r.0@.len() > 0 && start <= r.1 <= text.len() && text@.subrange(start as int, r.1 as int)
            == terminated(line_texts(groups_view(r.0@)), '\n') && at(text@, r.1 as int, consts_head()),
        exp matches Some(e) ==> res matches Some(r) && r.1 == start + terminated(line_texts(e.0), '\n').len(),
{
    let len = text.len();
    let ghost lt: Seq<Seq<char>> = match exp {
        Some(e) => line_texts(e.0),
        None => Seq::empty(),
    };
    let ghost tail1: Seq<char> = match exp {
        Some(e) => e.1,
        None => Seq::empty(),
    };
    let ghost after = consts_head() + tail1;
    proof {
        if let Some(e) = exp {
            lemma_line_texts_index(e.0);
            assert forall|i: int| 0 <= i < lt.len() implies free_of(#[trigger] lt[i], '\n') && lt[i].len() > 0
                && lt[i][0] == 'L' by {
                lemma_line_text_shape(e.0[i]);
            }
            assert(lt.skip(0) =~= lt);
        }
    }
    let mut groups: Vec<(u32, Vec<Byte>)> = Vec::new();
    let mut p = start;
    assert(text@.subrange(start as int, p as int) =~= Seq::<char>::empty());
    assert(line_texts(groups_view(groups@)) =~= Seq::<Seq<char>>::empty());
    while !has_at(text, p, &consts_word_chars())
        invariant
            start <= p <= len == text.len(),
            text@.subrange(start as int, p as int) == terminated(line_texts(groups_view(groups@)), '\n'),
            after == consts_head() + tail1,
            exp matches Some(e) ==> {
                &&& lt == line_texts(e.0)
                &&& lt.len() == e.0.len()
                &&& forall|i: int| 0 <= i < e.0.len() ==> #[trigger] lt[i] == spec_line_text(e.0[i])
                &&& groups@.len() <= lt.len()
                &&& text@.subrange(p as int, len as int) == terminated(lt.skip(groups@.len() as int), '\n') + after
                &&& forall|i: int| 0 <= i < lt.len() ==> free_of(#[trigger] lt[i], '\n') && lt[i].len() > 0
                    && lt[i][0] == 'L'
            },
        decreases len - p,
    {
        let ghost k = groups@.len() as int;
        proof {
            if exp is Some {
                if k == lt.len() {
                    assert(lt.skip(k) =~= Seq::<Seq<char>>::empty());
                    assert(terminated(lt.skip(k), '\n') =~= Seq::<char>::empty());
                    assert(after =~= seq!['C', 'O', 'N', 'S', 'T', 'S'] + (seq!['\n'] + tail1));
                    lemma_rest_at(text@, p as int, seq!['C', 'O', 'N', 'S', 'T', 'S'], seq!['\n'] + tail1);
                }
                lemma_terminated_skip(lt, k, '\n');
                assert(text@.subrange(p as int, len as int) =~= lt[k] + seq!['\n'] + (terminated(lt.skip(k + 1), '\n')
                    + after));
                lemma_first_delim(text@, p as int, lt[k], '\n', terminated(lt.skip(k + 1), '\n') + after);
            }
        }
        let nl = find_char(text, p, len, '\n');
        if nl == len {
            return None;
        }
        let g = match parse_line(text, p, nl) {
            Some(g) => g,
            None => {
                return None;
            },
        };
        let ghost old_groups = groups@;
        groups.push(g);
        proof {
            assert(groups_view(groups@) =~= groups_view(old_groups).push((g.0, g.1@)));
            assert(groups_view(groups@).drop_last() =~= groups_view(old_groups));
            lemma_terminated_push(line_texts(groups_view(old_groups)), spec_line_text((g.0, g.1@)), '\n');
            assert(text@.subrange(start as int, nl + 1) =~= text@.subrange(start as int, p as int) + text@.subrange(
                p as int,
                nl as int,
            ) + seq!['\n']);
        }
        p = nl + 1;
    }
    proof {
        if exp is Some {
            let k = groups@.len() as int;
            if k < lt.len() {
                lemma_terminated_skip(lt, k, '\n');
                assert(text@.subrange(p as int, len as int)[0] == lt[k][0]);
                assert(text@.subrange(p as int, len as int)[0] == text@[p as int]);
                assert(text@.subrange(p as int, p + 6)[0] == text@[p as int]);
            }
            assert(lt.skip(k) =~= Seq::<Seq<char>>::empty());
            assert(terminated(lt.skip(k), '\n') =~= Seq::<char>::empty());
            lemma_rest_at(text@, p as int, consts_head(), tail1);
            assert(text@.subrange(start as int, len as int).len() == len - start);
            assert(text@.subrange(p as int, len as int).len() == len - p);
        }
    }
    if groups.len() == 0 || !has_at(text, p, &consts_head_chars()) {
        return None;
    }
    Some((groups, p))
}

/// The constants written from `start` on, each followed by a line break,
/// up to where the end of a function or of the main chunk stands; gives
/// them and that position.
#[verifier::spinoff_prover]
fn parse_constants(text: &Vec<char>, start: usize, n: usize, Ghost(exp): Ghost<Option<Seq<CompiledValue>>>) -> (res:
    Option<(Vec<CompiledValue>, usize)>)
    requires
        start <= text.len(),
        exp matches Some(vs) ==> {
            &&& forall|i: int| 0 <= i < vs.len() ==> value_loadable(#[trigger] vs[i], n as nat)
            &&& at(text@, start as int, terminated(value_texts(vs), '\n'))
            &&& at_chunk_end(text@, start + terminated(value_texts(vs), '\n').len())
        },
    ensures
        res matches Some(r) ==> {
            &&& start <= r.1 <= text.len()
            &&& forall|i: int| 0 <= i < r.0@.len() ==> value_loadable(#[trigger] r.0@[i], n as nat)
            &&& text@.subrange(start as int, r.1 as int) == terminated(value_texts(r.0@), '\n')
            &&& at_chunk_end(text@, r.1 as int)
        },
        exp matches Some(vs) ==> res matches Some(r) && r.1 == start + terminated(value_texts(vs), '\n').len(),
    decreases text.len() - start, 2int,
{
    let len = text.len();
    let ghost vs: Seq<CompiledValue> = match exp {
        Some(v) => v,
        None => Seq::empty(),
    };
    let ghost vt = value_texts(vs);
    let ghost end_w: int = start + terminated(vt, '\n').len();
    let ghost follow: Seq<char> = if exp is Some {
        text@.subrange(end_w, len as int)
    } else {
        Seq::empty()
    };
    proof {
        lemma_value_texts_index(vs);
        if exp is Some {
            lemma_at_rest(text@, start as int, terminated(vt, '\n'));
            assert(vt.skip(0) =~= vt);
        }
    }
    let mut consts: Vec<CompiledValue> = Vec::new();
    let mut q = start;
    assert(text@.subrange(start as int, q as int) =~= Seq::<char>::empty());
    assert(value_texts(consts@) =~= Seq::<Seq<char>>::empty());
    while !(has_at(text, q, &fn_end_chars()) || has_at(text, q, &main_end_chars()))
        invariant
            start <= q <= len == text.len(),
            text@.subrange(start as int, q as int) == terminated(value_texts(consts@), '\n'),
            forall|i: int| 0 <= i < consts@.len() ==> value_loadable(#[trigger] consts@[i], n as nat),
            exp is Some ==> {
                &&& exp == Some(vs)
                &&& consts@.len() <= vt.len()
                &&& text@.subrange(q as int, len as int) == terminated(vt.skip(consts@.len() as int), '\n') + follow
                &&& vt == value_texts(vs)
                &&& vt.len() == vs.len()
                &&& forall|i: int| 0 <= i < vs.len() ==> #[trigger] vt[i] == spec_serialize_value(vs[i])
                &&& forall|i: int| 0 <= i < vs.len() ==> value_loadable(#[trigger] vs[i], n as nat)
                &&& at_chunk_end(text@, end_w)
                &&& follow == text@.subrange(end_w, len as int)
                &&& end_w <= len
            },
        decreases len - q,
    {
        let ghost j = consts@.len() as int;
        proof {
            if exp is Some {
                if j == vt.len() {
                    assert(vt.skip(j) =~= Seq::<Seq<char>>::empty());
                    assert(terminated(vt.skip(j), '\n') =~= Seq::<char>::empty());
                    assert(text@.subrange(q as int, len as int) =~= follow);
                    assert(text@.subrange(q as int, len as int).len() == len - q);
                    assert(follow.len() == len - end_w);
                    assert(q == end_w);
                }
                lemma_terminated_skip(vt, j, '\n');
                assert(text@.subrange(q as int, len as int) =~= vt[j] + seq!['\n'] + (terminated(vt.skip(j + 1), '\n')
                    + follow));
                lemma_rest_at(text@, q as int, vt[j] + seq!['\n'], terminated(vt.skip(j + 1), '\n') + follow);
            }
        }
        let ghost vexp: Option<CompiledValue> = if exp is Some && j < vs.len() {
            Some(vs[j])
        } else {
            None
        };
        let (v, e) = match parse_value(text, q, n, Ghost(vexp)) {
            Some(r) => r,
            None => {
                return None;
            },
        };
        proof {
            if exp is Some {
                let ew = q + vt[j].len() + 1;
                lemma_at_rest(text@, q as int, spec_serialize_value(v) + seq!['\n']);
                lemma_at_rest(text@, q as int, vt[j] + seq!['\n']);
                lemma_value_unique(
                    v,
                    vs[j],
                    n as nat,
                    n as nat,
                    text@.subrange(e as int, len as int),
                    text@.subrange(ew, len as int),
                );
                assert(text@.subrange(e as int, len as int).len() == len - e);
                assert(text@.subrange(ew, len as int).len() == len - ew);
            }
        }
        let ghost old_consts = consts@;
        consts.push(v);
        proof {
            assert(consts@.drop_last() =~= old_consts);
            assert(value_texts(consts@) == value_texts(old_consts).push(spec_serialize_value(v)));
            lemma_terminated_push(value_texts(old_consts), spec_serialize_value(v), '\n');
            assert(text@.subrange(start as int, e as int) =~= text@.subrange(start as int, q as int) + text@.subrange(
                q as int,
                e as int,
            ));
        }
        q = e;
    }
    proof {
        if exp is Some {
            let j = consts@.len() as int;
            if j < vt.len() {
                lemma_terminated_skip(vt, j, '\n');
                lemma_value_text_start(vs[j]);
                assert(text@.subrange(q as int, len as int)[0] == vt[j][0]);
                assert(text@.subrange(q as int, len as int)[0] == text@[q as int]);
                if at(text@, q as int, fn_end()) {
                    assert(text@.subrange(q as int, q + 5)[0] == text@[q as int]);
                } else {
                    assert(text@.subrange(q as int, q + 7)[0] == text@[q as int]);
                }
            }
            assert(vt.skip(j) =~= Seq::<Seq<char>>::empty());
            assert(terminated(vt.skip(j), '\n') =~= Seq::<char>::empty());
            assert(text@.subrange(q as int, len as int).len() == len - q);
        }
    }
    Some((consts, q))
}

/// The chunk written at `pos`, with the line break after it, up to where
/// the end of a function or of the main chunk stands; gives the chunk and
/// that position.
#[verifier::spinoff_prover]
#[verifier::rlimit(40)]
fn parse_chunk(text: &Vec<char>, pos: usize, n: usize, Ghost(exp): Ghost<Option<CompiledChunk>>) -> (res: Option<
    (CompiledChunk, usize),
>)
    requires
        pos <= text.len(),
        exp matches Some(m) ==> chunk_loadable(m, n as nat) && at(
            text@,
            pos as int,
            spec_serialize_chunk(m) + seq!['\n'],
        ) && at_chunk_end(text@, pos + spec_serialize_chunk(m).len() + 1),
    ensures
        res matches Some(r) ==> chunk_loadable(r.0, n as nat) && pos < r.1 <= text.len() && text@.subrange(
            pos as int,
            r.1 as int,
        ) == spec_serialize_chunk(r.0) + seq!['\n'] && at_chunk_end(text@, r.1 as int),
        exp matches Some(m) ==> res matches Some(r) && r.1 == pos + spec_serialize_chunk(m).len() + 1,
    decreases text.len() - pos, 3int,
{
    let len = text.len();
    let ghost lexp: Option<(Seq<(u32, Seq<Byte>)>, Seq<char>)> = match exp {
        Some(m) => Some(
            (
                groups_view(m.line_data@),
                terminated(value_texts(m.constants@), '\n') + text@.subrange(
                    pos + spec_serialize_chunk(m).len() + 1,
                    len as int,
                ),
            ),
        ),
        None => None,
    };
    let ghost cexp: Option<Seq<CompiledValue>> = match exp {
        Some(m) => Some(m.constants@),
        None => None,
    };
    proof {
        if let Some(m) = exp {
            let lt = line_texts(groups_view(m.line_data@));
            let vt = value_texts(m.constants@);
            let follow = text@.subrange(pos + spec_serialize_chunk(m).len() + 1, len as int);
            lemma_chunk_text(m);
            lemma_line_texts_index(groups_view(m.line_data@));
            lemma_at_rest(text@, pos as int, spec_serialize_chunk(m) + seq!['\n']);
            assert(text@.subrange(pos as int, len as int) =~= chunk_head() + (terminated(lt, '\n') + consts_head()
                + (terminated(vt, '\n') + follow)));
            lemma_rest_at(
                text@,
                pos as int,
                chunk_head(),
                terminated(lt, '\n') + consts_head() + (terminated(vt, '\n') + follow),
            );
        }
    }
    if !has_at(text, pos, &chunk_head_chars()) {
        return None;
    }
    let (groups, p) = match parse_lines(text, pos + 6, Ghost(lexp)) {
        Some(r) => r,
        None => {
            return None;
        },
    };
    proof {
        if let Some(m) = exp {
            let lt = line_texts(groups_view(m.line_data@));
            let vt = value_texts(m.constants@);
            let follow = text@.subrange(pos + spec_serialize_chunk(m).len() + 1, len as int);
            assert(text@.subrange(pos + 6, len as int) =~= terminated(lt, '\n') + (consts_head() + (terminated(vt, '\n')
                + follow)));
            lemma_rest_at(text@, pos + 6, terminated(lt, '\n'), consts_head() + (terminated(vt, '\n') + follow));
            lemma_rest_at(text@, p as int, consts_head(), terminated(vt, '\n') + follow);
            lemma_rest_at(text@, p + 7, terminated(vt, '\n'), follow);
            assert(text@.subrange(p + 7 + terminated(vt, '\n').len(), len as int).len() == follow.len());
            lemma_value_texts_index(m.constants@);
            assert forall|i: int| 0 <= i < m.constants@.len() implies value_loadable(#[trigger] m.constants@[i], n as nat)
                by {
                assert(value_loadable(m.constants@[i], n as nat));
            }
        }
    }
    let (consts, q) = match parse_constants(text, p + 7, n, Ghost(cexp)) {
        Some(r) => r,
        None => {
            return None;
        },
    };
    let chunk = CompiledChunk { line_data: groups, constants: consts };
    proof {
        lemma_chunk_text(chunk);
        lemma_at_rest(text@, p as int, consts_head());
        assert(text@.subrange(p as int, p + 7) == consts_head());
        assert(text@.subrange(pos as int, q as int) =~= text@.subrange(pos as int, pos + 6) + text@.subrange(
            pos + 6,
            p as int,
        ) + text@.subrange(p as int, p + 7) + text@.subrange(p + 7, q as int));
        if let Some(m) = exp {
            lemma_chunk_text(m);
        }
    }
    Some((chunk, q))
}

/// The first position from `from` on where a record separator is followed
/// by a line break, or the end of the text if there is none.
fn find_string_end(text: &Vec<char>, from: usize) -> (res: usize)
    requires
        from <= text.len(),
    ensures
        from <= res <= text.len(),
        res < text.len() ==> res + 1 < text.len() && text@[res as int] == '\u{1E}' && text@[res + 1] == '\n',
        forall|k: int| from <= k < res ==> !(k + 1 < text.len() && #[trigger] text@[k] == '\u{1E}' && text@[k + 1] == '\n'),
{
    let mut i = from;
    while i < text.len()
        invariant
            from <= i <= text.len(),
            forall|k: int| from <= k < i ==> !(k + 1 < text.len() && #[trigger] text@[k] == '\u{1E}' && text@[k + 1] == '\n'),
        decreases text.len() - i,
    {
        if text[i] == '\u{1E}' && i + 1 < text.len() && text[i + 1] == '\n' {
            return i;
        }
        i = i + 1;
    }
    i
}

/// A string that can be read back, with its end and whatever follows, does
/// not begin like the end of the strings section.
proof fn lemma_string_start(s: Seq<char>, rest: Seq<char>)
    requires
        string_loadable(s),
    ensures
        !((s + string_end() + rest).len() >= 6 && (s + string_end() + rest).subrange(0, 6) == z_strs()),
{
    let l = s + string_end() + rest;
    if l.len() >= 6 && l.subrange(0, 6) == z_strs() {
        if s.len() >= 6 {
            assert(s.subrange(0, 6) =~= l.subrange(0, 6));
        } else {
            let k = s.len() as int;
            assert(l[k] == '\u{1E}');
            assert(l.subrange(0, 6)[k] == l[k]);
        }
    }
}

/// The strings section from its `k`-th string on.
proof fn lemma_strings_skip(ss: Seq<Seq<char>>, k: int)
    requires
        0 <= k < ss.len(),
    ensures
        spec_strings_text(ss.skip(k)) == ss[k] + string_end() + spec_strings_text(ss.skip(k + 1)),
{
    lemma_strings_front(ss.skip(k));
    assert(ss.skip(k).drop_first() =~= ss.skip(k + 1));
}

/// The strings written from `start` on, each followed by its end, up to
/// where the end of the strings section stands; gives them and that
/// position.
#[verifier::spinoff_prover]
fn parse_strings(text: &Vec<char>, start: usize, Ghost(exp): Ghost<Option<(Seq<Seq<char>>, Seq<char>)>>) -> (res:
    Option<(Vec<Vec<char>>, usize)>)
    requires
        start <= text.len(),
        exp matches Some(e) ==> {
            &&& forall|i: int| 0 <= i < e.0.len() ==> string_loadable(#[trigger] e.0[i])
            &&& text@.subrange(start as int, text.len() as int) == spec_strings_text(e.0) + e.1
            &&& e.1.len() >= 6
            &&& e.1.subrange(0, 6) == z_strs()
        },
    ensures
        res matches Some(r) ==> {
            &&& start <= r.1 <= text.len()
            &&& text@.subrange(start as int, r.1 as int) == spec_strings_text(texts_view(r.0@))
            &&& forall|i: int| 0 <= i < r.0@.len() ==> string_loadable(#[trigger] r.0@[i]@)
            &&& at(text@, r.1 as int, z_strs())
        },
        exp matches Some(e) ==> res matches Some(r) && r.0@.len() == e.0.len() && r.1 == start
            + spec_strings_text(e.0).len(),
{
    let len = text.len();
    let ghost ss: Seq<Seq<char>> = match exp {
        Some(e) => e.0,
        None => Seq::empty(),
    };
    let ghost after: Seq<char> = match exp {
        Some(e) => e.1,
        None => Seq::empty(),
    };
    proof {
        assert(ss.skip(0) =~= ss);
    }
    let mut strings: Vec<Vec<char>> = Vec::new();
    let mut p: usize = start;
    assert(text@.subrange(start as int, p as int) =~= Seq::<char>::empty());
    assert(texts_view(strings@) =~= Seq::<Seq<char>>::empty());
    while !has_at(text, p, &z_strs_chars())
        invariant
            start <= p <= len == text.len(),
            text@.subrange(start as int, p as int) == spec_strings_text(texts_view(strings@)),
            forall|i: int| 0 <= i < strings@.len() ==> string_loadable(#[trigger] strings@[i]@),
            exp is Some ==> {
                &&& strings@.len() <= ss.len()
                &&& text@.subrange(p as int, len as int) == spec_strings_text(ss.skip(strings@.len() as int)) + after
                &&& forall|i: int| 0 <= i < ss.len() ==> string_loadable(#[trigger] ss[i])
                &&& after.len() >= 6
                &&& after.subrange(0, 6) == z_strs()
            },
        decreases len - p,
    {
        let ghost k = strings@.len() as int;
        proof {
            if exp is Some {
                if k == ss.len() {
                    assert(ss.skip(k) =~= Seq::<Seq<char>>::empty());
                    assert(spec_strings_text(ss.skip(k)) =~= Seq::<char>::empty());
                    assert(text@.subrange(p as int, len as int) =~= after);
                    assert(text@.subrange(p as int, p + 6) =~= after.subrange(0, 6));
                }
                let sk = ss[k];
                lemma_strings_skip(ss, k);
                lemma_loadable_no_end(sk);
                let rest = spec_strings_text(ss.skip(k + 1)) + after;
                assert(text@.subrange(p as int, len as int) =~= sk + string_end() + rest);
                let t = text@.subrange(p as int, len as int);
                assert(t.len() == len - p);
                assert(text@[p + sk.len()] == t[sk.len() as int]);
                assert(text@[p + sk.len() + 1] == t[sk.len() as int + 1]);
                assert forall|q: int| p <= q < p + sk.len() implies !(q + 1 < text@.len() && #[trigger] text@[q]
                    == '\u{1E}' && text@[q + 1] == '\n') by {
                    assert(text@[q] == t[q - p]);
                    assert(text@[q + 1] == t[q + 1 - p]);
                    assert(t[q - p] == sk[q - p]);
                    if q + 1 < p + sk.len() {
                        assert(t[q + 1 - p] == sk[q + 1 - p]);
                        if text@[q] == '\u{1E}' && text@[q + 1] == '\n' {
                            assert(holds_string_end(sk));
                        }
                    }
                }
                assert(text@.subrange(p + sk.len() + 2, len as int) =~= t.subrange(sk.len() as int + 2, t.len() as int));
                assert(t.subrange(sk.len() as int + 2, t.len() as int) =~= rest);
            }
        }
        let e = find_string_end(text, p);
        if e == len {
            return None;
        }
        let piece = slice_chars(text, p, e);
        proof {
            let sv = piece@;
            assert forall|i: int| 0 <= i && i + 1 < sv.len() implies !(#[trigger] sv[i] == '\u{1E}' && sv[i + 1] == '\n') by {
                assert(sv[i] == text@[p + i]);
                assert(sv[i + 1] == text@[p + i + 1]);
            }
            if sv.len() >= 6 && sv.subrange(0, 6) == z_strs() {
                assert(text@.subrange(p as int, p + 6) =~= sv.subrange(0, 6));
            }
            assert(string_loadable(sv));
        }
        let ghost old_strings = strings@;
        strings.push(piece);
        proof {
            assert(texts_view(strings@) =~= texts_view(old_strings).push(piece@));
            assert(texts_view(strings@).drop_last() =~= texts_view(old_strings));
            assert(text@.subrange(start as int, e + 2) =~= text@.subrange(start as int, p as int) + piece@ + string_end());
        }
        p = e + 2;
    }
    proof {
        if exp is Some {
            let k = strings@.len() as int;
            if k < ss.len() {
                lemma_strings_skip(ss, k);
                lemma_string_start(ss[k], spec_strings_text(ss.skip(k + 1)) + after);
                assert(text@.subrange(p as int, len as int) =~= ss[k] + string_end() + (spec_strings_text(
                    ss.skip(k + 1),
                ) + after));
                assert(text@.subrange(p as int, p + 6) =~= text@.subrange(p as int, len as int).subrange(0, 6));
            }
            assert(ss.skip(k) =~= Seq::<Seq<char>>::empty());
            assert(spec_strings_text(ss.skip(k)) =~= Seq::<char>::empty());
            assert(text@.subrange(p as int, len as int).len() == len - p);
            assert(text@.subrange(start as int, len as int).len() == len - start);
        }
    }
    Some((strings, p))
}

/// The end of the strings section and the line that opens the main chunk.
pub open spec fn main_head() -> Seq<char> {
    seq!['Z', '_', 'S', 'T', 'R', 'S', '\n', '\n', 'M', 'A', 'I', 'N', '\n']
}

/// What follows the strings section in a compilation's text.
pub open spec fn after_strings(c: Compilation) -> Seq<char> {
    main_head() + (spec_serialize_chunk(c.main) + seq!['\n'] + main_end())
}

/// Where the parts of a compilation's text lie.
proof fn lemma_root_layout(text: Seq<char>, c: Compilation)
    requires
        loadable(c),
        spec_serialize_root(c) == text,
    ensures
        at(text, 0, seq!['S', 'T', 'R', 'S', '\n']),
        text.subrange(5, text.len() as int) == spec_strings_text(texts_view(c.strings@)) + after_strings(c),
        forall|i: int| 0 <= i < texts_view(c.strings@).len() ==> string_loadable(#[trigger] texts_view(c.strings@)[i]),
        after_strings(c).len() >= 6,
        after_strings(c).subrange(0, 6) == z_strs(),
        texts_view(c.strings@).len() == c.strings@.len(),
{
    let ss = texts_view(c.strings@);
    let after = after_strings(c);
    assert(text.subrange(0, text.len() as int) =~= text);
    assert(text =~= seq!['S', 'T', 'R', 'S', '\n'] + (spec_strings_text(ss) + after));
    lemma_rest_at(text, 0, seq!['S', 'T', 'R', 'S', '\n'], spec_strings_text(ss) + after);
    assert forall|i: int| 0 <= i < ss.len() implies string_loadable(#[trigger] ss[i]) by {
        assert(ss[i] == c.strings@[i]@);
    }
    assert(after.subrange(0, 6) =~= z_strs());
}

/// Where the main chunk lies in a compilation's text, once the strings
/// section is known to end at `p`.
proof fn lemma_root_main(text: Seq<char>, c: Compilation, p: int)
    requires
        loadable(c),
        spec_serialize_root(c) == text,
        p == 5 + spec_strings_text(texts_view(c.strings@)).len(),
    ensures
        at(text, p, main_head()),
        at(text, p + 13, spec_serialize_chunk(c.main) + seq!['\n']),
        at_chunk_end(text, p + 13 + spec_serialize_chunk(c.main).len() + 1),
        p + 13 + spec_serialize_chunk(c.main).len() + 1 + 7 == text.len(),
{
    lemma_root_layout(text, c);
    let ss = texts_view(c.strings@);
    let main_text = spec_serialize_chunk(c.main);
    lemma_rest_at(text, 5, spec_strings_text(ss), main_head() + (main_text + seq!['\n'] + main_end()));
    lemma_rest_at(text, p, main_head(), main_text + seq!['\n'] + main_end());
    lemma_rest_at(text, p + 13, main_text + seq!['\n'], main_end());
    lemma_rest_at(text, p + 13 + main_text.len() + 1, main_end(), Seq::empty());
    assert(text.subrange(p + 13 + main_text.len() + 1 + 7, text.len() as int).len() == 0);
}

/// The text made of a strings section and a main chunk is the text of the
/// compilation made of them.
proof fn lemma_root_text(text: Seq<char>, c: Compilation, p: int, e: int)
    requires
        5 <= p && p + 13 <= e && e + 7 == text.len(),
        text.subrange(0, 5) == seq!['S', 'T', 'R', 'S', '\n'],
        text.subrange(5, p) == spec_strings_text(texts_view(c.strings@)),
        text.subrange(p, p + 13) == main_head(),
        text.subrange(p + 13, e) == spec_serialize_chunk(c.main) + seq!['\n'],
        text.subrange(e, text.len() as int) == main_end(),
    ensures
        spec_serialize_root(c) == text,
{
    assert(text =~= text.subrange(0, 5) + text.subrange(5, p) + text.subrange(p, p + 13) + text.subrange(p + 13, e)
        + text.subrange(e, text.len() as int));
    assert(spec_serialize_root(c) =~= seq!['S', 'T', 'R', 'S', '\n'] + spec_strings_text(texts_view(c.strings@))
        + main_head() + (spec_serialize_chunk(c.main) + seq!['\n']) + main_end());
}

/// What reading `text` back gives: a compilation that can be read back and
/// whose text it is, or nothing when no such compilation has this text.
pub open spec fn reads_back(text: Seq<char>, res: Option<Compilation>) -> bool {
    match res {
        Some(c) => loadable(c) && spec_serialize_root(c) == text,
        None => forall|c: Compilation| loadable(c) ==> spec_serialize_root(c) != text,
    }
}

/// Reading back the text of a compilation that can be read back gives that
/// compilation.
pub proof fn lemma_round_trip(c: Compilation, res: Option<Compilation>)
    requires
        loadable(c),
        reads_back(spec_serialize_root(c), res),
    ensures
        res matches Some(d) && compilation_view(d) == compilation_view(c),
{
    if let Some(d) = res {
        lemma_serialize_root_injective(d, c);
    }
}

/// Reads a compilation back from its text, as `serialize` writes it: the
/// strings section, then the main chunk. The result is the compilation
/// whose text this is; there is none when no compilation that can be read
/// back has this text.
#[verifier::spinoff_prover]
#[verifier::rlimit(40)]
pub fn deserialize(text: &str) -> (res: Option<Compilation>)
    ensures
        reads_back(text@, res),
{
    let chars = crate::text::str_to_chars(text);
    let len = chars.len();
    let ghost wit: Option<Compilation> = if exists|c: Compilation| loadable(c) && spec_serialize_root(c) == chars@ {
        Some(choose|c: Compilation| loadable(c) && spec_serialize_root(c) == chars@)
    } else {
        None
    };
    let ghost sexp: Option<(Seq<Seq<char>>, Seq<char>)> = match wit {
        Some(c) => Some((texts_view(c.strings@), after_strings(c))),
        None => None,
    };
    proof {
        if let Some(c) = wit {
            lemma_root_layout(chars@, c);
        }
    }
    if !has_at(&chars, 0, &strs_head_chars()) {
        return None;
    }
    let (strings, p) = match parse_strings(&chars, 5, Ghost(sexp)) {
        Some(r) => r,
        None => {
            return None;
        },
    };
    proof {
        if let Some(c) = wit {
            lemma_root_main(chars@, c, p as int);
        }
    }
    if !has_at(&chars, p, &main_head_chars()) {
        return None;
    }
    let n = strings.len();
    let ghost cexp: Option<CompiledChunk> = match wit {
        Some(c) => Some(c.main),
        None => None,
    };
    let (main, e) = match parse_chunk(&chars, p + 13, n, Ghost(cexp)) {
        Some(r) => r,
        None => {
            return None;
        },
    };
    if !has_at(&chars, e, &main_end_chars()) || e + 7 != len {
        return None;
    }
    let c = Compilation { strings, main };
    proof {
        lemma_root_text(chars@, c, p as int, e as int);
    }
    Some(c)
}

} // verus!
