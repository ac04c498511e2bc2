use vstd::prelude::*;

use crate::compilation::{CompiledChunk, CompiledValue, Compilation, StringRef, groups_view, texts_view};
use crate::opcode::{Byte, OpCode, spec_opcode_name};
use crate::output::{digit_char, spec_decimal};
use crate::serialize::{
    byte_texts, join, line_texts, spec_bytes_text, spec_line_text, spec_serialize_byte, spec_serialize_chunk,
    spec_serialize_root, spec_serialize_string_ref, spec_serialize_value, spec_strings_text, value_texts,
};

verus! {

/// A constant of a compiled chunk, as a mathematical value.
pub enum ConstantView {
    Boolean(bool),
    Number(Seq<char>),
    Nil,
    Function { arity: u32, upvalue_count: u16, name_ref: StringRef, chunk: ChunkView },
    Str(StringRef),
}

/// A compiled chunk as a mathematical value: its line groups and constants.
pub struct ChunkView {
    pub line_data: Seq<(u32, Seq<Byte>)>,
    pub constants: Seq<ConstantView>,
}

/// A compilation as a mathematical value.
pub struct CompilationView {
    pub strings: Seq<Seq<char>>,
    pub main: ChunkView,
}

/// The view of a compiled constant.
pub open spec fn value_view(v: CompiledValue) -> ConstantView
    decreases v,
{
    match v {
        CompiledValue::CompiledBoolean(b) => ConstantView::Boolean(b),
        CompiledValue::CompiledNumber(t) => ConstantView::Number(t@),
        CompiledValue::CompiledNil => ConstantView::Nil,
        CompiledValue::CompiledFunction { arity, upvalue_count, name_ref, chunk } => ConstantView::Function {
            arity,
            upvalue_count,
            name_ref,
            chunk: chunk_view(chunk),
        },
        CompiledValue::CompiledString(r) => ConstantView::Str(r),
    }
}

/// The views of a list of constants, in order.
pub open spec fn values_view(vs: Seq<CompiledValue>) -> Seq<ConstantView>
    decreases vs,
{
    if vs.len() == 0 {
        Seq::empty()
    } else {
        values_view(vs.drop_last()).push(value_view(vs.last()))
    }
}

/// The view of a compiled chunk.
pub open spec fn chunk_view(c: CompiledChunk) -> ChunkView
    decreases c,
{
    ChunkView { line_data: groups_view(c.line_data@), constants: values_view(c.constants@) }
}

/// The view of a compilation.
pub open spec fn compilation_view(c: Compilation) -> CompilationView {
    CompilationView { strings: texts_view(c.strings@), main: chunk_view(c.main) }
}

pub proof fn lemma_values_view_index(vs: Seq<CompiledValue>)
    ensures
        values_view(vs).len() == vs.len(),
        forall|i: int| 0 <= i < vs.len() ==> #[trigger] values_view(vs)[i] == value_view(vs[i]),
    decreases vs.len(),
{
    if vs.len() > 0 {
        lemma_values_view_index(vs.drop_last());
    }
}

/// A decimal digit.
pub open spec fn is_digit(c: char) -> bool {
    '0' <= c && c <= '9'
}

/// Whether no character of `s` is `c`.
pub open spec fn free_of(s: Seq<char>, c: char) -> bool {
    forall|i: int| 0 <= i < s.len() ==> s[i] != c
}

/// A sign in front of a number or an exponent.
pub open spec fn is_sign(c: char) -> bool {
    c == '+' || c == '-'
}

/// Whether every character of `s` is a decimal digit.
pub open spec fn all_digits(s: Seq<char>) -> bool {
    forall|i: int| 0 <= i < s.len() ==> is_digit(#[trigger] s[i])
}

/// `s` spells the word whose lower-case letters are `lo` and upper-case
/// letters are `up`, each letter in either case.
pub open spec fn spells(s: Seq<char>, lo: Seq<char>, up: Seq<char>) -> bool {
    &&& s.len() == lo.len()
    &&& s.len() == up.len()
    &&& forall|i: int| 0 <= i < s.len() ==> #[trigger] s[i] == lo[i] || s[i] == up[i]
}

/// Digits with at most one point among them, and at least one digit:
/// `5`, `5.`, `.5` or `5.25`.
pub open spec fn mantissa_ok(m: Seq<char>) -> bool {
    ||| m.len() > 0 && all_digits(m)
    ||| exists|k: int|
        0 <= k < m.len() && #[trigger] m[k] == '.' && m.len() > 1 && all_digits(m.take(k)) && all_digits(
            m.skip(k + 1),
        )
}

/// What follows the `e` of an exponent: an optional sign, then digits.
pub open spec fn exponent_ok(e: Seq<char>) -> bool {
    let d = if e.len() > 0 && is_sign(e[0]) {
        e.skip(1)
    } else {
        e
    };
    d.len() > 0 && all_digits(d)
}

/// A number without its sign: a mantissa, then an optional exponent
/// introduced by `e` or `E`.
pub open spec fn unsigned_number_ok(n: Seq<char>) -> bool {
    ||| mantissa_ok(n)
    ||| exists|k: int|
        0 <= k < n.len() && (#[trigger] n[k] == 'e' || n[k] == 'E') && mantissa_ok(n.take(k)) && exponent_ok(
            n.skip(k + 1),
        )
}

/// The text of a number constant, as the standard library reads a 64-bit
/// float: an optional sign, then `inf`, `infinity` or `nan` in any case, or
/// a number with an optional exponent; no spaces.
pub open spec fn number_text_ok(t: Seq<char>) -> bool {
    let body = if t.len() > 0 && is_sign(t[0]) {
        t.skip(1)
    } else {
        t
    };
    ||| spells(body, seq!['i', 'n', 'f'], seq!['I', 'N', 'F'])
    ||| spells(
        body,
        seq!['i', 'n', 'f', 'i', 'n', 'i', 't', 'y'],
        seq!['I', 'N', 'F', 'I', 'N', 'I', 'T', 'Y'],
    )
    ||| spells(body, seq!['n', 'a', 'n'], seq!['N', 'A', 'N'])
    ||| unsigned_number_ok(body)
}

/// A string reference that can be read back: its number names one of `n`
/// strings and fits in a byte.
pub open spec fn ref_ok(r: StringRef, n: nat) -> bool {
    r.0 < n && r.0 < 256
}

/// The six characters that close the strings section.
pub open spec fn z_strs() -> Seq<char> {
    seq!['Z', '_', 'S', 'T', 'R', 'S']
}

/// A string that can be read back: it does not begin like the end of the
/// strings section, and holds no record separator followed by a line break.
pub open spec fn string_loadable(s: Seq<char>) -> bool {
    &&& !(s.len() >= 6 && s.subrange(0, 6) == z_strs())
    &&& forall|i: int| 0 <= i && i + 1 < s.len() ==> !(#[trigger] s[i] == '\u{1E}' && s[i + 1] == '\n')
}

/// A constant that can be read back, among `n` strings.
pub open spec fn value_loadable(v: CompiledValue, n: nat) -> bool
    decreases v,
{
    match v {
        CompiledValue::CompiledNumber(t) => number_text_ok(t@),
        CompiledValue::CompiledString(r) => ref_ok(r, n),
        CompiledValue::CompiledFunction { name_ref, chunk, .. } => ref_ok(name_ref, n) && chunk_loadable(
            chunk,
            n,
        ),
        _ => true,
    }
}

/// A chunk that can be read back, among `n` strings: it has at least one
/// line, and each constant can be read back.
pub open spec fn chunk_loadable(c: CompiledChunk, n: nat) -> bool
    decreases c,
{
    &&& c.line_data@.len() > 0
    &&& forall|i: int| 0 <= i < c.constants@.len() ==> value_loadable(#[trigger] c.constants@[i], n)
}

/// A compilation that can be read back from its text.
pub open spec fn loadable(c: Compilation) -> bool {
    &&& forall|i: int| 0 <= i < c.strings@.len() ==> string_loadable(#[trigger] c.strings@[i]@)
    &&& chunk_loadable(c.main, c.strings@.len() as nat)
}

/// Parts each followed by the separator.
pub open spec fn terminated(ps: Seq<Seq<char>>, sep: char) -> Seq<char>
    decreases ps.len(),
{
    if ps.len() == 0 {
        Seq::empty()
    } else {
        ps[0] + seq![sep] + terminated(ps.drop_first(), sep)
    }
}

/// Text cut at a separator that neither piece holds is cut in one place.
pub proof fn lemma_split_char(a: Seq<char>, b: Seq<char>, r1: Seq<char>, r2: Seq<char>, sep: char)
    requires
        free_of(a, sep),
        free_of(b, sep),
        a + seq![sep] + r1 == b + seq![sep] + r2,
    ensures
        a == b,
        r1 == r2,
{
    let l = a + seq![sep] + r1;
    let r = b + seq![sep] + r2;
    if a.len() < b.len() {
        assert(l[a.len() as int] == sep);
        assert(r[a.len() as int] == b[a.len() as int]);
    } else if b.len() < a.len() {
        assert(r[b.len() as int] == sep);
        assert(l[b.len() as int] == a[b.len() as int]);
    }
    assert(a =~= l.subrange(0, a.len() as int));
    assert(b =~= r.subrange(0, b.len() as int));
    assert(r1 =~= l.subrange(a.len() as int + 1, l.len() as int));
    assert(r2 =~= r.subrange(b.len() as int + 1, r.len() as int));
}

pub proof fn lemma_terminated_push(ps: Seq<Seq<char>>, p: Seq<char>, sep: char)
    ensures
        terminated(ps.push(p), sep) == terminated(ps, sep) + p + seq![sep],
    decreases ps.len(),
{
    if ps.len() == 0 {
        assert(ps.push(p).drop_first() =~= Seq::<Seq<char>>::empty());
        assert(terminated(ps.push(p).drop_first(), sep) =~= Seq::<char>::empty());
        assert(terminated(ps.push(p), sep) =~= p + seq![sep]);
    } else {
        assert(ps.push(p).drop_first() =~= ps.drop_first().push(p));
        lemma_terminated_push(ps.drop_first(), p, sep);
        assert(terminated(ps.push(p), sep) =~= terminated(ps, sep) + p + seq![sep]);
    }
}

/// Joined parts with one more separator are the parts each terminated.
pub proof fn lemma_join_terminated(ps: Seq<Seq<char>>, sep: char)
    requires
        ps.len() > 0,
    ensures
        join(ps, seq![sep]) + seq![sep] == terminated(ps, sep),
    decreases ps.len(),
{
    if ps.len() == 1 {
        assert(ps.drop_first() =~= Seq::<Seq<char>>::empty());
        assert(terminated(ps.drop_first(), sep) =~= Seq::<char>::empty());
        assert(terminated(ps, sep) =~= ps[0] + seq![sep]);
    } else {
        lemma_join_terminated(ps.drop_last(), sep);
        lemma_terminated_push(ps.drop_last(), ps.last(), sep);
        assert(ps.drop_last().push(ps.last()) =~= ps);
        assert(join(ps, seq![sep]) + seq![sep] =~= join(ps.drop_last(), seq![sep]) + seq![sep] + ps.last()
            + seq![sep]);
    }
}

/// Terminated parts that hold no separator are recovered from their text.
pub proof fn lemma_terminated_eq(ps: Seq<Seq<char>>, qs: Seq<Seq<char>>, sep: char)
    requires
        forall|i: int| 0 <= i < ps.len() ==> free_of(#[trigger] ps[i], sep),
        forall|i: int| 0 <= i < qs.len() ==> free_of(#[trigger] qs[i], sep),
        terminated(ps, sep) == terminated(qs, sep),
    ensures
        ps == qs,
    decreases ps.len(),
{
    if ps.len() == 0 {
        if qs.len() > 0 {
            assert(terminated(qs, sep).len() > 0);
        }
        assert(ps =~= qs);
    } else {
        if qs.len() == 0 {
            assert(terminated(ps, sep).len() > 0);
        } else {
            assert(free_of(ps[0], sep));
            assert(free_of(qs[0], sep));
            lemma_split_char(ps[0], qs[0], terminated(ps.drop_first(), sep), terminated(qs.drop_first(), sep), sep);
            assert forall|i: int| 0 <= i < ps.drop_first().len() implies free_of(#[trigger] ps.drop_first()[i], sep) by {
                assert(ps.drop_first()[i] == ps[i + 1]);
            }
            assert forall|i: int| 0 <= i < qs.drop_first().len() implies free_of(#[trigger] qs.drop_first()[i], sep) by {
                assert(qs.drop_first()[i] == qs[i + 1]);
            }
            lemma_terminated_eq(ps.drop_first(), qs.drop_first(), sep);
            assert(ps =~= seq![ps[0]] + ps.drop_first());
            assert(qs =~= seq![qs[0]] + qs.drop_first());
        }
    }
}

/// Terminated parts that begin with `k` and hold no separator, followed by
/// text that does not begin with `k`, are recovered with that text.
pub proof fn lemma_terminated_unique(
    ps: Seq<Seq<char>>,
    qs: Seq<Seq<char>>,
    sep: char,
    k: char,
    r1: Seq<char>,
    r2: Seq<char>,
)
    requires
        forall|i: int| 0 <= i < ps.len() ==> free_of(#[trigger] ps[i], sep) && ps[i].len() > 0 && ps[i][0] == k,
        forall|i: int| 0 <= i < qs.len() ==> free_of(#[trigger] qs[i], sep) && qs[i].len() > 0 && qs[i][0] == k,
        r1.len() > 0,
        r1[0] != k,
        r2.len() > 0,
        r2[0] != k,
        terminated(ps, sep) + r1 == terminated(qs, sep) + r2,
    ensures
        ps == qs,
        r1 == r2,
    decreases ps.len(),
{
    if ps.len() == 0 {
        if qs.len() > 0 {
            assert(qs[0].len() > 0 && qs[0][0] == k);
            assert((terminated(qs, sep) + r2)[0] == qs[0][0]);
            assert((terminated(ps, sep) + r1)[0] == r1[0]);
        }
        assert(ps =~= qs);
        assert(r1 =~= terminated(ps, sep) + r1);
        assert(r2 =~= terminated(qs, sep) + r2);
    } else if qs.len() == 0 {
        assert(ps[0].len() > 0 && ps[0][0] == k);
        assert((terminated(ps, sep) + r1)[0] == ps[0][0]);
        assert((terminated(qs, sep) + r2)[0] == r2[0]);
    } else {
        let tp = terminated(ps.drop_first(), sep) + r1;
        let tq = terminated(qs.drop_first(), sep) + r2;
        assert(terminated(ps, sep) + r1 =~= ps[0] + seq![sep] + tp);
        assert(terminated(qs, sep) + r2 =~= qs[0] + seq![sep] + tq);
        assert(free_of(ps[0], sep));
        assert(free_of(qs[0], sep));
        lemma_split_char(ps[0], qs[0], tp, tq, sep);
        assert forall|i: int| 0 <= i < ps.drop_first().len() implies free_of(#[trigger] ps.drop_first()[i], sep)
            && ps.drop_first()[i].len() > 0 && ps.drop_first()[i][0] == k by {
            assert(ps.drop_first()[i] == ps[i + 1]);
        }
        assert forall|i: int| 0 <= i < qs.drop_first().len() implies free_of(#[trigger] qs.drop_first()[i], sep)
            && qs.drop_first()[i].len() > 0 && qs.drop_first()[i][0] == k by {
            assert(qs.drop_first()[i] == qs[i + 1]);
        }
        lemma_terminated_unique(ps.drop_first(), qs.drop_first(), sep, k, r1, r2);
        assert(ps =~= seq![ps[0]] + ps.drop_first());
        assert(qs =~= seq![qs[0]] + qs.drop_first());
    }
}

/// The number written by a string of digits.
pub open spec fn digits_value(s: Seq<char>) -> nat
    decreases s.len(),
{
    if s.len() == 0 {
        0
    } else {
        digits_value(s.drop_last()) * 10 + digit_of(s.last())
    }
}

/// The value of a digit.
pub open spec fn digit_of(c: char) -> nat {
    if is_digit(c) {
        (c as nat - '0' as nat) as nat
    } else {
        0
    }
}

/// A decimal text is made of digits, and means the number it was made from.
pub proof fn lemma_decimal(n: nat)
    ensures
        spec_decimal(n).len() > 0,
        forall|i: int| 0 <= i < spec_decimal(n).len() ==> is_digit(#[trigger] spec_decimal(n)[i]),
        digits_value(spec_decimal(n)) == n,
        spec_decimal(n).len() > 1 ==> spec_decimal(n)[0] != '0',
        n >= 10 <==> spec_decimal(n).len() > 1,
    decreases n,
{
    if n >= 10 {
        lemma_decimal(n / 10);
        let s = spec_decimal(n / 10);
        let d = digit_char(n % 10);
        assert(spec_decimal(n) == s.push(d));
        assert(s.push(d).drop_last() =~= s);
        assert(digit_of(d) == n % 10);
        assert(digits_value(s.push(d)) == digits_value(s) * 10 + digit_of(d));
        assert(n == (n / 10) * 10 + n % 10);
        assert(s.push(d)[0] == s[0]);
        if n / 10 < 10 {
            assert(s[0] == digit_char(n / 10));
        }
    } else {
        let d = digit_char(n);
        assert(digit_of(d) == n);
        assert(seq![d].drop_last() =~= Seq::<char>::empty());
        assert(digits_value(seq![d]) == digits_value(Seq::<char>::empty()) * 10 + digit_of(d));
    }
}

/// Decimal texts of different numbers differ.
pub proof fn lemma_decimal_injective(a: nat, b: nat)
    requires
        spec_decimal(a) == spec_decimal(b),
    ensures
        a == b,
{
    lemma_decimal(a);
    lemma_decimal(b);
}

/// Digits read from the left never mean more than the whole run.
pub proof fn lemma_digits_prefix(s: Seq<char>, i: int)
    requires
        0 <= i <= s.len(),
    ensures
        digits_value(s.subrange(0, i)) <= digits_value(s),
    decreases s.len(),
{
    if i < s.len() {
        lemma_digits_prefix(s.drop_last(), i);
        assert(s.drop_last().subrange(0, i) =~= s.subrange(0, i));
    } else {
        assert(s.subrange(0, i) =~= s);
    }
}

/// A letter of the English alphabet.
pub open spec fn is_letter(c: char) -> bool {
    ('A' <= c && c <= 'Z') || ('a' <= c && c <= 'z')
}

/// An opcode's name is made of letters and begins with a capital.
pub proof fn lemma_opcode_name_shape(op: OpCode)
    ensures
        spec_opcode_name(op).len() > 0,
        'A' <= spec_opcode_name(op)[0] <= 'Z',
        forall|i: int| 0 <= i < spec_opcode_name(op).len() ==> is_letter(#[trigger] spec_opcode_name(op)[i]),
{
}

/// A few characters of a name that tell the opcode names apart.
spec fn name_key(s: Seq<char>) -> (nat, char, char, char) {
    (s.len(), s[0], s[2], if s.len() > 3 {
        s[3]
    } else {
        ' '
    })
}

/// Different opcodes have different names.
#[verifier::rlimit(50)]
pub proof fn lemma_opcode_name_injective(a: OpCode, b: OpCode)
    requires
        spec_opcode_name(a) == spec_opcode_name(b),
    ensures
        a == b,
{
    assert(name_key(spec_opcode_name(a)) == name_key(spec_opcode_name(b)));
}

/// The text of a byte is a name or a decimal: letters and digits only.
pub proof fn lemma_byte_text_shape(b: Byte)
    ensures
        spec_serialize_byte(b).len() > 0,
        forall|i: int| 0 <= i < spec_serialize_byte(b).len() ==> is_letter(#[trigger] spec_serialize_byte(b)[i])
            || is_digit(spec_serialize_byte(b)[i]),
        free_of(spec_serialize_byte(b), ' '),
        free_of(spec_serialize_byte(b), '\n'),
{
    match b {
        Byte::Named(op) => lemma_opcode_name_shape(op),
        Byte::Raw(n) => lemma_decimal(n as nat),
    }
}

/// Different bytes have different texts.
pub proof fn lemma_byte_text_injective(a: Byte, b: Byte)
    requires
        spec_serialize_byte(a) == spec_serialize_byte(b),
    ensures
        a == b,
{
    match (a, b) {
        (Byte::Named(x), Byte::Named(y)) => lemma_opcode_name_injective(x, y),
        (Byte::Raw(x), Byte::Raw(y)) => lemma_decimal_injective(x as nat, y as nat),
        (Byte::Named(x), Byte::Raw(y)) => {
            lemma_opcode_name_shape(x);
            lemma_decimal(y as nat);
            assert(is_digit(spec_decimal(y as nat)[0]));
        },
        (Byte::Raw(x), Byte::Named(y)) => {
            lemma_opcode_name_shape(y);
            lemma_decimal(x as nat);
            assert(is_digit(spec_decimal(x as nat)[0]));
        },
    }
}

/// Terminated parts hold `c` nowhere when neither the parts nor the
/// separator are `c`.
pub proof fn lemma_terminated_free(ps: Seq<Seq<char>>, sep: char, c: char)
    requires
        sep != c,
        forall|i: int| 0 <= i < ps.len() ==> free_of(#[trigger] ps[i], c),
    ensures
        free_of(terminated(ps, sep), c),
    decreases ps.len(),
{
    if ps.len() > 0 {
        assert forall|i: int| 0 <= i < ps.drop_first().len() implies free_of(#[trigger] ps.drop_first()[i], c) by {
            assert(ps.drop_first()[i] == ps[i + 1]);
        }
        lemma_terminated_free(ps.drop_first(), sep, c);
        assert(free_of(ps[0], c));
        let t = terminated(ps, sep);
        assert(t == ps[0] + seq![sep] + terminated(ps.drop_first(), sep));
        assert forall|i: int| 0 <= i < t.len() implies t[i] != c by {
            if i < ps[0].len() {
                assert(t[i] == ps[0][i]);
            } else if i == ps[0].len() {
                assert(t[i] == sep);
            } else {
                assert(t[i] == terminated(ps.drop_first(), sep)[i - ps[0].len() - 1]);
            }
        }
    }
}

/// Joined parts hold `c` nowhere when neither the parts nor the separator
/// are `c`.
pub proof fn lemma_join_free(ps: Seq<Seq<char>>, sep: char, c: char)
    requires
        sep != c,
        forall|i: int| 0 <= i < ps.len() ==> free_of(#[trigger] ps[i], c),
    ensures
        free_of(join(ps, seq![sep]), c),
{
    if ps.len() > 0 {
        lemma_join_terminated(ps, sep);
        lemma_terminated_free(ps, sep, c);
        let j = join(ps, seq![sep]);
        assert forall|i: int| 0 <= i < j.len() implies j[i] != c by {
            assert((j + seq![sep])[i] == j[i]);
        }
    }
}

/// Joining parts that are not empty gives text that is not empty.
pub proof fn lemma_join_nonempty(ps: Seq<Seq<char>>, sep: char)
    requires
        ps.len() > 0,
        ps[0].len() > 0,
    ensures
        join(ps, seq![sep]).len() > 0,
{
    lemma_join_terminated(ps, sep);
    assert(terminated(ps, sep).len() >= ps[0].len() + 1);
}

/// The texts of bytes, one per byte.
pub proof fn lemma_byte_texts(bs: Seq<Byte>)
    ensures
        byte_texts(bs).len() == bs.len(),
        forall|i: int| 0 <= i < bs.len() ==> #[trigger] byte_texts(bs)[i]
            == spec_serialize_byte(bs[i]),
        forall|i: int| 0 <= i < bs.len() ==> free_of(#[trigger] byte_texts(bs)[i], ' '),
        forall|i: int| 0 <= i < bs.len() ==> free_of(#[trigger] byte_texts(bs)[i], '\n'),
{
    assert forall|i: int| 0 <= i < bs.len() implies free_of(#[trigger] byte_texts(bs)[i], ' ')
        && free_of(byte_texts(bs)[i], '\n') by {
        lemma_byte_text_shape(bs[i]);
    }
}

/// The text of a list of bytes determines the list.
pub proof fn lemma_bytes_text_injective(a: Seq<Byte>, b: Seq<Byte>)
    requires
        spec_bytes_text(a) == spec_bytes_text(b),
    ensures
        a == b,
{
    let ta = byte_texts(a);
    let tb = byte_texts(b);
    lemma_byte_texts(a);
    lemma_byte_texts(b);
    if a.len() == 0 && b.len() == 0 {
        assert(a =~= b);
    } else if a.len() == 0 {
        lemma_byte_text_shape(b[0]);
        lemma_join_nonempty(tb, ' ');
    } else if b.len() == 0 {
        lemma_byte_text_shape(a[0]);
        lemma_join_nonempty(ta, ' ');
    } else {
        lemma_join_terminated(ta, ' ');
        lemma_join_terminated(tb, ' ');
        lemma_terminated_eq(ta, tb, ' ');
        assert forall|i: int| 0 <= i < a.len() implies a[i] == b[i] by {
            assert(ta[i] == tb[i]);
            lemma_byte_text_injective(a[i], b[i]);
        }
        assert(a =~= b);
    }
}

/// A line's text begins with `L` and holds no line break.
pub proof fn lemma_line_text_shape(g: (u32, Seq<Byte>))
    ensures
        spec_line_text(g).len() > 0,
        spec_line_text(g)[0] == 'L',
        free_of(spec_line_text(g), '\n'),
{
    lemma_decimal(g.0 as nat);
    lemma_byte_texts(g.1);
    lemma_join_free(byte_texts(g.1), ' ', '\n');
    let t = spec_line_text(g);
    let d = spec_decimal(g.0 as nat);
    let bt = spec_bytes_text(g.1);
    assert(t == seq!['L'] + d + seq![' '] + bt);
    assert forall|i: int| 0 <= i < t.len() implies t[i] != '\n' by {
        if i == 0 {
        } else if i < 1 + d.len() {
            assert(t[i] == d[i - 1]);
        } else if i == 1 + d.len() {
        } else {
            assert(t[i] == bt[i - 2 - d.len()]);
        }
    }
}

/// The text of a line group determines the group.
pub proof fn lemma_line_text_injective(a: (u32, Seq<Byte>), b: (u32, Seq<Byte>))
    requires
        spec_line_text(a) == spec_line_text(b),
    ensures
        a == b,
{
    let da = spec_decimal(a.0 as nat);
    let db = spec_decimal(b.0 as nat);
    lemma_decimal(a.0 as nat);
    lemma_decimal(b.0 as nat);
    assert(spec_line_text(a).drop_first() =~= da + seq![' '] + spec_bytes_text(a.1));
    assert(spec_line_text(b).drop_first() =~= db + seq![' '] + spec_bytes_text(b.1));
    lemma_split_char(da, db, spec_bytes_text(a.1), spec_bytes_text(b.1), ' ');
    lemma_decimal_injective(a.0 as nat, b.0 as nat);
    lemma_bytes_text_injective(a.1, b.1);
}

pub proof fn lemma_line_texts_index(g: Seq<(u32, Seq<Byte>)>)
    ensures
        line_texts(g).len() == g.len(),
        forall|i: int| 0 <= i < g.len() ==> #[trigger] line_texts(g)[i] == spec_line_text(g[i]),
    decreases g.len(),
{
    if g.len() > 0 {
        lemma_line_texts_index(g.drop_last());
    }
}

pub proof fn lemma_value_texts_index(vs: Seq<CompiledValue>)
    ensures
        value_texts(vs).len() == vs.len(),
        forall|i: int| 0 <= i < vs.len() ==> #[trigger] value_texts(vs)[i] == spec_serialize_value(vs[i]),
    decreases vs.len(),
{
    if vs.len() > 0 {
        lemma_value_texts_index(vs.drop_last());
    }
}

/// The character a constant's text begins with.
pub open spec fn kind_char(v: CompiledValue) -> char {
    match v {
        CompiledValue::CompiledBoolean(b) => if b {
            't'
        } else {
            'f'
        },
        CompiledValue::CompiledNil => 'n',
        CompiledValue::CompiledNumber(_) => 'd',
        CompiledValue::CompiledFunction { .. } => 'F',
        CompiledValue::CompiledString(_) => 's',
    }
}

pub proof fn lemma_value_text_start(v: CompiledValue)
    ensures
        spec_serialize_value(v).len() > 0,
        spec_serialize_value(v)[0] == kind_char(v),
        kind_char(v) != 'Z',
{
}

/// A chunk's text and the line break after it: the header, each line
/// ended by a line break, the constants header, each constant ended by a
/// line break.
pub proof fn lemma_chunk_text(c: CompiledChunk)
    requires
        c.line_data@.len() > 0,
    ensures
        spec_serialize_chunk(c) + seq!['\n'] == seq!['C', 'H', 'U', 'N', 'K', '\n'] + terminated(
            line_texts(groups_view(c.line_data@)),
            '\n',
        ) + seq!['C', 'O', 'N', 'S', 'T', 'S', '\n'] + terminated(value_texts(c.constants@), '\n'),
{
    let lt = line_texts(groups_view(c.line_data@));
    let vt = value_texts(c.constants@);
    lemma_line_texts_index(groups_view(c.line_data@));
    lemma_value_texts_index(c.constants@);
    lemma_join_terminated(lt, '\n');
    let lines = join(lt, seq!['\n']);
    let consts = join(vt, seq!['\n']);
    if vt.len() == 0 {
        assert(consts =~= Seq::<char>::empty());
        assert(terminated(vt, '\n') =~= Seq::<char>::empty());
        assert(spec_serialize_chunk(c) + seq!['\n'] =~= seq!['C', 'H', 'U', 'N', 'K', '\n'] + (lines + seq!['\n'])
            + seq!['C', 'O', 'N', 'S', 'T', 'S', '\n']);
    } else {
        lemma_value_text_start(c.constants@[0]);
        lemma_join_nonempty(vt, '\n');
        lemma_join_terminated(vt, '\n');
        assert(spec_serialize_chunk(c) + seq!['\n'] =~= seq!['C', 'H', 'U', 'N', 'K', '\n'] + (lines + seq!['\n'])
            + seq!['C', 'O', 'N', 'S', 'T', 'S', '\n'] + (consts + seq!['\n']));
    }
}

/// A mantissa holds only digits and points.
pub proof fn lemma_mantissa_chars(m: Seq<char>)
    requires
        mantissa_ok(m),
    ensures
        forall|i: int| 0 <= i < m.len() ==> is_digit(#[trigger] m[i]) || m[i] == '.',
{
    if !(m.len() > 0 && all_digits(m)) {
        let k = choose|k: int|
            0 <= k < m.len() && #[trigger] m[k] == '.' && m.len() > 1 && all_digits(m.take(k)) && all_digits(
                m.skip(k + 1),
            );
        assert forall|i: int| 0 <= i < m.len() implies is_digit(#[trigger] m[i]) || m[i] == '.' by {
            if i < k {
                assert(m.take(k)[i] == m[i]);
            } else if i > k {
                assert(m.skip(k + 1)[i - k - 1] == m[i]);
            }
        }
    }
}

/// A number's text holds no line break.
pub proof fn lemma_number_text_free(t: Seq<char>)
    requires
        number_text_ok(t),
    ensures
        free_of(t, '\n'),
{
    let off: int = if t.len() > 0 && is_sign(t[0]) {
        1
    } else {
        0
    };
    let body = t.skip(off);
    assert(body =~= (if t.len() > 0 && is_sign(t[0]) {
        t.skip(1)
    } else {
        t
    }));
    assert forall|i: int| 0 <= i < t.len() implies t[i] != '\n' by {
        if i >= off {
            let j = i - off;
            assert(body[j] == t[i]);
            if unsigned_number_ok(body) {
                if mantissa_ok(body) {
                    lemma_mantissa_chars(body);
                    assert(is_digit(body[j]) || body[j] == '.');
                } else {
                    let k = choose|k: int|
                        0 <= k < body.len() && (#[trigger] body[k] == 'e' || body[k] == 'E') && mantissa_ok(
                            body.take(k),
                        ) && exponent_ok(body.skip(k + 1));
                    if j < k {
                        lemma_mantissa_chars(body.take(k));
                        assert(body.take(k)[j] == body[j]);
                    } else if j > k {
                        let e = body.skip(k + 1);
                        assert(e[j - k - 1] == body[j]);
                        if e.len() > 0 && is_sign(e[0]) {
                            if j - k - 1 > 0 {
                                assert(e.skip(1)[j - k - 2] == e[j - k - 1]);
                            }
                        } else {
                            assert(is_digit(e[j - k - 1]));
                        }
                    }
                }
            }
        }
    }
}

/// The first two lines of a function constant's text: `FN`, then its arity,
/// upvalue count and name.
pub open spec fn function_header(arity: u32, upvalue_count: u16, name_ref: StringRef) -> Seq<char> {
    seq!['F', 'N', '\n'] + spec_decimal(arity as nat) + seq![' '] + spec_decimal(upvalue_count as nat) + seq![' ']
        + spec_serialize_string_ref(name_ref) + seq!['\n']
}

/// A function header is recovered from the text, and so is what follows.
#[verifier::spinoff_prover]
#[verifier::rlimit(40)]
pub proof fn lemma_function_header(
    a: u32,
    u: u16,
    r: StringRef,
    c1: Seq<char>,
    a2: u32,
    u2: u16,
    r2: StringRef,
    c2: Seq<char>,
)
    requires
        function_header(a, u, r) + c1 == function_header(a2, u2, r2) + c2,
    ensures
        a == a2,
        u == u2,
        r == r2,
        c1 == c2,
{
    let da = spec_decimal(a as nat);
    let du = spec_decimal(u as nat);
    let dr = spec_decimal(r.0 as nat);
    let da2 = spec_decimal(a2 as nat);
    let du2 = spec_decimal(u2 as nat);
    let dr2 = spec_decimal(r2.0 as nat);
    lemma_decimal(a as nat);
    lemma_decimal(u as nat);
    lemma_decimal(r.0 as nat);
    lemma_decimal(a2 as nat);
    lemma_decimal(u2 as nat);
    lemma_decimal(r2.0 as nat);
    let l = function_header(a, u, r) + c1;
    let t3 = l.subrange(3, l.len() as int);
    let rest1 = du + seq![' '] + (seq!['s'] + dr + seq!['\n'] + c1);
    let rest2 = du2 + seq![' '] + (seq!['s'] + dr2 + seq!['\n'] + c2);
    assert(t3 =~= da + seq![' '] + rest1);
    assert(t3 =~= da2 + seq![' '] + rest2);
    lemma_split_char(da, da2, rest1, rest2, ' ');
    lemma_split_char(du, du2, seq!['s'] + dr + seq!['\n'] + c1, seq!['s'] + dr2 + seq!['\n'] + c2, ' ');
    assert((seq!['s'] + dr + seq!['\n'] + c1).drop_first() =~= dr + seq!['\n'] + c1);
    assert((seq!['s'] + dr2 + seq!['\n'] + c2).drop_first() =~= dr2 + seq!['\n'] + c2);
    lemma_split_char(dr, dr2, c1, c2, '\n');
    lemma_decimal_injective(a as nat, a2 as nat);
    lemma_decimal_injective(u as nat, u2 as nat);
    lemma_decimal_injective(r.0 as nat, r2.0 as nat);
}

/// A constant that can be read back, followed by a line break, is
/// recovered from the text, and so is what follows.
#[verifier::spinoff_prover]
#[verifier::rlimit(40)]
pub proof fn lemma_value_unique(
    x: CompiledValue,
    y: CompiledValue,
    n1: nat,
    n2: nat,
    r1: Seq<char>,
    r2: Seq<char>,
)
    requires
        value_loadable(x, n1),
        value_loadable(y, n2),
        spec_serialize_value(x) + seq!['\n'] + r1 == spec_serialize_value(y) + seq!['\n'] + r2,
    ensures
        value_view(x) == value_view(y),
        r1 == r2,
    decreases x,
{
    let lx = spec_serialize_value(x);
    let ly = spec_serialize_value(y);
    let l = lx + seq!['\n'] + r1;
    lemma_value_text_start(x);
    lemma_value_text_start(y);
    assert(l[0] == lx[0]);
    assert((ly + seq!['\n'] + r2)[0] == ly[0]);
    match x {
        CompiledValue::CompiledBoolean(b) => {
            assert(y matches CompiledValue::CompiledBoolean(_));
            assert(r1 =~= l.subrange(2, l.len() as int));
            assert(r2 =~= l.subrange(2, l.len() as int));
        },
        CompiledValue::CompiledNil => {
            assert(y matches CompiledValue::CompiledNil);
            assert(r1 =~= l.subrange(2, l.len() as int));
            assert(r2 =~= l.subrange(2, l.len() as int));
        },
        CompiledValue::CompiledNumber(t) => {
            let t2 = y->CompiledNumber_0;
            lemma_number_text_free(t@);
            lemma_number_text_free(t2@);
            assert(l.drop_first() =~= t@ + seq!['\n'] + r1);
            assert(l.drop_first() =~= t2@ + seq!['\n'] + r2);
            lemma_split_char(t@, t2@, r1, r2, '\n');
        },
        CompiledValue::CompiledString(r) => {
            let q = y->CompiledString_0;
            lemma_decimal(r.0 as nat);
            lemma_decimal(q.0 as nat);
            assert(l.drop_first() =~= spec_decimal(r.0 as nat) + seq!['\n'] + r1);
            assert(l.drop_first() =~= spec_decimal(q.0 as nat) + seq!['\n'] + r2);
            lemma_split_char(spec_decimal(r.0 as nat), spec_decimal(q.0 as nat), r1, r2, '\n');
            lemma_decimal_injective(r.0 as nat, q.0 as nat);
        },
        CompiledValue::CompiledFunction { arity, upvalue_count, name_ref, chunk } => {
            assert(y is CompiledFunction);
            let z = seq!['Z', '_', 'F', 'N', '\n'];
            let c1 = spec_serialize_chunk(chunk) + seq!['\n'] + (z + r1);
            let c2 = spec_serialize_chunk(y->chunk) + seq!['\n'] + (z + r2);
            assert(l =~= function_header(arity, upvalue_count, name_ref) + c1);
            assert(ly + seq!['\n'] + r2 =~= function_header(y->arity, y->upvalue_count, y->name_ref) + c2);
            lemma_function_header(arity, upvalue_count, name_ref, c1, y->arity, y->upvalue_count, y->name_ref, c2);
            lemma_chunk_unique(chunk, y->chunk, n1, n2, z + r1, z + r2);
            assert(r1 =~= (z + r1).subrange(5, (z + r1).len() as int));
            assert(r2 =~= (z + r2).subrange(5, (z + r2).len() as int));
        },
    }
}

/// A chunk that can be read back, followed by a line break and text that
/// begins with `Z`, is recovered from the text, and so is what follows.
pub proof fn lemma_chunk_unique(
    x: CompiledChunk,
    y: CompiledChunk,
    n1: nat,
    n2: nat,
    r1: Seq<char>,
    r2: Seq<char>,
)
    requires
        chunk_loadable(x, n1),
        chunk_loadable(y, n2),
        r1.len() > 0,
        r1[0] == 'Z',
        r2.len() > 0,
        r2[0] == 'Z',
        spec_serialize_chunk(x) + seq!['\n'] + r1 == spec_serialize_chunk(y) + seq!['\n'] + r2,
    ensures
        chunk_view(x) == chunk_view(y),
        r1 == r2,
    decreases x,
{
    lemma_chunk_text(x);
    lemma_chunk_text(y);
    let gx = groups_view(x.line_data@);
    let gy = groups_view(y.line_data@);
    let ltx = line_texts(gx);
    let lty = line_texts(gy);
    let vtx = value_texts(x.constants@);
    let vty = value_texts(y.constants@);
    let k = seq!['C', 'O', 'N', 'S', 'T', 'S', '\n'];
    let l = spec_serialize_chunk(x) + seq!['\n'] + r1;
    assert(l.subrange(6, l.len() as int) =~= terminated(ltx, '\n') + (k + terminated(vtx, '\n') + r1));
    assert(l.subrange(6, l.len() as int) =~= terminated(lty, '\n') + (k + terminated(vty, '\n') + r2));
    lemma_line_texts_index(gx);
    lemma_line_texts_index(gy);
    assert forall|i: int| 0 <= i < ltx.len() implies free_of(#[trigger] ltx[i], '\n') && ltx[i].len() > 0
        && ltx[i][0] == 'L' by {
        lemma_line_text_shape(gx[i]);
    }
    assert forall|i: int| 0 <= i < lty.len() implies free_of(#[trigger] lty[i], '\n') && lty[i].len() > 0
        && lty[i][0] == 'L' by {
        lemma_line_text_shape(gy[i]);
    }
    lemma_terminated_unique(ltx, lty, '\n', 'L', k + terminated(vtx, '\n') + r1, k + terminated(vty, '\n') + r2);
    assert forall|i: int| 0 <= i < gx.len() implies gx[i] == gy[i] by {
        assert(ltx[i] == lty[i]);
        lemma_line_text_injective(gx[i], gy[i]);
    }
    assert(gx =~= gy);
    assert((k + terminated(vtx, '\n') + r1).subrange(7, (k + terminated(vtx, '\n') + r1).len() as int)
        =~= terminated(vtx, '\n') + r1);
    assert((k + terminated(vty, '\n') + r2).subrange(7, (k + terminated(vty, '\n') + r2).len() as int)
        =~= terminated(vty, '\n') + r2);
    lemma_values_unique(x.constants@, y.constants@, n1, n2, r1, r2);
}

/// Constants that can be read back, each followed by a line break, then
/// text that begins with `Z`, are recovered from the text, and so is what
/// follows.
pub proof fn lemma_values_unique(
    xs: Seq<CompiledValue>,
    ys: Seq<CompiledValue>,
    n1: nat,
    n2: nat,
    r1: Seq<char>,
    r2: Seq<char>,
)
    requires
        forall|i: int| 0 <= i < xs.len() ==> value_loadable(#[trigger] xs[i], n1),
        forall|i: int| 0 <= i < ys.len() ==> value_loadable(#[trigger] ys[i], n2),
        r1.len() > 0,
        r1[0] == 'Z',
        r2.len() > 0,
        r2[0] == 'Z',
        terminated(value_texts(xs), '\n') + r1 == terminated(value_texts(ys), '\n') + r2,
    ensures
        values_view(xs) == values_view(ys),
        r1 == r2,
    decreases xs,
{
    lemma_value_texts_index(xs);
    lemma_value_texts_index(ys);
    lemma_values_view_index(xs);
    lemma_values_view_index(ys);
    let vx = value_texts(xs);
    let vy = value_texts(ys);
    if xs.len() == 0 {
        assert(terminated(vx, '\n') =~= Seq::<char>::empty());
        assert(terminated(vx, '\n') + r1 =~= r1);
        if ys.len() > 0 {
            lemma_value_text_start(ys[0]);
            assert((terminated(vy, '\n') + r2)[0] == vy[0][0]);
        }
        assert(terminated(vy, '\n') =~= Seq::<char>::empty());
        assert(terminated(vy, '\n') + r2 =~= r2);
        assert(values_view(xs) =~= values_view(ys));
    } else if ys.len() == 0 {
        lemma_value_text_start(xs[0]);
        assert((terminated(vx, '\n') + r1)[0] == vx[0][0]);
        assert(terminated(vy, '\n') + r2 =~= r2);
    } else {
        let tx = xs.drop_first();
        let ty = ys.drop_first();
        lemma_value_texts_index(tx);
        lemma_value_texts_index(ty);
        assert(vx.drop_first() =~= value_texts(tx));
        assert(vy.drop_first() =~= value_texts(ty));
        let ax = terminated(value_texts(tx), '\n') + r1;
        let ay = terminated(value_texts(ty), '\n') + r2;
        assert(terminated(vx, '\n') + r1 =~= spec_serialize_value(xs[0]) + seq!['\n'] + ax);
        assert(terminated(vy, '\n') + r2 =~= spec_serialize_value(ys[0]) + seq!['\n'] + ay);
        lemma_value_unique(xs[0], ys[0], n1, n2, ax, ay);
        assert forall|i: int| 0 <= i < tx.len() implies value_loadable(#[trigger] tx[i], n1) by {
            assert(tx[i] == xs[i + 1]);
        }
        assert forall|i: int| 0 <= i < ty.len() implies value_loadable(#[trigger] ty[i], n2) by {
            assert(ty[i] == ys[i + 1]);
        }
        lemma_values_unique(tx, ty, n1, n2, r1, r2);
        lemma_values_view_index(tx);
        lemma_values_view_index(ty);
        assert forall|i: int| 0 <= i < xs.len() implies values_view(xs)[i] == values_view(ys)[i] by {
            if i > 0 {
                assert(values_view(tx)[i - 1] == value_view(xs[i]));
                assert(values_view(ty)[i - 1] == value_view(ys[i]));
            }
        }
        assert(values_view(xs) =~= values_view(ys));
    }
}

/// The record separator and line break that end each string.
pub open spec fn string_end() -> Seq<char> {
    seq!['\u{1E}', '\n']
}

/// Whether `s` holds the string end somewhere.
pub open spec fn holds_string_end(s: Seq<char>) -> bool {
    exists|i: int| 0 <= i && i + 1 < s.len() && #[trigger] s[i] == '\u{1E}' && s[i + 1] == '\n'
}

/// The strings section read from the front: the first string and its end,
/// then the others.
pub proof fn lemma_strings_front(ss: Seq<Seq<char>>)
    requires
        ss.len() > 0,
    ensures
        spec_strings_text(ss) == ss[0] + string_end() + spec_strings_text(ss.drop_first()),
    decreases ss.len(),
{
    if ss.len() == 1 {
        assert(ss.drop_last() =~= Seq::<Seq<char>>::empty());
        assert(ss.drop_first() =~= Seq::<Seq<char>>::empty());
        assert(spec_strings_text(ss) =~= ss[0] + string_end());
        assert(spec_strings_text(ss.drop_first()) =~= Seq::<char>::empty());
    } else {
        lemma_strings_front(ss.drop_last());
        assert(ss.drop_last().drop_first() =~= ss.drop_first().drop_last());
        assert(ss.drop_first().last() == ss.last());
        assert(ss.drop_last()[0] == ss[0]);
        assert(spec_strings_text(ss) =~= ss[0] + string_end() + spec_strings_text(ss.drop_first()));
    }
}

/// Text cut at a string end that neither piece holds is cut in one place.
pub proof fn lemma_split_string_end(a: Seq<char>, b: Seq<char>, r1: Seq<char>, r2: Seq<char>)
    requires
        !holds_string_end(a),
        !holds_string_end(b),
        a + string_end() + r1 == b + string_end() + r2,
    ensures
        a == b,
        r1 == r2,
{
    let l = a + string_end() + r1;
    let r = b + string_end() + r2;
    if a.len() < b.len() {
        let k = a.len() as int;
        assert(l[k] == '\u{1E}' && l[k + 1] == '\n');
        assert(b[k] == '\u{1E}');
        if k + 1 < b.len() {
            assert(b[k + 1] == '\n');
            assert(holds_string_end(b));
        } else {
            assert(r[k + 1] == '\u{1E}');
        }
    } else if b.len() < a.len() {
        let k = b.len() as int;
        assert(r[k] == '\u{1E}' && r[k + 1] == '\n');
        assert(a[k] == '\u{1E}');
        if k + 1 < a.len() {
            assert(a[k + 1] == '\n');
            assert(holds_string_end(a));
        } else {
            assert(l[k + 1] == '\u{1E}');
        }
    }
    assert(a =~= l.subrange(0, a.len() as int));
    assert(b =~= r.subrange(0, b.len() as int));
    assert(r1 =~= l.subrange(a.len() as int + 2, l.len() as int));
    assert(r2 =~= r.subrange(b.len() as int + 2, r.len() as int));
}

/// Strings that can be read back, each followed by its end, then text that
/// begins with the strings section's end, are recovered from the text, and
/// so is what follows.
pub proof fn lemma_strings_unique(xs: Seq<Seq<char>>, ys: Seq<Seq<char>>, r1: Seq<char>, r2: Seq<char>)
    requires
        forall|i: int| 0 <= i < xs.len() ==> string_loadable(#[trigger] xs[i]),
        forall|i: int| 0 <= i < ys.len() ==> string_loadable(#[trigger] ys[i]),
        r1.len() >= 6 && r1.subrange(0, 6) == z_strs(),
        r2.len() >= 6 && r2.subrange(0, 6) == z_strs(),
        spec_strings_text(xs) + r1 == spec_strings_text(ys) + r2,
    ensures
        xs == ys,
        r1 == r2,
    decreases xs.len(),
{
    if xs.len() == 0 && ys.len() == 0 {
        assert(xs =~= ys);
        assert(spec_strings_text(xs) + r1 =~= r1);
        assert(spec_strings_text(ys) + r2 =~= r2);
    } else if xs.len() == 0 {
        lemma_strings_front(ys);
        lemma_string_not_end(ys[0], spec_strings_text(ys.drop_first()) + r2, r1);
        assert(spec_strings_text(xs) + r1 =~= r1);
        assert(spec_strings_text(ys) + r2 =~= ys[0] + string_end() + (spec_strings_text(ys.drop_first()) + r2));
    } else if ys.len() == 0 {
        lemma_strings_front(xs);
        lemma_string_not_end(xs[0], spec_strings_text(xs.drop_first()) + r1, r2);
        assert(spec_strings_text(ys) + r2 =~= r2);
        assert(spec_strings_text(xs) + r1 =~= xs[0] + string_end() + (spec_strings_text(xs.drop_first()) + r1));
    } else {
        lemma_strings_front(xs);
        lemma_strings_front(ys);
        let tx = spec_strings_text(xs.drop_first()) + r1;
        let ty = spec_strings_text(ys.drop_first()) + r2;
        assert(spec_strings_text(xs) + r1 =~= xs[0] + string_end() + tx);
        assert(spec_strings_text(ys) + r2 =~= ys[0] + string_end() + ty);
        lemma_loadable_no_end(xs[0]);
        lemma_loadable_no_end(ys[0]);
        lemma_split_string_end(xs[0], ys[0], tx, ty);
        assert forall|i: int| 0 <= i < xs.drop_first().len() implies string_loadable(#[trigger] xs.drop_first()[i]) by {
            assert(xs.drop_first()[i] == xs[i + 1]);
        }
        assert forall|i: int| 0 <= i < ys.drop_first().len() implies string_loadable(#[trigger] ys.drop_first()[i]) by {
            assert(ys.drop_first()[i] == ys[i + 1]);
        }
        lemma_strings_unique(xs.drop_first(), ys.drop_first(), r1, r2);
        assert(xs =~= seq![xs[0]] + xs.drop_first());
        assert(ys =~= seq![ys[0]] + ys.drop_first());
    }
}

/// A string that can be read back holds no string end.
pub proof fn lemma_loadable_no_end(s: Seq<char>)
    requires
        string_loadable(s),
    ensures
        !holds_string_end(s),
{
    if holds_string_end(s) {
        let i = choose|i: int| 0 <= i && i + 1 < s.len() && #[trigger] s[i] == '\u{1E}' && s[i + 1] == '\n';
        assert(!(s[i] == '\u{1E}' && s[i + 1] == '\n'));
    }
}

/// A string that can be read back, with its end, never reads as the end of
/// the strings section.
pub proof fn lemma_string_not_end(s: Seq<char>, rest: Seq<char>, r: Seq<char>)
    requires
        string_loadable(s),
        r.len() >= 6 && r.subrange(0, 6) == z_strs(),
    ensures
        s + string_end() + rest != r,
{
    let l = s + string_end() + rest;
    if l == r {
        if s.len() >= 6 {
            assert(s.subrange(0, 6) =~= r.subrange(0, 6));
        } else {
            let k = s.len() as int;
            assert(l[k] == '\u{1E}');
            assert(r[k] == r.subrange(0, 6)[k]);
        }
    }
}

/// The text of a compilation that can be read back determines the
/// compilation: two such compilations with the same text are the same.
/// Reading a compilation's text back therefore gives that compilation.
pub proof fn lemma_serialize_root_injective(a: Compilation, b: Compilation)
    requires
        loadable(a),
        loadable(b),
        spec_serialize_root(a) == spec_serialize_root(b),
    ensures
        compilation_view(a) == compilation_view(b),
{
    let sa = texts_view(a.strings@);
    let sb = texts_view(b.strings@);
    assert forall|i: int| 0 <= i < sa.len() implies string_loadable(#[trigger] sa[i]) by {
        assert(sa[i] == a.strings@[i]@);
    }
    assert forall|i: int| 0 <= i < sb.len() implies string_loadable(#[trigger] sb[i]) by {
        assert(sb[i] == b.strings@[i]@);
    }
    let mid = seq!['Z', '_', 'S', 'T', 'R', 'S', '\n', '\n', 'M', 'A', 'I', 'N', '\n'];
    let end = seq!['Z', '_', 'M', 'A', 'I', 'N', '\n'];
    let ra = mid + (spec_serialize_chunk(a.main) + seq!['\n'] + end);
    let rb = mid + (spec_serialize_chunk(b.main) + seq!['\n'] + end);
    let l = spec_serialize_root(a);
    assert(l.subrange(5, l.len() as int) =~= spec_strings_text(sa) + ra);
    assert(spec_serialize_root(b).subrange(5, l.len() as int) =~= spec_strings_text(sb) + rb);
    assert(ra.subrange(0, 6) =~= z_strs());
    assert(rb.subrange(0, 6) =~= z_strs());
    lemma_strings_unique(sa, sb, ra, rb);
    assert(ra.subrange(13, ra.len() as int) =~= spec_serialize_chunk(a.main) + seq!['\n'] + end);
    assert(rb.subrange(13, rb.len() as int) =~= spec_serialize_chunk(b.main) + seq!['\n'] + end);
    lemma_chunk_unique(a.main, b.main, a.strings@.len() as nat, b.strings@.len() as nat, end, end);
}

} // verus!
