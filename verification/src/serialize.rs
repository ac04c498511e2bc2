use vstd::prelude::*;

use crate::compilation::{CompiledChunk, CompiledValue, Compilation, StringRef, groups_view, texts_view};
use crate::opcode::{spec_opcode_name, Byte};
use crate::output::{decimal_chars, spec_decimal};
use crate::text::{append_chars, copy_chars};

verus! {

/// The text of one byte: an opcode by its name, a raw byte in decimal.
pub open spec fn spec_serialize_byte(b: Byte) -> Seq<char> {
    match b {
        Byte::Named(op) => spec_opcode_name(op),
        Byte::Raw(n) => spec_decimal(n as nat),
    }
}

/// A reference to a string: `s` and its number.
pub open spec fn spec_serialize_string_ref(r: StringRef) -> Seq<char> {
    seq!['s'] + spec_decimal(r.0 as nat)
}

/// Pieces of text joined with `sep` between them.
pub open spec fn join(parts: Seq<Seq<char>>, sep: Seq<char>) -> Seq<char>
    decreases parts.len(),
{
    if parts.len() == 0 {
        Seq::empty()
    } else if parts.len() == 1 {
        parts[0]
    } else {
        join(parts.drop_last(), sep) + sep + parts.last()
    }
}

/// The texts of bytes, one for one.
pub open spec fn byte_texts(bytes: Seq<Byte>) -> Seq<Seq<char>> {
    bytes.map_values(|b: Byte| spec_serialize_byte(b))
}

/// The bytes of one line group, separated by spaces.
pub open spec fn spec_bytes_text(bytes: Seq<Byte>) -> Seq<char> {
    join(byte_texts(bytes), seq![' '])
}

/// One line group: `L`, the line number, a space, the bytes.
pub open spec fn spec_line_text(g: (u32, Seq<Byte>)) -> Seq<char> {
    seq!['L'] + spec_decimal(g.0 as nat) + seq![' '] + spec_bytes_text(g.1)
}

/// The texts of line groups, in order.
pub open spec fn line_texts(groups: Seq<(u32, Seq<Byte>)>) -> Seq<Seq<char>>
    decreases groups.len(),
{
    if groups.len() == 0 {
        Seq::empty()
    } else {
        line_texts(groups.drop_last()).push(spec_line_text(groups.last()))
    }
}

/// The texts of constants, in order.
pub open spec fn value_texts(vs: Seq<CompiledValue>) -> Seq<Seq<char>>
    decreases vs,
{
    if vs.len() == 0 {
        Seq::empty()
    } else {
        value_texts(vs.drop_last()).push(spec_serialize_value(vs.last()))
    }
}

/// The text of a chunk: `CHUNK`, its lines, `CONSTS`, its constants.
pub open spec fn spec_serialize_chunk(c: CompiledChunk) -> Seq<char>
    decreases c,
{
    let lines = join(line_texts(groups_view(c.line_data@)), seq!['\n']);
    let consts = join(value_texts(c.constants@), seq!['\n']);
    seq!['C', 'H', 'U', 'N', 'K', '\n'] + lines + seq!['\n', 'C', 'O', 'N', 'S', 'T', 'S'] + (if consts.len()
        == 0 {
        Seq::empty()
    } else {
        seq!['\n']
    }) + consts
}

/// The text of a constant: `t`, `f`, `n`, `d` and a number's text, a
/// string reference, or a function between `FN` and `Z_FN`.
pub open spec fn spec_serialize_value(v: CompiledValue) -> Seq<char>
    decreases v,
{
    match v {
        CompiledValue::CompiledBoolean(b) => if b {
            seq!['t']
        } else {
            seq!['f']
        },
        CompiledValue::CompiledNil => seq!['n'],
        CompiledValue::CompiledNumber(t) => seq!['d'] + t@,
        CompiledValue::CompiledFunction { arity, upvalue_count, name_ref, chunk } => seq![
            'F',
            'N',
            '\n',
        ] + spec_decimal(arity as nat) + seq![' '] + spec_decimal(upvalue_count as nat) + seq![' ']
            + spec_serialize_string_ref(name_ref) + seq!['\n'] + spec_serialize_chunk(chunk) + seq![
            '\n',
            'Z',
            '_',
            'F',
            'N',
        ],
        CompiledValue::CompiledString(r) => spec_serialize_string_ref(r),
    }
}

/// The strings section: each string followed by a record separator and a
/// line break.
pub open spec fn spec_strings_text(strings: Seq<Seq<char>>) -> Seq<char>
    decreases strings.len(),
{
    if strings.len() == 0 {
        Seq::empty()
    } else {
        spec_strings_text(strings.drop_last()) + strings.last() + seq!['\u{1E}', '\n']
    }
}

/// The text of a whole compilation.
pub open spec fn spec_serialize_root(c: Compilation) -> Seq<char> {
    seq!['S', 'T', 'R', 'S', '\n'] + spec_strings_text(texts_view(c.strings@)) + seq![
        'Z',
        '_',
        'S',
        'T',
        'R',
        'S',
        '\n',
        '\n',
        'M',
        'A',
        'I',
        'N',
        '\n',
    ] + spec_serialize_chunk(c.main) + seq!['\n', 'Z', '_', 'M', 'A', 'I', 'N', '\n']
}

pub proof fn lemma_line_texts_len(g: Seq<(u32, Seq<Byte>)>)
    ensures
        line_texts(g).len() == g.len(),
    decreases g.len(),
{
    if g.len() > 0 {
        lemma_line_texts_len(g.drop_last());
    }
}

pub proof fn lemma_value_texts_len(vs: Seq<CompiledValue>)
    ensures
        value_texts(vs).len() == vs.len(),
    decreases vs.len(),
{
    if vs.len() > 0 {
        lemma_value_texts_len(vs.drop_last());
    }
}

/// The text of one byte.
pub fn serialize_byte(byte: &Byte) -> (res: Vec<char>)
    ensures
        res@ == spec_serialize_byte(*byte),
{
    match byte {
        Byte::Named(opcode) => opcode.name(),
        Byte::Raw(n) => decimal_chars(*n as u64),
    }
}

/// The text of a string reference.
pub fn serialize_string_ref(str_ref: &StringRef) -> (res: Vec<char>)
    ensures
        res@ == spec_serialize_string_ref(*str_ref),
{
    let mut out = vec!['s'];
    let digits = decimal_chars(str_ref.0 as u64);
    append_chars(&mut out, &digits);
    out
}

/// Appends `sep` then `part`, or just `part` when nothing came before.
fn push_joined(out: &mut Vec<char>, first: bool, sep: char, part: &Vec<char>)
    ensures
        final(out)@ == if first {
            old(out)@ + part@
        } else {
            old(out)@ + seq![sep] + part@
        },
{
    if !first {
        out.push(sep);
    }
    append_chars(out, part);
}

/// The text of a chunk.
pub fn serialize_chunk(chunk: &CompiledChunk) -> (res: Vec<char>)
    ensures
        res@ == spec_serialize_chunk(*chunk),
    decreases *chunk,
{
    let mut lines: Vec<char> = Vec::new();
    let ghost parts = line_texts(groups_view(chunk.line_data@));
    let mut i: usize = 0;
    while i < chunk.line_data.len()
        invariant
            i <= chunk.line_data@.len(),
            parts == line_texts(groups_view(chunk.line_data@)),
            lines@ == join(line_texts(groups_view(chunk.line_data@).subrange(0, i as int)), seq!['\n']),
        decreases chunk.line_data@.len() - i,
    {
        let (line_num, bytes) = (&chunk.line_data[i].0, &chunk.line_data[i].1);
        let mut text = vec!['L'];
        append_chars(&mut text, &decimal_chars(*line_num as u64));
        text.push(' ');
        let mut j: usize = 0;
        let ghost bparts = byte_texts(bytes@);
        let mut btext: Vec<char> = Vec::new();
        while j < bytes.len()
            invariant
                j <= bytes@.len(),
                bparts == byte_texts(bytes@),
                btext@ == join(bparts.subrange(0, j as int), seq![' ']),
            decreases bytes@.len() - j,
        {
            let piece = serialize_byte(&bytes[j]);
            proof {
                assert(bparts.subrange(0, j + 1).drop_last() =~= bparts.subrange(0, j as int));
            }
            push_joined(&mut btext, j == 0, ' ', &piece);
            j = j + 1;
        }
        proof {
            assert(bparts.subrange(0, bytes@.len() as int) =~= bparts);
        }
        append_chars(&mut text, &btext);
        proof {
            let g = groups_view(chunk.line_data@);
            assert(g.subrange(0, i + 1).drop_last() =~= g.subrange(0, i as int));
            assert(g.subrange(0, i + 1).last() == (*line_num, bytes@));
            assert(text@ =~= spec_line_text((*line_num, bytes@)));
            assert(line_texts(g.subrange(0, i + 1)) == line_texts(g.subrange(0, i as int)).push(text@));
            assert(line_texts(g.subrange(0, i + 1)).drop_last() =~= line_texts(g.subrange(0, i as int)));
            lemma_line_texts_len(g.subrange(0, i as int));
        }
        push_joined(&mut lines, i == 0, '\n', &text);
        i = i + 1;
    }
    proof {
        assert(groups_view(chunk.line_data@).subrange(0, chunk.line_data@.len() as int) =~= groups_view(chunk.line_data@));
    }
    let mut consts: Vec<char> = Vec::new();
    let mut k: usize = 0;
    while k < chunk.constants.len()
        invariant
            k <= chunk.constants@.len(),
            consts@ == join(value_texts(chunk.constants@.subrange(0, k as int)), seq!['\n']),
        decreases chunk.constants@.len() - k,
    {
        let piece = serialize_value(&chunk.constants[k]);
        proof {
            let cs = chunk.constants@;
            assert(cs.subrange(0, k + 1).drop_last() =~= cs.subrange(0, k as int));
            assert(cs.subrange(0, k + 1).last() == cs[k as int]);
            assert(value_texts(cs.subrange(0, k + 1)).drop_last() =~= value_texts(cs.subrange(0, k as int)));
            lemma_value_texts_len(cs.subrange(0, k as int));
        }
        push_joined(&mut consts, k == 0, '\n', &piece);
        k = k + 1;
    }
    proof {
        assert(chunk.constants@.subrange(0, chunk.constants@.len() as int) =~= chunk.constants@);
    }
    let mut out = vec!['C', 'H', 'U', 'N', 'K', '\n'];
    proof {
        assert(out@ =~= seq!['C', 'H', 'U', 'N', 'K', '\n']);
    }
    append_chars(&mut out, &lines);
    let mid = vec!['\n', 'C', 'O', 'N', 'S', 'T', 'S'];
    proof {
        assert(mid@ =~= seq!['\n', 'C', 'O', 'N', 'S', 'T', 'S']);
    }
    append_chars(&mut out, &mid);
    let ghost before_nl = out@;
    if consts.len() > 0 {
        out.push('\n');
    }
    proof {
        assert(out@ =~= before_nl + (if consts@.len() == 0 {
            Seq::<char>::empty()
        } else {
            seq!['\n']
        }));
    }
    append_chars(&mut out, &consts);
    proof {
        assert(out@ =~= spec_serialize_chunk(*chunk));
    }
    out
}

/// The text of a constant.
pub fn serialize_value(value: &CompiledValue) -> (res: Vec<char>)
    ensures
        res@ == spec_serialize_value(*value),
    decreases *value,
{
    match value {
        CompiledValue::CompiledBoolean(b) => if *b {
            vec!['t']
        } else {
            vec!['f']
        },
        CompiledValue::CompiledNil => vec!['n'],
        CompiledValue::CompiledNumber(t) => {
            let mut out = vec!['d'];
            append_chars(&mut out, t);
            out
        },
        CompiledValue::CompiledFunction { arity, upvalue_count, name_ref, chunk } => {
            let mut out = vec!['F', 'N', '\n'];
            append_chars(&mut out, &decimal_chars(*arity as u64));
            out.push(' ');
            append_chars(&mut out, &decimal_chars(*upvalue_count as u64));
            out.push(' ');
            append_chars(&mut out, &serialize_string_ref(name_ref));
            out.push('\n');
            append_chars(&mut out, &serialize_chunk(chunk));
            append_chars(&mut out, &vec!['\n', 'Z', '_', 'F', 'N']);
            proof {
                assert(out@ =~= spec_serialize_value(*value));
            }
            out
        },
        CompiledValue::CompiledString(r) => serialize_string_ref(r),
    }
}

/// The text of a whole compilation: its strings, then its top-level code.
pub fn serialize_root(compilation: &Compilation) -> (res: Vec<char>)
    ensures
        res@ == spec_serialize_root(*compilation),
{
    let mut strs: Vec<char> = Vec::new();
    let mut i: usize = 0;
    while i < compilation.strings.len()
        invariant
            i <= compilation.strings@.len(),
            strs@ == spec_strings_text(texts_view(compilation.strings@).subrange(0, i as int)),
        decreases compilation.strings@.len() - i,
    {
        append_chars(&mut strs, &compilation.strings[i]);
        strs.push('\u{1E}');
        strs.push('\n');
        proof {
            let t1 = texts_view(compilation.strings@).subrange(0, i + 1);
            assert(t1.drop_last() =~= texts_view(compilation.strings@).subrange(0, i as int));
            assert(strs@ =~= spec_strings_text(t1));
        }
        i = i + 1;
    }
    proof {
        assert(texts_view(compilation.strings@).subrange(0, compilation.strings@.len() as int) =~= texts_view(compilation.strings@));
    }
    let mut out = vec!['S', 'T', 'R', 'S', '\n'];
    append_chars(&mut out, &strs);
    append_chars(&mut out, &vec!['Z', '_', 'S', 'T', 'R', 'S', '\n', '\n', 'M', 'A', 'I', 'N', '\n']);
    append_chars(&mut out, &serialize_chunk(&compilation.main));
    append_chars(&mut out, &vec!['\n', 'Z', '_', 'M', 'A', 'I', 'N', '\n']);
    proof {
        assert(out@ =~= spec_serialize_root(*compilation));
    }
    out
}

} // verus!
