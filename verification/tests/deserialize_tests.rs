use rox::compilation::{CompiledValue, StringRef};
use rox::deserialize::deserialize;
use rox::opcode::{Byte, OpCode};
use rox::serialize::serialize_root;
use rox::vm::serialize;

fn text_of(source: &str) -> String {
    match serialize(source.to_string()) {
        Some(Ok(t)) => t.iter().collect::<String>(),
        _ => panic!("expected a serialization"),
    }
}

fn round_trip(source: &str) {
    let text = text_of(source);
    let compilation = match deserialize(&text) {
        Some(c) => c,
        None => panic!("expected the text to read back: {:?}", text),
    };
    let again: String = serialize_root(&compilation).iter().collect();
    assert_eq!(again, text);
}

#[test]
fn reads_back_a_small_program() {
    let text = "STRS\nZ_STRS\n\nMAIN\nCHUNK\nL1 Constant 0 Print Nil Return\nCONSTS\nd1\nZ_MAIN\n";
    let c = deserialize(text).expect("a compilation");
    assert!(c.strings.is_empty());
    assert_eq!(c.main.line_data.len(), 1);
    assert_eq!(c.main.line_data[0].0, 1);
    assert_eq!(
        c.main.line_data[0].1,
        vec![
            Byte::Named(OpCode::Constant),
            Byte::Raw(0),
            Byte::Named(OpCode::Print),
            Byte::Named(OpCode::Nil),
            Byte::Named(OpCode::Return),
        ]
    );
    assert_eq!(c.main.constants.len(), 1);
    match &c.main.constants[0] {
        CompiledValue::CompiledNumber(t) => assert_eq!(t.iter().collect::<String>(), "1"),
        _ => panic!("expected a number"),
    }
}

#[test]
fn reads_back_strings_and_functions() {
    let text = "STRS\nf\u{1e}\nhi\u{1e}\nZ_STRS\n\nMAIN\nCHUNK\nL1 Closure 0 DefineGlobal 1\nL2 Nil Return\nCONSTS\nFN\n2 1 s0\nCHUNK\nL1 Constant 0 Print\nL2 Nil Return\nCONSTS\ns1\nt\nf\nn\nZ_FN\ns0\nZ_MAIN\n";
    let c = deserialize(text).expect("a compilation");
    assert_eq!(c.strings.len(), 2);
    assert_eq!(c.strings[0], vec!['f']);
    assert_eq!(c.strings[1], vec!['h', 'i']);
    assert_eq!(c.main.line_data.len(), 2);
    assert_eq!(c.main.constants.len(), 2);
    match &c.main.constants[0] {
        CompiledValue::CompiledFunction { arity, upvalue_count, name_ref, chunk } => {
            assert_eq!(*arity, 2);
            assert_eq!(*upvalue_count, 1);
            assert_eq!(*name_ref, StringRef(0));
            assert_eq!(chunk.line_data.len(), 2);
            assert_eq!(chunk.constants.len(), 4);
            assert!(matches!(chunk.constants[0], CompiledValue::CompiledString(StringRef(1))));
            assert!(matches!(chunk.constants[1], CompiledValue::CompiledBoolean(true)));
            assert!(matches!(chunk.constants[2], CompiledValue::CompiledBoolean(false)));
            assert!(matches!(chunk.constants[3], CompiledValue::CompiledNil));
        },
        _ => panic!("expected a function"),
    }
    assert!(matches!(c.main.constants[1], CompiledValue::CompiledString(StringRef(0))));
    let again: String = serialize_root(&c).iter().collect();
    assert_eq!(again, text);
}

#[test]
fn serialized_programs_read_back() {
    round_trip("print 1;");
    round_trip("print \"hi\" + \"there\";");
    round_trip("var a = 1.5; { var b = a * 2; print b; }");
    round_trip("fun f(x) { return x + 1; } print f(2);");
    round_trip("fun outer() { var a = 1; fun inner() { return a; } return inner; } print outer()();");
    round_trip("class A { m() { return this; } } class B < A { m() { return super.m(); } } print B().m();");
    round_trip("for (var i = 0; i < 3; i = i + 1) { if (i == 1) print i; else print nil; } while (false) {}");
}

#[test]
fn refuses_text_without_the_sections() {
    assert!(deserialize("").is_none());
    assert!(deserialize("MAIN\nCHUNK\nL1 Return\nCONSTS\nZ_MAIN\n").is_none());
    assert!(deserialize("STRS\nZ_STRS\n\nCHUNK\nL1 Return\nCONSTS\nZ_MAIN\n").is_none());
    assert!(deserialize("STRS\nZ_STRS\n\nMAIN\nCHUNK\nL1 Return\nCONSTS\n").is_none());
}

#[test]
fn refuses_text_after_the_end() {
    assert!(deserialize("STRS\nZ_STRS\n\nMAIN\nCHUNK\nL1 Return\nCONSTS\nZ_MAIN\n").is_some());
    assert!(deserialize("STRS\nZ_STRS\n\nMAIN\nCHUNK\nL1 Return\nCONSTS\nZ_MAIN\nx").is_none());
}

#[test]
fn refuses_malformed_lines() {
    assert!(deserialize("STRS\nZ_STRS\n\nMAIN\nCHUNK\nL1 Retrun\nCONSTS\nZ_MAIN\n").is_none());
    assert!(deserialize("STRS\nZ_STRS\n\nMAIN\nCHUNK\nL1 256\nCONSTS\nZ_MAIN\n").is_none());
    assert!(deserialize("STRS\nZ_STRS\n\nMAIN\nCHUNK\n1 Return\nCONSTS\nZ_MAIN\n").is_none());
    assert!(deserialize("STRS\nZ_STRS\n\nMAIN\nCHUNK\nL01 Return\nCONSTS\nZ_MAIN\n").is_none());
    assert!(deserialize("STRS\nZ_STRS\n\nMAIN\nCHUNK\nL1 Return \nCONSTS\nZ_MAIN\n").is_none());
    assert!(deserialize("STRS\nZ_STRS\n\nMAIN\nCHUNK\nCONSTS\nZ_MAIN\n").is_none());
    assert!(deserialize("STRS\nZ_STRS\n\nMAIN\nCHUNK\nL1 255 Return\nCONSTS\nZ_MAIN\n").is_some());
}

#[test]
fn refuses_malformed_constants() {
    assert!(deserialize("STRS\nZ_STRS\n\nMAIN\nCHUNK\nL1 Return\nCONSTS\ns0\nZ_MAIN\n").is_none());
    assert!(deserialize("STRS\na\u{1e}\nZ_STRS\n\nMAIN\nCHUNK\nL1 Return\nCONSTS\ns0\nZ_MAIN\n").is_some());
    assert!(deserialize("STRS\nZ_STRS\n\nMAIN\nCHUNK\nL1 Return\nCONSTS\nd1.\nZ_MAIN\n").is_some());
    assert!(deserialize("STRS\nZ_STRS\n\nMAIN\nCHUNK\nL1 Return\nCONSTS\nd.\nZ_MAIN\n").is_none());
    assert!(deserialize("STRS\nZ_STRS\n\nMAIN\nCHUNK\nL1 Return\nCONSTS\nd\nZ_MAIN\n").is_none());
    assert!(deserialize("STRS\nZ_STRS\n\nMAIN\nCHUNK\nL1 Return\nCONSTS\nd1e\nZ_MAIN\n").is_none());
    assert!(deserialize("STRS\nZ_STRS\n\nMAIN\nCHUNK\nL1 Return\nCONSTS\nd 1\nZ_MAIN\n").is_none());
    assert!(deserialize("STRS\nZ_STRS\n\nMAIN\nCHUNK\nL1 Return\nCONSTS\nd+-1\nZ_MAIN\n").is_none());
    assert!(deserialize("STRS\nZ_STRS\n\nMAIN\nCHUNK\nL1 Return\nCONSTS\ndinfinit\nZ_MAIN\n").is_none());
    assert!(deserialize("STRS\nZ_STRS\n\nMAIN\nCHUNK\nL1 Return\nCONSTS\nd1.2.3\nZ_MAIN\n").is_none());
    assert!(deserialize("STRS\nZ_STRS\n\nMAIN\nCHUNK\nL1 Return\nCONSTS\nd12.75\nZ_MAIN\n").is_some());
    assert!(deserialize("STRS\nZ_STRS\n\nMAIN\nCHUNK\nL1 Return\nCONSTS\nx\nZ_MAIN\n").is_none());
    assert!(deserialize("STRS\na\u{1e}\nZ_STRS\n\nMAIN\nCHUNK\nL1 Return\nCONSTS\nFN\n0 0 s0\nCHUNK\nL1 Return\nCONSTS\nZ_MAIN\n").is_none());
}

fn number_constant(line: &str) -> Option<String> {
    let text = format!("STRS\nZ_STRS\n\nMAIN\nCHUNK\nL1 Return\nCONSTS\n{}\nZ_MAIN\n", line);
    let c = deserialize(&text)?;
    match &c.main.constants[0] {
        CompiledValue::CompiledNumber(t) => Some(t.iter().collect::<String>()),
        _ => None,
    }
}

#[test]
fn reads_every_float_form() {
    for t in ["-3", "+2.5", "1e5", "1E-5", ".5", "5.", "2.5e+10", "inf", "-Infinity", "NaN", "nan"] {
        let got = number_constant(&format!("d{}", t));
        assert_eq!(got.as_deref(), Some(t));
        assert!(t.parse::<f64>().is_ok());
    }
}

#[test]
fn reads_simple_constants_and_a_negative_number() {
    let text = "STRS\nZ_STRS\n\nMAIN\nCHUNK\nL1 Return\nCONSTS\nn\nt\nf\nd-3\nZ_MAIN\n";
    let c = deserialize(text).expect("a compilation");
    assert_eq!(c.main.constants.len(), 4);
    assert!(matches!(c.main.constants[0], CompiledValue::CompiledNil));
    assert!(matches!(c.main.constants[1], CompiledValue::CompiledBoolean(true)));
    assert!(matches!(c.main.constants[2], CompiledValue::CompiledBoolean(false)));
    match &c.main.constants[3] {
        CompiledValue::CompiledNumber(t) => {
            let s: String = t.iter().collect();
            assert_eq!(s.parse::<f64>().unwrap(), -3.0);
        },
        _ => panic!("expected a number"),
    }
}
