use rox::chunk::Chunk;
use rox::compilation::crawl_root;
use rox::hash_table::HashTable;
use rox::heap::Heap;
use rox::heap_object::{
    hash_string, ClassObj, FunctionObj, HeapObject, NativeFnObj, ObjInstanceObj, UpvalueObj, UpvalueSlot,
};
use rox::display::stringify_value;
use rox::lexer::Lexer;
use rox::memory::next_capacity;
use rox::opcode::{Byte, OpCode};
use rox::output::{decimal_chars, render_output, Output};
use rox::precedence::{rule_for, ParseFn, Precedence};
use rox::program::{FunctionKind, LocalVar, Program};
use rox::serialize::{serialize_byte, serialize_string_ref};
use rox::compilation::StringRef;
use rox::source_loc::SourceLoc;
use rox::token::TokenType;
use rox::value::{GcPtr, Value};

fn chars(s: &str) -> Vec<char> {
    s.chars().collect()
}

fn kinds(source: &str) -> Vec<u8> {
    let mut lexer = Lexer::new(chars(source));
    let mut out = Vec::new();
    loop {
        match lexer.next_token() {
            Ok(t) => {
                let eof = matches!(t.typ, TokenType::Eof);
                out.push(t.typ.tag());
                if eof {
                    break;
                }
            },
            Err(_) => out.push(255),
        }
    }
    out
}

#[test]
fn lexes_keywords_operators_and_literals() {
    let source = "var x = 12.5 >= y; // note\nprint \"hi\";";
    let mut lexer = Lexer::new(chars(source));
    let t = lexer.next_token().ok().unwrap();
    assert!(matches!(t.typ, TokenType::Var));
    assert_eq!(t.loc.line_num, 1);
    let t = lexer.next_token().ok().unwrap();
    assert!(matches!(&t.typ, TokenType::Identifier(n) if n == &chars("x")));
    let _ = lexer.next_token();
    let t = lexer.next_token().ok().unwrap();
    assert!(matches!(&t.typ, TokenType::Number(n) if n == &chars("12.5")));
    let t = lexer.next_token().ok().unwrap();
    assert!(matches!(t.typ, TokenType::GreaterEqual));
    let _ = lexer.next_token();
    let _ = lexer.next_token();
    let t = lexer.next_token().ok().unwrap();
    assert!(matches!(t.typ, TokenType::Print));
    assert_eq!(t.loc.line_num, 2);
    let t = lexer.next_token().ok().unwrap();
    assert!(matches!(&t.typ, TokenType::LoxString(s) if s == &chars("hi")));
    assert_eq!(t.loc.length, 4);
    assert_eq!(lexer.get_line_num(), 2);
}

#[test]
fn lexes_errors_and_the_end() {
    assert_eq!(kinds("@"), vec![255, 7]);
    assert_eq!(kinds(""), vec![7]);
    assert_eq!(kinds("\"open"), vec![255, 7]);
}

#[test]
fn extracts_the_text_of_a_location() {
    let loc = SourceLoc { start_index: 4, line_num: 1, column: 5, length: 3 };
    assert_eq!(loc.extract(&chars("var abc;")), chars("abc"));
    let past = SourceLoc { start_index: 6, line_num: 1, column: 7, length: 10 };
    assert_eq!(past.extract(&chars("var abc;")), chars("c;"));
}

#[test]
fn grows_capacities() {
    assert_eq!(next_capacity(0), 8);
    assert_eq!(next_capacity(7), 8);
    assert_eq!(next_capacity(8), 16);
    assert_eq!(next_capacity(100), 200);
}

#[test]
fn names_and_numbers_opcodes() {
    assert_eq!(OpCode::Add.index(), 0);
    assert_eq!(OpCode::True.index(), 36);
    assert_eq!(OpCode::JumpIfFalse.name(), chars("JumpIfFalse"));
    assert!(matches!(OpCode::parse_name(&chars("SuperInvoke")), Some(OpCode::SuperInvoke)));
    assert!(OpCode::parse_name(&chars("Nope")).is_none());
    assert!(matches!(OpCode::from_repr(4), Some(OpCode::Constant)));
    assert!(OpCode::from_repr(37).is_none());
    assert_eq!(Byte::Named(OpCode::Return).as_u8(), 29);
    assert_eq!(Byte::Raw(200).as_u16(), 200);
    assert_eq!(Byte::Named(OpCode::Nil).as_usize(), 25);
}

#[test]
fn orders_precedences_and_rules() {
    assert!(matches!(Precedence::Assignment.next(), Precedence::Or));
    assert!(matches!(Precedence::Call.next(), Precedence::Primary));
    assert!(Precedence::Term.at_most(Precedence::Factor));
    assert!(!Precedence::Unary.at_most(Precedence::Or));
    let r = rule_for(&TokenType::Minus);
    assert!(matches!(r.prefix, Some(ParseFn::Unary)));
    assert!(matches!(r.infix, Some(ParseFn::Binary)));
    assert!(matches!(r.precedence, Precedence::Term));
    let r = rule_for(&TokenType::Semicolon);
    assert!(r.prefix.is_none() && r.infix.is_none());
}

#[test]
fn writes_decimals_and_serialized_bytes() {
    assert_eq!(decimal_chars(0), chars("0"));
    assert_eq!(decimal_chars(4096), chars("4096"));
    assert_eq!(serialize_byte(&Byte::Raw(17)), chars("17"));
    assert_eq!(serialize_byte(&Byte::Named(OpCode::GetLocal)), chars("GetLocal"));
    assert_eq!(serialize_string_ref(&StringRef(12)), chars("s12"));
}

#[test]
fn hashes_strings_with_fnv() {
    assert_eq!(hash_string(&Vec::new()), 2166136261);
    assert_eq!(hash_string(&chars("a")), 0xe40c292c);
    assert_eq!(hash_string(&chars("\u{e9}")), 0x1e9de8c1);
}

#[test]
fn table_reads_back_what_was_written() {
    let mut heap = Heap::new();
    let k1 = heap.copy_string_simple(&chars("alpha"));
    let k2 = heap.copy_string_simple(&chars("beta"));
    let h1 = hash_string(&chars("alpha"));
    let h2 = hash_string(&chars("beta"));
    let mut table = HashTable::new();
    assert!(table.set(k1, h1, Value::Boolean(true)));
    assert!(!table.set(k1, h1, Value::Nil));
    assert!(table.set(k2, h2, Value::Boolean(false)));
    assert!(matches!(table.get(k1, h1), Some(Value::Nil)));
    assert!(matches!(table.get(k2, h2), Some(Value::Boolean(false))));
    assert!(table.delete(k1, h1));
    assert!(table.get(k1, h1).is_none());
    assert!(!table.delete(k1, h1));
    assert!(matches!(table.get(k2, h2), Some(Value::Boolean(false))));
}

#[test]
fn heap_interns_strings() {
    let mut heap = Heap::new();
    let a = heap.copy_string_simple(&chars("name"));
    let b = heap.copy_string_simple(&chars("name"));
    let c = heap.copy_string_simple(&chars("other"));
    assert_eq!(a, b);
    assert_ne!(a, c);
    assert_eq!(heap.copy_string_simple(&chars("this")), heap.this_ptr());
    let ab = heap.concatenate_strings(a, c);
    let d = heap.copy_string_simple(&chars("nameother"));
    assert_eq!(ab, d);
}

#[test]
fn globals_read_back_what_was_set() {
    let mut heap = Heap::new();
    let name = heap.copy_string_simple(&chars("g"));
    assert!(heap.get_global(name).is_none());
    assert!(heap.set_global(name, Value::Boolean(true)));
    assert!(matches!(heap.get_global(name), Some(Value::Boolean(true))));
    assert!(!heap.set_global(name, Value::Nil));
    assert!(heap.delete_global(name));
    assert!(heap.get_global(name).is_none());
}

#[test]
fn collection_frees_what_nothing_reaches() {
    let mut heap = Heap::new();
    let kept = heap.copy_string_simple(&chars("kept"));
    let lost = heap.copy_string_simple(&chars("lost"));
    let class_name = heap.copy_string_simple(&chars("K"));
    let class = heap.allocate_class(ClassObj::new(class_name));
    let native = heap.allocate_native_fn(NativeFnObj(0));
    heap.collect_garbage(&vec![kept, class]);
    assert!(heap.is_live(kept));
    assert!(heap.is_live(class));
    assert!(heap.is_live(class_name));
    assert!(!heap.is_live(lost));
    assert!(!heap.is_live(native));
    assert!(heap.is_live(heap.init_ptr()));
    let again = heap.copy_string_simple(&chars("lost"));
    assert!(heap.is_live(again));
    assert_ne!(again, lost);
}

#[test]
fn collection_keeps_globals() {
    let mut heap = Heap::new();
    let name = heap.copy_string_simple(&chars("g"));
    let value = heap.copy_string_simple(&chars("v"));
    heap.set_global(name, Value::Reference(value));
    heap.collect_garbage(&Vec::new());
    assert!(heap.is_live(name));
    assert!(heap.is_live(value));
    assert!(matches!(heap.get_global(name), Some(Value::Reference(p)) if p == value));
}

#[test]
fn program_scopes_discard_their_locals() {
    let f = FunctionObj::MainScript { arity: 0, chunk: Chunk::default(), upvalue_count: 0 };
    let mut p = Program::new(f, FunctionKind::Script);
    p.begin_scope();
    p.local_vars.push(LocalVar::LocalBinding { name: chars("a"), depth_opt: Some(1), is_captured: false });
    p.local_vars.push(LocalVar::LocalBinding { name: chars("b"), depth_opt: Some(1), is_captured: true });
    p.begin_scope();
    p.local_vars.push(LocalVar::LocalBinding { name: chars("c"), depth_opt: None, is_captured: false });
    p.mark_latest_var_initialized();
    assert_eq!(p.local_vars[3].depth_opt(), Some(2));
    let inner = p.end_scope();
    assert!(matches!(inner.as_slice(), [OpCode::Pop]));
    let outer = p.end_scope();
    assert!(matches!(outer.as_slice(), [OpCode::CloseUpvalue, OpCode::Pop]));
    assert_eq!(p.local_vars.len(), 1);
    assert_eq!(p.scope_depth, 0);
    assert!(!p.local_vars[0].is_captured());
}

#[test]
fn method_programs_keep_this_in_slot_zero() {
    let f = FunctionObj::MainScript { arity: 0, chunk: Chunk::default(), upvalue_count: 0 };
    let mut p = Program::new(f, FunctionKind::Method);
    assert_eq!(p.local_vars[0].depth_opt(), Some(0));
    p.local_vars[0].mark_captured();
    assert!(p.local_vars[0].is_captured());
}

#[test]
fn crawls_a_compiled_program() {
    let mut compiler = rox::compiler::Compiler::default();
    let root = compiler.run("print \"a\"; print \"a\";".to_string()).unwrap();
    let compilation = crawl_root(&compiler.heap, root).unwrap();
    assert_eq!(compilation.strings.len(), 1);
    assert_eq!(compilation.strings[0], chars("a"));
    assert_eq!(compilation.main.line_data.len(), 1);
    assert_eq!(compilation.main.line_data[0].0, 1);
    assert!(crawl_root(&compiler.heap, GcPtr(0)).is_none());
    let _ = HeapObject::HeapNativeFn(NativeFnObj(1));
}

#[test]
fn renders_outputs_into_lines() {
    let outputs = vec![
        Output::StdOut(chars("a")),
        Output::StdOut(chars("b")),
        Output::StdOutLn(chars("c")),
        Output::StdErr(chars("d")),
        Output::StdErrLn(chars("e")),
        Output::StdOut(chars("f")),
    ];
    let lines: Vec<String> = render_output(outputs).iter().map(|l| l.iter().collect()).collect();
    assert_eq!(lines, vec!["ab", "c", "d", "e", "f"]);
    assert!(render_output(Vec::new()).is_empty());
}

fn shown(heap: &Heap, value: &Value) -> String {
    let number = |t: &Vec<char>| -> Vec<char> {
        let x: f64 = t.iter().collect::<String>().parse().unwrap();
        x.to_string().chars().collect()
    };
    stringify_value(heap, value, number).expect("a value that can be shown").iter().collect()
}

#[test]
fn shows_values_as_print_does() {
    let mut heap = Heap::new();
    assert_eq!(shown(&heap, &Value::Boolean(true)), "true");
    assert_eq!(shown(&heap, &Value::Boolean(false)), "false");
    assert_eq!(shown(&heap, &Value::Nil), "nil");
    assert_eq!(shown(&heap, &Value::Double(chars("2.50"))), "2.5");
    let text = heap.copy_string_simple(&chars("hello"));
    assert_eq!(shown(&heap, &Value::Reference(text)), "hello");
    let name = heap.copy_string_simple(&chars("area"));
    let f = heap.allocate_function(FunctionObj::UserDefined {
        arity: 0,
        chunk: Chunk::default(),
        name_gc_ptr: name,
        upvalue_count: 0,
    });
    assert_eq!(shown(&heap, &Value::Reference(f)), "<fn area>");
    let script = heap.allocate_function(FunctionObj::MainScript { arity: 0, chunk: Chunk::default(), upvalue_count: 0 });
    assert_eq!(shown(&heap, &Value::Reference(script)), "<script>");
    let closure = heap.allocate_closure(f);
    assert_eq!(shown(&heap, &Value::Reference(closure)), "<fn area>");
    let class_name = heap.copy_string_simple(&chars("Shape"));
    let class = heap.allocate_class(ClassObj::new(class_name));
    assert_eq!(shown(&heap, &Value::Reference(class)), "Shape");
    let instance = heap.allocate_obj_instance(ObjInstanceObj::new(class));
    assert_eq!(shown(&heap, &Value::Reference(instance)), "Shape instance");
    let native = heap.allocate_native_fn(NativeFnObj(0));
    assert_eq!(shown(&heap, &Value::Reference(native)), "<native fn>");
    assert!(stringify_value(&heap, &Value::Reference(rox::value::GcPtr(100_000)), |t: &Vec<char>| t.clone()).is_none());
}

#[test]
fn closing_upvalues_keeps_their_stack_values() {
    let mut heap = Heap::new();
    let low = heap.allocate_upvalue(UpvalueObj { closed_value: Value::Nil, next_gc_opt: None, slot: UpvalueSlot::Stack(0) });
    let high = heap.allocate_upvalue(UpvalueObj {
        closed_value: Value::Nil,
        next_gc_opt: Some(low),
        slot: UpvalueSlot::Stack(2),
    });
    heap.head_open_upvalue_gc_opt = Some(high);
    let stack = vec![Value::Boolean(false), Value::Nil, Value::Boolean(true)];
    heap.close_upvalues(&stack, 1);
    assert_eq!(heap.first_open_upvalue(), Some(low));
    match heap.object(high) {
        HeapObject::HeapUpvalue(u) => {
            assert_eq!(u.slot, UpvalueSlot::Closed);
            assert!(matches!(u.closed_value, Value::Boolean(true)));
        },
        _ => panic!("expected an upvalue"),
    }
    match heap.object(low) {
        HeapObject::HeapUpvalue(u) => assert_eq!(u.slot, UpvalueSlot::Stack(0)),
        _ => panic!("expected an upvalue"),
    }
    heap.close_upvalues(&stack, 0);
    assert_eq!(heap.first_open_upvalue(), None);
    match heap.object(low) {
        HeapObject::HeapUpvalue(u) => {
            assert_eq!(u.slot, UpvalueSlot::Closed);
            assert!(matches!(u.closed_value, Value::Boolean(false)));
        },
        _ => panic!("expected an upvalue"),
    }
}
