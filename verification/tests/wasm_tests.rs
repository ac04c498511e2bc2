use rox::shadow_stack::ShadowStack;
use rox::wasm_compiler::{generate_wasm, WasmResult};

fn bits(text: &Vec<char>) -> u64 {
    let s: String = text.iter().collect();
    s.parse::<f64>().map(|x| x.to_bits()).unwrap_or(0)
}

#[test]
fn generates_a_valid_module_for_printing_a_boolean() {
    match generate_wasm("print true;".to_string(), bits) {
        Some(WasmResult::Success { wasm }) => {
            assert_eq!(&wasm[0..8], &[0x00, 0x61, 0x73, 0x6D, 0x01, 0x00, 0x00, 0x00]);
        },
        _ => panic!("expected a valid module"),
    }
}

#[test]
fn generates_a_valid_module_for_printing_a_number() {
    match generate_wasm("print 2.5;".to_string(), bits) {
        Some(WasmResult::Success { wasm }) => {
            let needle = 2.5f64.to_bits().to_le_bytes();
            assert!(wasm.windows(8).any(|w| w == needle));
        },
        _ => panic!("expected a valid module"),
    }
}

#[test]
fn reports_a_compilation_error() {
    assert!(matches!(generate_wasm("print ;".to_string(), bits), Some(WasmResult::CompilationError)));
}

#[test]
fn does_not_generate_unsupported_code() {
    assert!(generate_wasm("var x = 1;".to_string(), bits).is_none());
    assert!(generate_wasm("print \"s\";".to_string(), bits).is_none());
}

#[test]
fn shadow_stack_tracks_kinds() {
    let mut stack = ShadowStack::new();
    assert!(stack.is_empty());
    stack.push_number();
    stack.push_boolean();
    assert!(stack.peek_boolean(0));
    assert!(stack.peek_number(1));
    assert!(!stack.peek_nil(0));
    stack.pop();
    assert!(stack.peek_number(0));
    stack.push_nil();
    assert!(stack.peek_nil(0));
    stack.push_any();
    assert!(stack.peek_any(0));
    assert!(!stack.peek_string(0));
    stack.pop();
    stack.pop();
    stack.pop();
    assert!(stack.is_empty());
    stack.pop();
    assert!(stack.is_empty());
}

#[test]
fn shadow_stack_push_then_pop_restores() {
    let mut stack = ShadowStack::new();
    stack.push_class();
    stack.push_closure();
    stack.pop();
    assert!(!stack.peek_number(0));
    stack.push_string();
    stack.push_upvalue();
    stack.push_raw();
    stack.push_object();
    stack.push_native_fn();
    stack.push_bound_method();
    for _ in 0..7 {
        stack.pop();
    }
    assert!(stack.is_empty());
}

#[test]
fn generates_a_valid_module_for_several_prints() {
    match generate_wasm("print 1; print 2;".to_string(), bits) {
        Some(WasmResult::Success { wasm }) => {
            let one = 1.0f64.to_bits().to_le_bytes();
            let two = 2.0f64.to_bits().to_le_bytes();
            assert!(wasm.windows(8).any(|w| w == one));
            assert!(wasm.windows(8).any(|w| w == two));
        },
        _ => panic!("expected a valid module"),
    }
}
