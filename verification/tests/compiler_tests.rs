use rox::compiler::Compiler;
use rox::output::Output;
use rox::vm::serialize;

fn text(chars: &[char]) -> String {
    chars.iter().collect()
}

fn reports(outputs: &[Output]) -> String {
    let mut out = String::new();
    for o in outputs {
        match o {
            Output::StdErr(s) | Output::StdOut(s) => out.push_str(&text(s)),
            Output::StdErrLn(s) | Output::StdOutLn(s) => {
                out.push_str(&text(s));
                out.push('\n');
            },
        }
    }
    out
}

fn compile(source: &str) -> (bool, String) {
    let mut compiler = Compiler::default();
    let result = compiler.run(source.to_string());
    let outputs = compiler.take_wasm_output();
    (result.is_some(), reports(&outputs))
}

#[test]
fn compiles_a_print_statement() {
    let (ok, errs) = compile("print 1 + 2;");
    assert!(ok);
    assert_eq!(errs, "");
}

#[test]
fn compiles_an_empty_program() {
    let (ok, errs) = compile("");
    assert!(ok);
    assert_eq!(errs, "");
}

#[test]
fn reports_a_missing_expression() {
    let (ok, errs) = compile("print ;");
    assert!(!ok);
    assert_eq!(errs, "[line 1] Error at ';': Expect expression.\n");
}

#[test]
fn reports_an_error_at_the_end() {
    let (ok, errs) = compile("print 1");
    assert!(!ok);
    assert_eq!(errs, "[line 1] Error at end: Expect ';' after value.\n");
}

#[test]
fn reports_a_return_at_top_level() {
    let (ok, errs) = compile("return 1;");
    assert!(!ok);
    assert_eq!(errs, "[line 1] Error at 'return': Can't return from top-level code.\n");
}

#[test]
fn reports_a_lexer_error_with_its_line() {
    let (ok, errs) = compile("\n\nprint @;");
    assert!(!ok);
    assert!(errs.starts_with("[line 3] Error: Unexpected character.\n"));
}

#[test]
fn reports_an_unterminated_string() {
    let (ok, errs) = compile("print \"abc");
    assert!(!ok);
    assert!(errs.starts_with("[line 1] Error: Unterminated string.\n"));
}

#[test]
fn reports_each_statement_once_after_synchronizing() {
    let (ok, errs) = compile("print ;\nprint ;");
    assert!(!ok);
    assert_eq!(
        errs,
        "[line 1] Error at ';': Expect expression.\n[line 2] Error at ';': Expect expression.\n"
    );
}

#[test]
fn reports_invalid_assignment_target() {
    let (ok, errs) = compile("var a = 1; var b = 2; a + b = 3;");
    assert!(!ok);
    assert_eq!(errs, "[line 1] Error at '=': Invalid assignment target.\n");
}

#[test]
fn reports_a_local_read_in_its_own_initializer() {
    let (ok, errs) = compile("{ var a = a; }");
    assert!(!ok);
    assert_eq!(errs, "[line 1] Error at 'a': Can't read local variable in its own initializer.\n");
}

#[test]
fn reports_a_redeclared_local() {
    let (ok, errs) = compile("{ var a = 1; var a = 2; }");
    assert!(!ok);
    assert_eq!(errs, "[line 1] Error at 'a': Already a variable with this name in this scope.\n");
}

#[test]
fn reports_this_outside_a_class() {
    let (ok, errs) = compile("print this;");
    assert!(!ok);
    assert_eq!(errs, "[line 1] Error at 'this': Can't use 'this' outside of a class.\n");
}

#[test]
fn reports_super_without_superclass() {
    let (ok, errs) = compile("class A { f() { super.f(); } }");
    assert!(!ok);
    assert_eq!(errs, "[line 1] Error at 'super': Can't use 'super' in a class with no superclass.\n");
}

#[test]
fn reports_a_class_inheriting_from_itself() {
    let (ok, errs) = compile("class A < A {}");
    assert!(!ok);
    assert_eq!(errs, "[line 1] Error at 'A': A class can't inherit from itself.\n");
}

#[test]
fn reports_a_value_returned_from_an_initializer() {
    let (ok, errs) = compile("class A { init() { return 1; } }");
    assert!(!ok);
    assert_eq!(errs, "[line 1] Error at 'return': Can't return a value from an initializer.\n");
}

#[test]
fn stops_on_a_bad_class_member() {
    let (ok, errs) = compile("class A { 1 }");
    assert!(!ok);
    assert!(errs.starts_with("[line 1] Error at '1': Expect method name.\n"));
}

#[test]
fn compiles_classes_closures_and_loops() {
    let source = "
class Base { init(x) { this.x = x; } get() { return this.x; } }
class Derived < Base { get() { return super.get() + 1; } }
fun counter() { var i = 0; fun inc() { i = i + 1; return i; } return inc; }
for (var i = 0; i < 3; i = i + 1) { print i; }
while (false) { print 1; }
if (true and !false or nil) print \"yes\"; else print \"no\";
var c = counter(); print c(); print Derived(1).get();
";
    let (ok, errs) = compile(source);
    assert_eq!(errs, "");
    assert!(ok);
}

#[test]
fn compiles_a_variable_referenced_300_times() {
    let mut source = String::from("var x = 3;");
    for _ in 0..300 {
        source.push_str(" x;");
    }
    let (ok, errs) = compile(&source);
    assert!(ok);
    assert_eq!(errs, "");
}

#[test]
fn reports_too_many_constants() {
    let mut source = String::new();
    for i in 0..300 {
        source.push_str(&format!("print {i};"));
    }
    let (ok, errs) = compile(&source);
    assert!(!ok);
    assert!(errs.contains("Too many constants in one chunk."));
}

#[test]
fn serializes_a_small_program() {
    let text = match serialize("print 1;".to_string()) {
        Some(Ok(t)) => t.iter().collect::<String>(),
        _ => panic!("expected a serialization"),
    };
    assert_eq!(
        text,
        "STRS\nZ_STRS\n\nMAIN\nCHUNK\nL1 Constant 0 Print Nil Return\nCONSTS\nd1\nZ_MAIN\n"
    );
}

#[test]
fn serializes_strings_and_functions() {
    let text = match serialize("fun f() { print \"hi\"; }".to_string()) {
        Some(Ok(t)) => t.iter().collect::<String>(),
        _ => panic!("expected a serialization"),
    };
    assert!(text.starts_with("STRS\n"));
    assert!(text.contains("f\u{1e}\n"));
    assert!(text.contains("hi\u{1e}\n"));
    assert!(text.contains("FN\n0 0 s"));
    assert!(text.contains("Z_FN"));
    assert!(text.ends_with("Z_MAIN\n"));
}

#[test]
fn serialize_reports_compilation_errors() {
    match serialize("print ;".to_string()) {
        Some(Err(outputs)) => {
            assert_eq!(reports(&outputs), "[line 1] Error at ';': Expect expression.\n");
        },
        _ => panic!("expected the error reports"),
    }
}

#[test]
fn recovers_before_the_next_statement() {
    let (ok, errs) = compile("print + 1 2; print 3 4;\nvar x = ;");
    assert!(!ok);
    assert_eq!(
        errs,
        "[line 1] Error at '+': Expect expression.\n[line 1] Error at '4': Expect ';' after value.\n[line 2] Error at ';': Expect expression.\n"
    );
}

#[test]
fn reports_too_many_parameters() {
    let mut params = String::new();
    for i in 0..256 {
        if i > 0 {
            params.push_str(", ");
        }
        params.push_str(&format!("p{}", i));
    }
    let (ok, errs) = compile(&format!("fun f({}) {{}}", params));
    assert!(!ok);
    assert!(errs.contains("Can't have more than 255 parameters."));
}

fn serialized(source: &str) -> String {
    match serialize(source.to_string()) {
        Some(Ok(t)) => t.iter().collect::<String>(),
        _ => panic!("expected a serialization"),
    }
}

#[test]
fn serializes_print_statements_in_order() {
    assert_eq!(
        serialized("print 1; print 2.5;"),
        "STRS\nZ_STRS\n\nMAIN\nCHUNK\nL1 Constant 0 Print Constant 1 Print Nil Return\nCONSTS\nd1\nd2.5\nZ_MAIN\n"
    );
}

#[test]
fn binary_operators_associate_to_the_left() {
    assert_eq!(
        serialized("print 1 - 2 - 3;"),
        "STRS\nZ_STRS\n\nMAIN\nCHUNK\nL1 Constant 0 Constant 1 Subtract Constant 2 Subtract Print Nil Return\nCONSTS\nd1\nd2\nd3\nZ_MAIN\n"
    );
    assert_eq!(
        serialized("print 1 + 2 * 3;"),
        "STRS\nZ_STRS\n\nMAIN\nCHUNK\nL1 Constant 0 Constant 1 Constant 2 Multiply Add Print Nil Return\nCONSTS\nd1\nd2\nd3\nZ_MAIN\n"
    );
}

#[test]
fn for_loop_exit_jump_lands_on_the_condition_pop() {
    assert_eq!(
        serialized("for (;false;) {}"),
        "STRS\nZ_STRS\n\nMAIN\nCHUNK\nL1 False JumpIfFalse 0 4 Pop Loop 0 8 Pop Nil Return\nCONSTS\nZ_MAIN\n"
    );
}

#[test]
fn class_with_superclass_emits_inherit() {
    let text = serialized("class A {} class B < A {}");
    assert!(text.contains(" Inherit "));
}

#[test]
fn for_loop_jumps_over_the_increment_and_back() {
    assert_eq!(
        serialized("for (;false;1) {}"),
        "STRS\nZ_STRS\n\nMAIN\nCHUNK\nL1 False JumpIfFalse 0 13 Pop Jump 0 6 Constant 0 Pop Loop 0 14 Loop 0 9 Pop Nil Return\nCONSTS\nd1\nZ_MAIN\n"
    );
}
