use engine::vm::{compile, Vm};

/// Fibonacci as a loop, compiled to RISC-V, executed from raw bytes, output
/// collected.
#[test]
fn fibonacci_end_to_end() {
    let src = r#"
        let a = 0;
        let b = 1;
        let n = 10;
        while (n > 0) {
            print(a);
            let t = a + b;
            a = b;
            b = t;
            n = n - 1;
        }
    "#;
    // `let t` inside a loop body redeclares - adjust: declare t up front.
    let src = src.replace("let t = a + b;", "t = a + b;");
    let src = format!("let t = 0;\n{src}");

    let compilation = compile(&src).unwrap();
    let mut vm = Vm::new(&compilation);
    let deltas = vm.run(10_000);

    assert!(vm.halted(), "program did not halt");
    let output: String = deltas.iter().filter_map(|d| d.delta.output.clone()).collect();
    assert_eq!(output, "0\n1\n1\n2\n3\n5\n8\n13\n21\n34\n");

    // no faults along the way
    assert!(deltas.iter().all(|d| d.delta.error.is_none()));

    // every executed instruction that has provenance traces to a real span
    for d in &deltas {
        if let Some(span) = d.span {
            assert!((span.end as usize) <= src.len());
            assert!(span.start < span.end);
        }
    }
}

#[test]
fn countdown_with_if_else() {
    let src = r#"
        let n = 3;
        while (n >= 0) {
            if (n == 0) {
                print(999);
            } else {
                print(n);
            }
            n = n - 1;
        }
    "#;
    let compilation = compile(src).unwrap();
    let mut vm = Vm::new(&compilation);
    let deltas = vm.run(10_000);
    let output: String = deltas.iter().filter_map(|d| d.delta.output.clone()).collect();
    assert_eq!(output, "3\n2\n1\n999\n");
}

#[test]
fn reset_restores_initial_state() {
    let compilation = compile("let x = 5; print(x);").unwrap();
    let mut vm = Vm::new(&compilation);
    vm.run(100);
    assert!(vm.halted());
    vm.reset();
    assert!(!vm.halted());
    let st = vm.state(1);
    assert_eq!(st.pc, 0);
    assert_eq!(st.regs, [0; 32]);
    // data section wiped too
    assert_eq!(st.var_values, vec![0]);
    // and it runs again identically
    let deltas = vm.run(100);
    let output: String = deltas.iter().filter_map(|d| d.delta.output.clone()).collect();
    assert_eq!(output, "5\n");
}

#[test]
fn state_exposes_variable_values() {
    let compilation = compile("let x = 11; let y = 22;").unwrap();
    let mut vm = Vm::new(&compilation);
    vm.run(100);
    let st = vm.state(compilation.vars.len());
    assert_eq!(st.var_values, vec![11, 22]);
}

#[test]
fn deep_expressions_error_gracefully() {
    // 8 nested parens exceeds the 7-temp register stack
    let src = "let x = (1+(2+(3+(4+(5+(6+(7+(8+9))))))));";
    let err = compile(src).unwrap_err();
    assert!(err.message.contains("too deeply nested"));
}

#[test]
fn division_by_zero_follows_hardware() {
    let compilation = compile("let a = 7; let b = 0; print(a / b);").unwrap();
    let mut vm = Vm::new(&compilation);
    let deltas = vm.run(100);
    let output: String = deltas.iter().filter_map(|d| d.delta.output.clone()).collect();
    assert_eq!(output, "-1\n"); // RISC-V: division by zero yields -1, no trap
}
