use fluent_graph::capture::{exit_code_name, output_name};

#[test]
fn output_name_joins_with_an_underscore() {
    assert_eq!(output_name("out/run", "stdout.txt"), "out/run_stdout.txt");
    assert_eq!(output_name("", "run.txt"), "_run.txt");
    assert_eq!(output_name("base", ""), "base_");
}

#[test]
fn exit_code_name_of_a_code() {
    assert_eq!(exit_code_name(Some(0)), "exitcode_Some(0).txt");
    assert_eq!(exit_code_name(Some(101)), "exitcode_Some(101).txt");
    assert_eq!(exit_code_name(Some(-1)), "exitcode_Some(-1).txt");
    assert_eq!(exit_code_name(Some(i32::MIN)), "exitcode_Some(-2147483648).txt");
    assert_eq!(exit_code_name(Some(i32::MAX)), "exitcode_Some(2147483647).txt");
}

#[test]
fn exit_code_name_without_a_code() {
    assert_eq!(exit_code_name(None), "exitcode_None.txt");
}

#[test]
fn exit_code_name_is_the_debug_text() {
    for code in [Some(3), Some(-77), None] {
        assert_eq!(exit_code_name(code), format!("exitcode_{:?}.txt", code));
    }
}
