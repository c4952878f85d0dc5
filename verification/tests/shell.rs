use lib::shell::{build_shell_prompt, output_to_show};

#[test]
fn prompt_ends_with_shell_line() {
    assert_eq!(build_shell_prompt("~"), "~\nmy_shell > ");
    assert_eq!(build_shell_prompt(""), "\nmy_shell > ");
}

#[test]
fn failing_command_shows_error_stream() {
    let out = vec![1u8, 2];
    let err = vec![3u8];
    assert_eq!(output_to_show(0, &out, &err), &out);
    assert_eq!(output_to_show(1, &out, &err), &err);
    assert_eq!(output_to_show(-1, &out, &err), &err);
}
