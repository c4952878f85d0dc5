//! The decisions of a small interactive shell.
use vstd::prelude::*;

use crate::text::concat_str;

verus! {

/// The text that follows the prompt line.
pub open spec fn prompt_suffix() -> Seq<char> {
    seq!['\n', 'm', 'y', '_', 's', 'h', 'e', 'l', 'l', ' ', '>', ' ']
}

/// The prompt shown before each command: the given text, then a line that
/// reads `my_shell > `.
pub fn build_shell_prompt(prompt: &str) -> (r: String)
    ensures
        r@ == prompt@ + prompt_suffix(),
{
    proof {
        reveal_strlit("\nmy_shell > ");
    }
    let r = concat_str(prompt, "\nmy_shell > ");
    assert("\nmy_shell > "@ =~= prompt_suffix());
    r
}

/// What the shell shows of a finished command: what it wrote to its error
/// stream where its exit code is not 0, else what it wrote to its output.
pub fn output_to_show<'a>(exit_code: i32, stdout: &'a Vec<u8>, stderr: &'a Vec<u8>) -> (r: &'a Vec<u8>)
    ensures
        r@ == if exit_code != 0 {
            stderr@
        } else {
            stdout@
        },
{
    if exit_code != 0 {
        stderr
    } else {
        stdout
    }
}

} // verus!
