//! The command-line options, and how the prompt is put together from
//! them.

use vstd::prelude::*;
use crate::text::append_str;

verus! {

/// The options the program is run with.
pub struct Cli {
    /// The prompt; when absent it is asked for interactively.
    pub prompt: Option<String>,
    /// The Gemini model that answers.
    pub model: String,
    /// A new API key to store instead of asking anything.
    pub set_key: Option<String>,
    /// Files whose contents are attached to the prompt.
    pub file: Vec<String>,
}

/// The text that attaches a file named `name` with `content` to a prompt.
pub open spec fn file_attachment(name: Seq<char>, content: Seq<char>) -> Seq<char> {
    "\n\n--- Вміст файлу `"@ + name + "` ---\n```text\n"@ + content + "\n```"@
}

/// Appends the file `file_name` with contents `content` to the prompt, as
/// a titled fenced block.
pub fn attach_file(prompt: &mut String, file_name: &str, content: &str)
    ensures
        final(prompt)@ == old(prompt)@ + file_attachment(file_name@, content@),
{
    append_str(prompt, "\n\n--- Вміст файлу `");
    append_str(prompt, file_name);
    append_str(prompt, "` ---\n```text\n");
    append_str(prompt, content);
    append_str(prompt, "\n```");
}

} // verus!
