use gemini_cli::cli::attach_file;

#[test]
fn attaches_file_as_fenced_block() {
    let mut prompt = String::from("Explain this");
    attach_file(&mut prompt, "main.rs", "fn main() {}");
    assert_eq!(
        prompt,
        "Explain this\n\n--- Вміст файлу `main.rs` ---\n```text\nfn main() {}\n```"
    );
}
