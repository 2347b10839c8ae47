# gemini-cli

A terminal client for Google's Gemini models. The library (`src/`) holds
the client's logic, each function with a contract proved by Verus:

- `secrets`: redaction of secret-shaped tokens (hex digests, JWTs, Google
  and AWS keys, UUIDs) from a prompt before it is sent;
- `gemini`: request and URL building, and the framing of the
  server-sent-event stream (lines and `data:` payloads);
- `bash_runner`: the `bash`/`sh` blocks of a reply, their previews, and the
  user's choice of which to run;
- `config`: where the API key is kept and how it is read back;
- `cli`: the command-line options and how files are attached to a prompt;
- `text`, `word`, `numbers`: characters, whitespace, word boundaries and
  decimal numerals.

`app/` is the program around it: argument parsing, files, the terminal,
HTTP and JSON.
