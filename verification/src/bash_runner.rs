//! Shell commands in a model's reply: finding the fenced `bash`/`sh`
//! blocks, previewing them, and reading the user's choice of which to run.
//! (Running them and talking to the terminal is left to the caller.)

use vstd::prelude::*;
use crate::text::{lemma_trim_idempotent, line_end, lemma_line_end, line_end_exec, is_space, lemma_trim_unchanged, has_at, chars_at, chars_of, string_from, trim, trim_bounds, append_chars};
use crate::numbers::{decimal, decimal_chars, parse_usize, parse_usize_exec, lemma_decimal_value, lemma_parse_decimal};

verus! {

/// Finds shell commands in a model's reply and runs the one the user picks.
pub struct BashRunner;

/// A fence of three backticks at `j`.
pub open spec fn fence_at(s: Seq<char>, j: int) -> bool {
    has_at(s, j, seq!['`', '`', '`'])
}

/// The first fence at or after `j`, or -1.
pub open spec fn find_fence(s: Seq<char>, j: int) -> int
    decreases s.len() - j,
{
    if j < 0 || j + 3 > s.len() {
        -1
    } else if fence_at(s, j) {
        j
    } else {
        find_fence(s, j + 1)
    }
}

/// Where the body of a block opened at `i` by "```bash\n" or "```sh\n"
/// starts, or -1 when no such opening stands at `i`.
pub open spec fn body_start(s: Seq<char>, i: int) -> int {
    if fence_at(s, i) && has_at(s, i + 3, seq!['b', 'a', 's', 'h', '\n']) {
        i + 8
    } else if fence_at(s, i) && has_at(s, i + 3, seq!['s', 'h', '\n']) {
        i + 6
    } else {
        -1
    }
}

/// `find_fence` finds the first fence at or after `j`, inside `s`.
pub proof fn lemma_find_fence(s: Seq<char>, j: int)
    requires
        0 <= j,
    ensures
        find_fence(s, j) == -1 || (j <= find_fence(s, j) && find_fence(s, j) + 3 <= s.len()
            && fence_at(s, find_fence(s, j))),
        forall|k: int| j <= k && (find_fence(s, j) == -1 || k < find_fence(s, j)) ==> !fence_at(s, k),
    decreases s.len() - j,
{
    if j + 3 <= s.len() && !fence_at(s, j) {
        lemma_find_fence(s, j + 1);
    }
}

/// The bodies of the shell blocks of `s[i..]`, in order: the leftmost
/// opening "```bash\n" or "```sh\n" whose body is closed by a later "```",
/// the body ending at the first such fence, then the search goes on after
/// that fence (the regular expression "```(?:bash|sh)\n([\s\S]*?)```").
pub open spec fn shell_blocks_from(s: Seq<char>, i: int) -> Seq<Seq<char>>
    decreases s.len() - i,
{
    if i < 0 || i >= s.len() {
        Seq::empty()
    } else {
        let c = body_start(s, i);
        let j = if c >= 0 {
            find_fence(s, c)
        } else {
            -1
        };
        if c >= 0 && j >= 0 {
            proof {
                lemma_find_fence(s, c);
            }
            seq![s.subrange(c, j)] + shell_blocks_from(s, j + 3)
        } else {
            shell_blocks_from(s, i + 1)
        }
    }
}

/// The commands of a reply: the shell block bodies, trimmed.
pub open spec fn shell_commands(s: Seq<char>) -> Seq<Seq<char>> {
    shell_blocks_from(s, 0).map_values(|b: Seq<char>| trim(b))
}

/// Every extracted command is already trimmed.
pub proof fn lemma_commands_trimmed(s: Seq<char>)
    ensures
        forall|k: int|
            0 <= k < shell_commands(s).len() ==> trim(#[trigger] shell_commands(s)[k])
                == shell_commands(s)[k],
{
    assert forall|k: int| 0 <= k < shell_commands(s).len() implies trim(
        #[trigger] shell_commands(s)[k],
    ) == shell_commands(s)[k] by {
        lemma_trim_idempotent(shell_blocks_from(s, 0)[k]);
    }
}

proof fn lemma_no_fence_blocks_from(s: Seq<char>, i: int)
    requires
        forall|j: int| !#[trigger] fence_at(s, j),
    ensures
        shell_blocks_from(s, i).len() == 0,
    decreases s.len() - i,
{
    if 0 <= i < s.len() {
        assert(!fence_at(s, i));
        lemma_no_fence_blocks_from(s, i + 1);
    }
}

/// A reply without any "```" fence holds no commands.
pub proof fn lemma_no_fence_no_commands(s: Seq<char>)
    requires
        forall|j: int| !#[trigger] fence_at(s, j),
    ensures
        shell_commands(s).len() == 0,
{
    lemma_no_fence_blocks_from(s, 0);
}

proof fn lemma_find_fence_skips(s: Seq<char>, c: int, e: int, j: int)
    requires
        0 <= c <= j <= e,
        e + 3 <= s.len(),
        fence_at(s, e),
        forall|k: int| c <= k < e ==> !#[trigger] fence_at(s, k),
    ensures
        find_fence(s, j) == e,
    decreases e - j,
{
    if j < e {
        lemma_find_fence_skips(s, c, e, j + 1);
    }
}

/// A reply made of one shell block holds exactly one command, the block's
/// body trimmed, whatever the body's length: for an opening "```bash\n"
/// (or "```sh\n" when `sh` holds), a body `b` in which no fence starts
/// (not even one running into the closing fence), and the closing "```".
pub proof fn lemma_single_block(sh: bool, b: Seq<char>)
    requires
        forall|j: int|
            0 <= j < b.len() ==> !((b + seq!['`', '`'])[j] == '`' && (b + seq!['`', '`'])[j + 1]
                == '`' && (b + seq!['`', '`'])[j + 2] == '`'),
    ensures
        ({
            let open = if sh {
                seq!['`', '`', '`', 's', 'h', '\n']
            } else {
                seq!['`', '`', '`', 'b', 'a', 's', 'h', '\n']
            };
            shell_commands(open + b + seq!['`', '`', '`']) == seq![trim(b)]
        }),
{
    let open = if sh {
        seq!['`', '`', '`', 's', 'h', '\n']
    } else {
        seq!['`', '`', '`', 'b', 'a', 's', 'h', '\n']
    };
    let s = open + b + seq!['`', '`', '`'];
    let c = open.len() as int;
    let e = c + b.len();
    let bb = b + seq!['`', '`'];
    assert(s.subrange(0, 3) =~= seq!['`', '`', '`']);
    if sh {
        assert(s.subrange(3, 6) =~= seq!['s', 'h', '\n']);
        assert(s.subrange(3, 8) != seq!['b', 'a', 's', 'h', '\n']) by {
            assert(s.subrange(3, 8)[0] == 's');
        }
    } else {
        assert(s.subrange(3, 8) =~= seq!['b', 'a', 's', 'h', '\n']);
    }
    assert(body_start(s, 0) == c);
    assert(s.subrange(e, e + 3) =~= seq!['`', '`', '`']);
    assert forall|k: int| c <= k < e implies !#[trigger] fence_at(s, k) by {
        if fence_at(s, k) {
            let t = s.subrange(k, k + 3);
            assert(t[0] == s[k] && t[1] == s[k + 1] && t[2] == s[k + 2]);
            assert(s[k] == bb[k - c]);
            assert(s[k + 1] == bb[k - c + 1]);
            assert(s[k + 2] == bb[k - c + 2]);
        }
    }
    lemma_find_fence_skips(s, c, e, c);
    assert(shell_blocks_from(s, e + 3) == Seq::<Seq<char>>::empty());
    assert(s.subrange(c, e) =~= b);
    assert(shell_blocks_from(s, 0) =~= seq![b]);
    assert(shell_commands(s) =~= seq![trim(b)]);
}

fn find_fence_exec(s: &[char], j: usize) -> (r: Option<usize>)
    ensures
        match r {
            Some(k) => find_fence(s@, j as int) == k as int,
            None => find_fence(s@, j as int) == -1,
        },
{
    let fence = ['`', '`', '`'];
    let mut k = j;
    while k < s.len() && !chars_at(s, k, &fence)
        invariant
            j <= k,
            find_fence(s@, j as int) == find_fence(s@, k as int),
            fence@ == seq!['`', '`', '`'],
        decreases s@.len() - k,
    {
        k = k + 1;
    }
    if k < s.len() {
        Some(k)
    } else {
        None
    }
}

fn body_start_exec(s: &[char], i: usize) -> (r: Option<usize>)
    requires
        i < s@.len() <= usize::MAX,
    ensures
        match r {
            Some(c) => body_start(s@, i as int) == c as int,
            None => body_start(s@, i as int) == -1,
        },
{
    if !chars_at(s, i, &['`', '`', '`']) {
        return None;
    }
    if chars_at(s, i + 3, &['b', 'a', 's', 'h', '\n']) {
        Some(i + 8)
    } else if chars_at(s, i + 3, &['s', 'h', '\n']) {
        Some(i + 6)
    } else {
        None
    }
}

impl BashRunner {
    /// The shell commands of a reply: the bodies of its "```bash" and
    /// "```sh" blocks, in order, each trimmed.
    pub fn extract_commands(full_response: &str) -> (res: Vec<String>)
        ensures
            res@.len() == shell_commands(full_response@).len(),
            forall|k: int|
                0 <= k < res@.len() ==> #[trigger] res@[k]@ == shell_commands(full_response@)[k],
    {
        let s = chars_of(full_response);
        let ghost sv = s@;
        let mut res: Vec<String> = Vec::new();
        let ghost mut found: Seq<Seq<char>> = Seq::empty();
        let mut i: usize = 0;
        while i < s.len()
            invariant
                sv == s@,
                i <= s@.len(),
                shell_blocks_from(sv, 0) == found + shell_blocks_from(sv, i as int),
                res@.len() == found.len(),
                forall|k: int| 0 <= k < res@.len() ==> #[trigger] res@[k]@ == trim(found[k]),
            decreases s@.len() - i,
        {
            let c = body_start_exec(s.as_slice(), i);
            let j = match c {
                Some(c) => find_fence_exec(s.as_slice(), c),
                None => None,
            };
            match (c, j) {
                (Some(c), Some(j)) => {
                    proof {
                        lemma_find_fence(sv, c as int);
                    }
                    let (a, b) = trim_bounds(&s.as_slice()[c..j]);
                    let cmd = string_from(&s.as_slice()[c..j], a, b);
                    let ghost body = sv.subrange(c as int, j as int);
                    proof {
                        assert(found + shell_blocks_from(sv, i as int) =~= found.push(body)
                            + shell_blocks_from(sv, j + 3));
                        found = found.push(body);
                    }
                    res.push(cmd);
                    i = j + 3;
                },
                _ => {
                    i = i + 1;
                },
            }
        }
        res
    }
}

/// `t` without one trailing carriage return.
pub open spec fn strip_cr(t: Seq<char>) -> Seq<char> {
    if t.len() > 0 && t.last() == '\r' {
        t.drop_last()
    } else {
        t
    }
}

/// `str::lines` from position `i`: pieces ended by `\n` (which, with one
/// `\r` before it, is dropped), and a last piece when text follows the
/// last `\n`.
pub open spec fn lines_from(s: Seq<char>, i: int) -> Seq<Seq<char>>
    decreases s.len() - i,
{
    if i < 0 || i >= s.len() {
        Seq::empty()
    } else {
        let e = line_end(s, i);
        proof {
            lemma_line_end(s, i);
        }
        if e < s.len() {
            seq![strip_cr(s.subrange(i, e))] + lines_from(s, e + 1)
        } else {
            seq![s.subrange(i, e)]
        }
    }
}

/// The lines of `s`, as `str::lines` yields them.
pub open spec fn lines(s: Seq<char>) -> Seq<Seq<char>> {
    lines_from(s, 0)
}

/// The second and later lines of a preview: the first `n` lines, each
/// after a newline and five spaces.
pub open spec fn preview_body(ls: Seq<Seq<char>>, n: int) -> Seq<char>
    decreases n,
{
    if n <= 0 {
        Seq::empty()
    } else if n == 1 {
        ls[0]
    } else {
        preview_body(ls, n - 1) + seq!['\n', ' ', ' ', ' ', ' ', ' '] + ls[n - 1]
    }
}

/// The preview of command number `index`: " [index] " and its first line,
/// then each further line indented under it; " [index]" for an empty
/// command.
pub open spec fn preview(index: nat, cmd: Seq<char>) -> Seq<char> {
    let ls = lines(cmd);
    if ls.len() == 0 {
        seq![' ', '['] + decimal(index) + seq![']']
    } else {
        seq![' ', '['] + decimal(index) + seq![']', ' '] + preview_body(ls, ls.len() as int)
    }
}

proof fn lemma_preview_body_prefix(a: Seq<Seq<char>>, x: Seq<char>, n: int)
    requires
        0 <= n <= a.len(),
    ensures
        preview_body(a.push(x), n) == preview_body(a, n),
    decreases n,
{
    if n > 1 {
        lemma_preview_body_prefix(a, x, n - 1);
        assert(a.push(x)[n - 1] == a[n - 1]);
    } else if n == 1 {
        assert(a.push(x)[0] == a[0]);
    }
}

proof fn lemma_line_end_prefix(x: Seq<char>, y: Seq<char>, i: int)
    requires
        0 <= i <= x.len(),
    ensures
        line_end(x, i) < x.len() ==> line_end(x + y, i) == line_end(x, i),
        line_end(x, i) == x.len() ==> line_end(x + y, i) == x.len() + line_end(y, 0),
    decreases x.len() + y.len() - i,
{
    if i < x.len() {
        assert((x + y)[i] == x[i]);
        if x[i] != '\n' {
            lemma_line_end_prefix(x, y, i + 1);
        }
    } else {
        lemma_line_end_suffix(x, y, 0);
    }
}

proof fn lemma_line_end_suffix(x: Seq<char>, y: Seq<char>, j: int)
    requires
        0 <= j <= y.len(),
    ensures
        line_end(x + y, x.len() + j) == x.len() + line_end(y, j),
    decreases y.len() - j,
{
    if j < y.len() {
        assert((x + y)[x.len() + j] == y[j]);
        if y[j] != '\n' {
            lemma_line_end_suffix(x, y, j + 1);
        }
    }
}

proof fn lemma_no_newline_line_end(b: Seq<char>, j: int)
    requires
        0 <= j <= b.len(),
        forall|k: int| 0 <= k < b.len() ==> b[k] != '\n',
    ensures
        line_end(b, j) == b.len(),
    decreases b.len() - j,
{
    if j < b.len() {
        lemma_no_newline_line_end(b, j + 1);
    }
}

proof fn lemma_lines_append_line(a: Seq<char>, b: Seq<char>, i: int)
    requires
        0 <= i < a.len(),
        a.last() != '\n',
        a.last() != '\r',
        b.len() > 0,
        forall|k: int| 0 <= k < b.len() ==> b[k] != '\n',
    ensures
        lines_from(a + seq!['\n'] + b, i) == lines_from(a, i).push(b),
    decreases a.len() - i,
{
    let s = a + seq!['\n'] + b;
    let y = seq!['\n'] + b;
    assert(s =~= a + y);
    lemma_line_end(a, i);
    lemma_line_end_prefix(a, y, i);
    let e = line_end(a, i);
    if e < a.len() {
        assert(s.subrange(i, e) =~= a.subrange(i, e));
        assert(e + 1 < a.len());
        lemma_lines_append_line(a, b, e + 1);
        assert(lines_from(s, i) =~= lines_from(a, i).push(b));
    } else {
        assert(line_end(y, 0) == 0);
        assert(s.subrange(i, e) =~= a.subrange(i, e));
        assert(a.subrange(i, e).last() == a.last());
        assert(strip_cr(a.subrange(i, e)) == a.subrange(i, e));
        let k = a.len() + 1int;
        assert(s.subrange(k, s.len() as int) =~= b);
        lemma_no_newline_line_end(b, 0);
        lemma_line_end_suffix(a + seq!['\n'], b, 0);
        assert(line_end(s, k) == s.len());
        assert(lines_from(s, k) =~= seq![b]);
        assert(lines_from(s, i) =~= lines_from(a, i).push(b));
    }
}

/// Every line of a command shows in its preview: a one-line command `b`
/// shows as " [n] " and `b`, and adding a line `b` to a command `a` adds a
/// newline, five spaces and `b` to the end of its preview, however many
/// lines `a` already has.
pub proof fn lemma_preview_shows_every_line(n: nat, a: Seq<char>, b: Seq<char>)
    requires
        b.len() > 0,
        forall|k: int| 0 <= k < b.len() ==> b[k] != '\n',
    ensures
        preview(n, b) == seq![' ', '['] + decimal(n) + seq![']', ' '] + b,
        a.len() > 0 && a.last() != '\n' && a.last() != '\r' ==> preview(n, a + seq!['\n'] + b)
            == preview(n, a) + seq!['\n', ' ', ' ', ' ', ' ', ' '] + b,
{
    lemma_no_newline_line_end(b, 0);
    assert(b.subrange(0, b.len() as int) =~= b);
    assert(lines(b) =~= seq![b]);
    if a.len() > 0 && a.last() != '\n' && a.last() != '\r' {
        lemma_lines_append_line(a, b, 0);
        let la = lines(a);
        lemma_line_end(a, 0);
        assert(la.len() > 0);
        lemma_preview_body_prefix(la, b, la.len() as int);
        let ls = la.push(b);
        assert(preview_body(ls, ls.len() as int) == preview_body(la, la.len() as int)
            + seq!['\n', ' ', ' ', ' ', ' ', ' '] + b);
        assert(preview(n, a + seq!['\n'] + b) =~= preview(n, a) + seq![
            '\n',
            ' ',
            ' ',
            ' ',
            ' ',
            ' ',
        ] + b);
    }
}

impl BashRunner {
    /// The preview of command number `index`: " [index] " followed by the
    /// command's first line, each further line on a line of its own
    /// indented by five spaces; " [index]" when the command has no lines.
    pub fn format_command_preview(index: usize, cmd: &str) -> (res: String)
        ensures
            res@ == preview(index as nat, cmd@),
    {
        let s = chars_of(cmd);
        let ghost sv = s@;
        let num = decimal_chars(index);
        let mut out: Vec<char> = Vec::new();
        let ghost mut done: Seq<Seq<char>> = Seq::empty();
        let head = [' ', '['];
        let sep = ['\n', ' ', ' ', ' ', ' ', ' '];
        let mut i: usize = 0;
        let mut first = true;
        while i < s.len()
            invariant
                sv == s@,
                i <= s@.len(),
                first == (done.len() == 0),
                num@ == decimal(index as nat),
                head@ == seq![' ', '['],
                sep@ == seq!['\n', ' ', ' ', ' ', ' ', ' '],
                lines(sv) == done + lines_from(sv, i as int),
                done.len() == 0 ==> out@ == Seq::<char>::empty(),
                done.len() > 0 ==> out@ == seq![' ', '['] + decimal(index as nat) + seq![']', ' ']
                    + preview_body(done, done.len() as int),
            decreases s@.len() - i,
        {
            let e = line_end_exec(s.as_slice(), i);
            proof {
                lemma_line_end(sv, i as int);
            }
            let mut stop = e;
            if e < s.len() && e > i && s[e - 1] == '\r' {
                stop = e - 1;
            }
            let ghost line = sv.subrange(i as int, stop as int);
            proof {
                if e < sv.len() {
                    assert(line =~= strip_cr(sv.subrange(i as int, e as int)));
                } else {
                    assert(line =~= sv.subrange(i as int, e as int));
                }
            }
            let ghost prev = out@;
            if first {
                append_chars(&mut out, &head);
                append_chars(&mut out, num.as_slice());
                out.push(']');
                out.push(' ');
            } else {
                append_chars(&mut out, &sep);
            }
            append_chars(&mut out, &s.as_slice()[i..stop]);
            proof {
                lemma_preview_body_prefix(done, line, done.len() as int);
                let nd = done.push(line);
                if done.len() == 0 {
                    assert(preview_body(nd, 1) == line);
                    assert(out@ =~= seq![' ', '['] + decimal(index as nat) + seq![']', ' ']
                        + preview_body(nd, 1));
                } else {
                    assert(preview_body(nd, nd.len() as int) == preview_body(done, done.len() as int)
                        + seq!['\n', ' ', ' ', ' ', ' ', ' '] + line);
                    assert(out@ =~= seq![' ', '['] + decimal(index as nat) + seq![']', ' ']
                        + preview_body(nd, nd.len() as int));
                }
                if e < sv.len() {
                    assert(done + lines_from(sv, i as int) =~= nd + lines_from(sv, e + 1));
                } else {
                    assert(done + lines_from(sv, i as int) =~= nd + lines_from(sv, sv.len() as int));
                }
                done = nd;
            }
            first = false;
            if e < s.len() {
                i = e + 1;
            } else {
                i = s.len();
            }
        }
        if first {
            append_chars(&mut out, &head);
            append_chars(&mut out, num.as_slice());
            out.push(']');
            assert(out@ =~= seq![' ', '['] + decimal(index as nat) + seq![']']);
        }
        let r = string_from(out.as_slice(), 0, out.len());
        assert(out@.subrange(0, out@.len() as int) =~= out@);
        r
    }
}

/// What the user's answer to "which command?" asks for.
#[derive(Debug, Clone, Copy, PartialEq, Eq)]
pub enum CommandChoice {
    /// An empty answer: run nothing.
    Cancel,
    /// "all": run every command, in order.
    RunAll,
    /// A number from 1 to the count: run the command at this 0-based index.
    Run(usize),
    /// A number outside 1 to the count.
    OutOfRange,
    /// Anything else.
    Unrecognized,
}

/// The choice an answer expresses, when `count` commands were offered:
/// the answer is trimmed; empty cancels, "all" runs all, a number `k`
/// (as `usize::from_str` reads it) with `1 <= k <= count` runs command
/// `k - 1`, another number is out of range, and anything else is not
/// recognised.
pub open spec fn choice_of(input: Seq<char>, count: nat) -> CommandChoice {
    let t = trim(input);
    if t.len() == 0 {
        CommandChoice::Cancel
    } else if t == seq!['a', 'l', 'l'] {
        CommandChoice::RunAll
    } else {
        match parse_usize(t) {
            Some(k) => if 0 < k <= count {
                CommandChoice::Run((k - 1) as usize)
            } else {
                CommandChoice::OutOfRange
            },
            None => CommandChoice::Unrecognized,
        }
    }
}

impl BashRunner {
    /// Reads the user's answer when `count` commands were offered.
    pub fn interpret_choice(input: &str, count: usize) -> (c: CommandChoice)
        ensures
            c == choice_of(input@, count as nat),
    {
        let s = chars_of(input);
        let (a, b) = trim_bounds(s.as_slice());
        let t = &s.as_slice()[a..b];
        if t.len() == 0 {
            return CommandChoice::Cancel;
        }
        let all = ['a', 'l', 'l'];
        if t.len() == 3 && chars_at(t, 0, &all) {
            assert(t@ =~= seq!['a', 'l', 'l']);
            return CommandChoice::RunAll;
        }
        proof {
            if t@ == seq!['a', 'l', 'l'] {
                assert(t@.subrange(0, 3) =~= t@);
            }
        }
        match parse_usize_exec(t) {
            Some(k) => if 0 < k && k <= count {
                CommandChoice::Run(k - 1)
            } else {
                CommandChoice::OutOfRange
            },
            None => CommandChoice::Unrecognized,
        }
    }
}

/// The number a command's preview shows selects that command: the preview
/// of command `k` of `count` (numbered from 1, so shown as `k + 1`) starts
/// with " [", the numeral of `k + 1` and "]", and answering with that
/// numeral chooses command `k`.
pub proof fn lemma_preview_number_selects(k: usize, count: usize, cmd: Seq<char>)
    requires
        k < count,
    ensures
        ({
            let d = decimal(k as nat + 1);
            &&& preview(k as nat + 1, cmd).subrange(0, d.len() + 3int) == seq![' ', '['] + d
                + seq![']']
            &&& choice_of(d, count as nat) == CommandChoice::Run(k)
        }),
{
    let n = (k + 1) as usize;
    let d = decimal(n as nat);
    lemma_decimal_value(n as nat);
    assert(!is_space(d[0]));
    assert(!is_space(d.last()));
    lemma_trim_unchanged(d);
    assert(d[0] != 'a');
    lemma_parse_decimal(n);
    let p = preview(n as nat, cmd);
    assert(p.subrange(0, d.len() + 3int) =~= seq![' ', '['] + d + seq![']']);
}

} // verus!
