use vstd::prelude::*;
use crate::builder::{CommandView, EnvEntryView};

verus! {

/// The shell whose quoting rules a rendering follows.
#[derive(Clone, Copy, Debug, PartialEq, Eq, Structural)]
pub enum ShellStyle {
    /// A POSIX-like shell: `NAME=value program args`.
    Posix,
    /// The Windows command interpreter: `set NAME=value&& program args`.
    Cmd,
}

/// A character that a POSIX shell reads literally, so that a word made only
/// of them needs no quoting.
pub open spec fn is_plain_char(c: char) -> bool {
    ('a' <= c && c <= 'z') || ('A' <= c && c <= 'Z') || ('0' <= c && c <= '9') || c == '-' || c == '_'
        || c == '=' || c == '/' || c == ',' || c == '.' || c == '+'
}

/// One character inside single quotes: a quote or `!` closes the quotes,
/// is written escaped, and reopens them.
pub open spec fn quote_char(c: char) -> Seq<char> {
    if c == '\'' || c == '!' {
        seq!['\'', '\\', c, '\'']
    } else {
        seq![c]
    }
}

pub open spec fn quote_body(s: Seq<char>) -> Seq<char>
    decreases s.len(),
{
    if s.len() == 0 {
        Seq::empty()
    } else {
        quote_char(s[0]) + quote_body(s.drop_first())
    }
}

/// A word as a POSIX shell should be given it: unchanged where it is
/// non-empty and plain, else in single quotes.
pub open spec fn posix_quoted(s: Seq<char>) -> Seq<char> {
    if s.len() > 0 && forall|i: int| 0 <= i < s.len() ==> is_plain_char(#[trigger] s[i]) {
        s
    } else {
        seq!['\''] + quote_body(s) + seq!['\'']
    }
}

/// A word without `'` or `!` is quoted by enclosing it in single quotes,
/// which a POSIX shell strips again, giving back the word; a word with a
/// character that is not plain (a space, say) is always enclosed.
pub proof fn lemma_posix_quote_encloses(s: Seq<char>)
    requires
        forall|i: int| 0 <= i < s.len() ==> #[trigger] s[i] != '\'' && s[i] != '!',
    ensures
        quote_body(s) == s,
        (exists|i: int| 0 <= i < s.len() && !is_plain_char(#[trigger] s[i])) ==> posix_quoted(s) == seq!['\'']
            + s + seq!['\''],
    decreases s.len(),
{
    if s.len() > 0 {
        lemma_posix_quote_encloses(s.drop_first());
        assert(seq![s[0]] + s.drop_first() =~= s);
    }
}

/// `w` with `c` in front, where there is a word.
pub open spec fn prepend(c: char, w: Option<Seq<char>>) -> Option<Seq<char>> {
    match w {
        Some(w) => Some(seq![c] + w),
        None => None,
    }
}

/// How a POSIX shell reads `t` as a single word, `quoted` saying whether a
/// single-quoted part is open: inside it every character but `'` stands for
/// itself; outside it a `'` opens one, a `\` makes the next character stand
/// for itself, and a plain character stands for itself. `None` where `t`
/// is not one literal word: an unclosed quote, a blank that would split it,
/// or a character that the shell would interpret.
pub open spec fn read_word(t: Seq<char>, quoted: bool) -> Option<Seq<char>>
    decreases t.len(),
{
    if t.len() == 0 {
        if quoted {
            None
        } else {
            Some(Seq::empty())
        }
    } else if quoted {
        if t[0] == '\'' {
            read_word(t.drop_first(), false)
        } else {
            prepend(t[0], read_word(t.drop_first(), true))
        }
    } else if t[0] == '\'' {
        read_word(t.drop_first(), true)
    } else if t[0] == '\\' {
        if t.len() < 2 {
            None
        } else {
            prepend(t[1], read_word(t.subrange(2, t.len() as int), false))
        }
    } else if is_plain_char(t[0]) {
        prepend(t[0], read_word(t.drop_first(), false))
    } else {
        None
    }
}

proof fn lemma_read_plain(s: Seq<char>)
    requires
        forall|i: int| 0 <= i < s.len() ==> is_plain_char(#[trigger] s[i]),
    ensures
        read_word(s, false) == Some(s),
    decreases s.len(),
{
    if s.len() > 0 {
        lemma_read_plain(s.drop_first());
        assert(seq![s[0]] + s.drop_first() =~= s);
    }
}

proof fn lemma_read_quoted_body(s: Seq<char>)
    ensures
        read_word(quote_body(s) + seq!['\''], true) == Some(s),
    decreases s.len(),
{
    if s.len() == 0 {
        assert(quote_body(s) + seq!['\''] =~= seq!['\'']);
        assert(seq!['\''].drop_first() =~= Seq::<char>::empty());
        assert(read_word(seq!['\''], true) == read_word(Seq::<char>::empty(), false));
        assert(s =~= Seq::<char>::empty());
    } else {
        let c = s[0];
        let rest = quote_body(s.drop_first()) + seq!['\''];
        lemma_read_quoted_body(s.drop_first());
        assert(seq![c] + s.drop_first() =~= s);
        let t = quote_body(s) + seq!['\''];
        if c == '\'' || c == '!' {
            assert(t =~= seq!['\'', '\\', c, '\''] + rest);
            let t1 = t.drop_first();
            assert(t1 =~= seq!['\\', c, '\''] + rest);
            let t2 = seq!['\''] + rest;
            assert(t1.subrange(2, t1.len() as int) =~= t2);
            assert(t2.drop_first() =~= rest);
            assert(read_word(t2, false) == read_word(rest, true));
            assert(t1[0] == '\\' && t1[1] == c);
            assert(read_word(t1, false) == prepend(c, read_word(t2, false)));
            assert(read_word(t, true) == read_word(t1, false));
        } else {
            assert(t =~= seq![c] + rest);
            assert(t.drop_first() =~= rest);
            assert(read_word(t, true) == prepend(c, read_word(rest, true)));
        }
    }
}

/// Quoting for a POSIX shell loses nothing: the shell reads the quoted text
/// back as exactly one word, the original one (a space in it does not
/// split it).
pub proof fn lemma_posix_quoted_reads_back(s: Seq<char>)
    ensures
        read_word(posix_quoted(s), false) == Some(s),
{
    if s.len() > 0 && forall|i: int| 0 <= i < s.len() ==> is_plain_char(#[trigger] s[i]) {
        lemma_read_plain(s);
    } else {
        lemma_read_quoted_body(s);
        let t = posix_quoted(s);
        assert(t =~= seq!['\''] + (quote_body(s) + seq!['\'']));
        assert(t.drop_first() =~= quote_body(s) + seq!['\'']);
    }
}

/// A character that makes the Windows command interpreter split or
/// misread a word.
pub open spec fn is_cmd_special(c: char) -> bool {
    c == '"' || c == '\t' || c == '\n' || c == ' '
}

/// `n` backslashes.
pub open spec fn backslashes(n: nat) -> Seq<char> {
    Seq::new(n, |i: int| '\\')
}

/// The inside of a double-quoted word for the Windows command interpreter,
/// where `n` backslashes have been read and not yet written: a run of
/// backslashes is doubled (and one more added) before a `"`, kept as it is
/// before any other character, and doubled at the end.
pub open spec fn cmd_body(s: Seq<char>, n: nat) -> Seq<char>
    decreases s.len(),
{
    if s.len() == 0 {
        backslashes(2 * n)
    } else if s[0] == '\\' {
        cmd_body(s.drop_first(), n + 1)
    } else if s[0] == '"' {
        backslashes(2 * n + 1) + seq!['"'] + cmd_body(s.drop_first(), 0)
    } else {
        backslashes(n) + seq![s[0]] + cmd_body(s.drop_first(), 0)
    }
}

/// A word as the Windows command interpreter should be given it: unchanged
/// where it is non-empty and holds no quote, tab, newline or space, else in
/// double quotes.
pub open spec fn cmd_quoted(s: Seq<char>) -> Seq<char> {
    if s.len() > 0 && forall|i: int| 0 <= i < s.len() ==> !is_cmd_special(#[trigger] s[i]) {
        s
    } else {
        seq!['"'] + cmd_body(s, 0) + seq!['"']
    }
}

/// Relies on `shell_escape::unix::escape`: a non-empty word of plain
/// characters comes back as it is; any other goes in single quotes, with
/// each `'` and `!` written as `'\'` + the character + `'`.
#[verifier::external_body]
fn posix_escape(s: &str) -> (r: String)
    ensures
        r@ == posix_quoted(s@),
{
    shell_escape::unix::escape(std::borrow::Cow::Borrowed(s)).into_owned()
}

/// Relies on `shell_escape::windows::escape`: a non-empty word without a
/// quote, tab, newline or space comes back as it is; any other goes in
/// double quotes, backslashes doubled before a quote (which gets one more)
/// and at the end.
#[verifier::external_body]
fn cmd_escape(s: &str) -> (r: String)
    ensures
        r@ == cmd_quoted(s@),
{
    shell_escape::windows::escape(std::borrow::Cow::Borrowed(s)).into_owned()
}

/// A word quoted for `style`.
pub open spec fn quoted(s: Seq<char>, style: ShellStyle) -> Seq<char> {
    match style {
        ShellStyle::Posix => posix_quoted(s),
        ShellStyle::Cmd => cmd_quoted(s),
    }
}

/// Quotes one word for `style`.
pub fn quote_word(s: &str, style: ShellStyle) -> (r: String)
    ensures
        r@ == quoted(s@, style),
{
    match style {
        ShellStyle::Posix => posix_escape(s),
        ShellStyle::Cmd => cmd_escape(s),
    }
}

/// The text that shows one assignment of `k` to `v`.
pub open spec fn assignment(k: Seq<char>, v: Seq<char>, style: ShellStyle) -> Seq<char> {
    match style {
        ShellStyle::Posix => k + seq!['='] + quoted(v, style) + seq![' '],
        ShellStyle::Cmd => seq!['s', 'e', 't', ' '] + k + seq!['='] + quoted(v, style) + seq!['&', '&', ' '],
    }
}

/// The assignments shown before the program: one per entry that sets a
/// value, in overlay order; unset entries show nothing.
pub open spec fn env_prefix(env: Seq<EnvEntryView>, style: ShellStyle) -> Seq<char>
    decreases env.len(),
{
    if env.len() == 0 {
        Seq::empty()
    } else {
        env_prefix(env.drop_last(), style) + match env.last().1 {
            Some(v) => assignment(env.last().0, v, style),
            None => Seq::empty(),
        }
    }
}

/// Each argument, quoted and preceded by a space.
pub open spec fn args_suffix(args: Seq<Seq<char>>, style: ShellStyle) -> Seq<char>
    decreases args.len(),
{
    if args.len() == 0 {
        Seq::empty()
    } else {
        args_suffix(args.drop_last(), style) + seq![' '] + quoted(args.last(), style)
    }
}

/// The whole rendering of a command, between backquotes.
pub open spec fn rendered(b: CommandView, style: ShellStyle) -> Seq<char> {
    seq!['`'] + (if b.display_env_vars {
        env_prefix(b.env, style)
    } else {
        Seq::empty()
    }) + b.program + args_suffix(b.args, style) + seq!['`']
}

} // verus!
