//! JSON with comments.
use crate::text::{chars_of, string_of};
use vstd::prelude::*;

verus! {

/// Where in a text a reader is.
#[derive(Clone, Copy, Debug, PartialEq, Eq, Structural)]
pub enum Mode {
    /// Outside strings and comments.
    Code,
    InString,
    /// In a string, behind a backslash.
    Escaped,
    /// In a comment that ends with the line.
    LineComment,
    /// In a comment that ends with `*/`.
    BlockComment,
}

/// What is left of a text when every character of a comment but the line feeds
/// is replaced by a space. A comment starts with `//` or `/*` outside strings.
pub open spec fn blanked(s: Seq<char>, mode: Mode) -> Seq<char>
    decreases s.len(),
{
    if s.len() == 0 {
        Seq::empty()
    } else {
        let c = s[0];
        let rest = s.drop_first();
        match mode {
            Mode::Code => if c == '/' && rest.len() > 0 && rest[0] == '/' {
                seq![' ', ' '] + blanked(rest.drop_first(), Mode::LineComment)
            } else if c == '/' && rest.len() > 0 && rest[0] == '*' {
                seq![' ', ' '] + blanked(rest.drop_first(), Mode::BlockComment)
            } else if c == '"' {
                seq![c] + blanked(rest, Mode::InString)
            } else {
                seq![c] + blanked(rest, Mode::Code)
            },
            Mode::InString => if c == '\\' {
                seq![c] + blanked(rest, Mode::Escaped)
            } else if c == '"' {
                seq![c] + blanked(rest, Mode::Code)
            } else {
                seq![c] + blanked(rest, Mode::InString)
            },
            Mode::Escaped => seq![c] + blanked(rest, Mode::InString),
            Mode::LineComment => if c == '\n' {
                seq![c] + blanked(rest, Mode::Code)
            } else {
                seq![' '] + blanked(rest, Mode::LineComment)
            },
            Mode::BlockComment => if c == '*' && rest.len() > 0 && rest[0] == '/' {
                seq![' ', ' '] + blanked(rest.drop_first(), Mode::Code)
            } else if c == '\n' {
                seq![c] + blanked(rest, Mode::BlockComment)
            } else {
                seq![' '] + blanked(rest, Mode::BlockComment)
            },
        }
    }
}

/// Replaces the comments in a text by spaces, so that every other character
/// stays in its line and column.
pub fn strip_comments(text: &str) -> (r: String)
    ensures
        r@ == blanked(text@, Mode::Code),
{
    let s: Vec<char> = chars_of(text);
    let mut out: Vec<char> = Vec::new();
    let mut mode: Mode = Mode::Code;
    let mut i: usize = 0;
    assert(s@.skip(0) =~= s@);
    assert(out@ + blanked(s@.skip(0), mode) =~= blanked(s@, Mode::Code));
    while i < s.len()
        invariant
            i <= s@.len(),
            out@ + blanked(s@.skip(i as int), mode) == blanked(s@, Mode::Code),
        decreases s@.len() - i,
    {
        let c: char = s[i];
        let ghost before: Seq<char> = out@;
        let ghost left: Seq<char> = s@.skip(i as int);
        assert(left[0] == c);
        assert(left.drop_first() =~= s@.skip(i + 1));
        let pair: bool = i + 1 < s.len() && match mode {
            Mode::Code => c == '/' && (s[i + 1] == '/' || s[i + 1] == '*'),
            Mode::BlockComment => c == '*' && s[i + 1] == '/',
            _ => false,
        };
        if pair {
            assert(left.drop_first()[0] == s@[i + 1]);
            assert(left.drop_first().drop_first() =~= s@.skip(i + 2));
            let next: Mode = match mode {
                Mode::Code => if s[i + 1] == '/' {
                    Mode::LineComment
                } else {
                    Mode::BlockComment
                },
                _ => Mode::Code,
            };
            out.push(' ');
            out.push(' ');
            assert(out@ + blanked(s@.skip(i + 2), next) =~= before + (seq![' ', ' '] + blanked(
                s@.skip(i + 2),
                next,
            )));
            mode = next;
            i = i + 2;
        } else {
            let shown: char = match mode {
                Mode::LineComment | Mode::BlockComment => if c == '\n' {
                    c
                } else {
                    ' '
                },
                _ => c,
            };
            let next: Mode = match mode {
                Mode::Code => if c == '"' {
                    Mode::InString
                } else {
                    Mode::Code
                },
                Mode::InString => if c == '\\' {
                    Mode::Escaped
                } else if c == '"' {
                    Mode::Code
                } else {
                    Mode::InString
                },
                Mode::Escaped => Mode::InString,
                Mode::LineComment => if c == '\n' {
                    Mode::Code
                } else {
                    Mode::LineComment
                },
                Mode::BlockComment => Mode::BlockComment,
            };
            assert(i + 1 < s@.len() ==> left.drop_first()[0] == s@[i + 1]);
            out.push(shown);
            assert(out@ + blanked(s@.skip(i + 1), next) =~= before + (seq![shown] + blanked(
                s@.skip(i + 1),
                next,
            )));
            mode = next;
            i = i + 1;
        }
    }
    assert(out@ + blanked(s@.skip(i as int), mode) =~= out@);
    string_of(&out)
}

/// Stripping comments keeps the length of a text.
pub proof fn blanking_keeps_length(s: Seq<char>, mode: Mode)
    ensures
        blanked(s, mode).len() == s.len(),
    decreases s.len(),
{
    if s.len() > 0 {
        let rest = s.drop_first();
        blanking_keeps_length(rest, Mode::Code);
        blanking_keeps_length(rest, Mode::InString);
        blanking_keeps_length(rest, Mode::Escaped);
        blanking_keeps_length(rest, Mode::LineComment);
        blanking_keeps_length(rest, Mode::BlockComment);
        if rest.len() > 0 {
            blanking_keeps_length(rest.drop_first(), Mode::Code);
            blanking_keeps_length(rest.drop_first(), Mode::LineComment);
            blanking_keeps_length(rest.drop_first(), Mode::BlockComment);
        }
    }
}

/// Stripping comments changes no character but to a space, and keeps every line
/// feed in its place.
pub proof fn blanking_keeps_lines(s: Seq<char>, mode: Mode, i: int)
    requires
        0 <= i < s.len(),
    ensures
        blanked(s, mode)[i] == s[i] || blanked(s, mode)[i] == ' ',
        blanked(s, mode)[i] == '\n' <==> s[i] == '\n',
    decreases s.len(),
{
    let rest = s.drop_first();
    let next = rest.drop_first();
    blanking_keeps_length(s, mode);
    if i >= 1 {
        blanking_keeps_lines(rest, Mode::Code, i - 1);
        blanking_keeps_lines(rest, Mode::InString, i - 1);
        blanking_keeps_lines(rest, Mode::Escaped, i - 1);
        blanking_keeps_lines(rest, Mode::LineComment, i - 1);
        blanking_keeps_lines(rest, Mode::BlockComment, i - 1);
    }
    if i >= 2 {
        blanking_keeps_lines(next, Mode::Code, i - 2);
        blanking_keeps_lines(next, Mode::LineComment, i - 2);
        blanking_keeps_lines(next, Mode::BlockComment, i - 2);
    }
}

/// A text without a slash has no comment, and stripping leaves it alone.
pub proof fn blanking_leaves_plain_text(s: Seq<char>, mode: Mode)
    requires
        !s.contains('/'),
        mode == Mode::Code || mode == Mode::InString || mode == Mode::Escaped,
    ensures
        blanked(s, mode) == s,
    decreases s.len(),
{
    if s.len() > 0 {
        let rest = s.drop_first();
        assert(s[0] != '/') by {
            assert(s.contains(s[0]));
        }
        assert(!rest.contains('/')) by {
            if rest.contains('/') {
                let i = choose|i: int| 0 <= i < rest.len() && rest[i] == '/';
                assert(s[i + 1] == '/');
            }
        }
        blanking_leaves_plain_text(rest, Mode::Code);
        blanking_leaves_plain_text(rest, Mode::InString);
        blanking_leaves_plain_text(rest, Mode::Escaped);
        assert(seq![s[0]] + rest =~= s);
    }
}

/// Where a reader is in a stripped text when it is at `mode` in the text.
pub open spec fn outside_comments(mode: Mode) -> Mode {
    match mode {
        Mode::LineComment | Mode::BlockComment => Mode::Code,
        _ => mode,
    }
}

/// Stripping a stripped text changes nothing.
pub proof fn blanking_is_idempotent(s: Seq<char>, mode: Mode)
    ensures
        blanked(blanked(s, mode), outside_comments(mode)) == blanked(s, mode),
    decreases s.len(),
{
    if s.len() > 0 {
        let c = s[0];
        let rest = s.drop_first();
        let out = blanked(s, mode);
        blanking_is_idempotent(rest, Mode::Code);
        blanking_is_idempotent(rest, Mode::InString);
        blanking_is_idempotent(rest, Mode::Escaped);
        blanking_is_idempotent(rest, Mode::LineComment);
        blanking_is_idempotent(rest, Mode::BlockComment);
        if rest.len() > 0 {
            blanking_is_idempotent(rest.drop_first(), Mode::Code);
            blanking_is_idempotent(rest.drop_first(), Mode::LineComment);
            blanking_is_idempotent(rest.drop_first(), Mode::BlockComment);
        }
        let pair = rest.len() > 0 && match mode {
            Mode::Code => c == '/' && (rest[0] == '/' || rest[0] == '*'),
            Mode::BlockComment => c == '*' && rest[0] == '/',
            _ => false,
        };
        if pair {
            let next = match mode {
                Mode::Code => if rest[0] == '/' {
                    Mode::LineComment
                } else {
                    Mode::BlockComment
                },
                _ => Mode::Code,
            };
            let tail = blanked(rest.drop_first(), next);
            assert(out == seq![' ', ' '] + tail);
            assert(out.drop_first() =~= seq![' '] + tail);
            assert(out.drop_first().drop_first() =~= tail);
            assert(blanked(out.drop_first(), Mode::Code) == seq![' '] + blanked(tail, Mode::Code));
            assert(seq![' '] + (seq![' '] + tail) =~= out);
        } else {
            let next = match mode {
                Mode::Code => if c == '"' {
                    Mode::InString
                } else {
                    Mode::Code
                },
                Mode::InString => if c == '\\' {
                    Mode::Escaped
                } else if c == '"' {
                    Mode::Code
                } else {
                    Mode::InString
                },
                Mode::Escaped => Mode::InString,
                Mode::LineComment => if c == '\n' {
                    Mode::Code
                } else {
                    Mode::LineComment
                },
                Mode::BlockComment => Mode::BlockComment,
            };
            let tail = blanked(rest, next);
            assert(out.drop_first() =~= tail);
            assert(out =~= seq![out[0]] + tail);
            if mode == Mode::Code && c == '/' && tail.len() > 0 {
                blanking_keeps_length(rest, Mode::Code);
                assert(rest.len() > 0);
                assert(tail[0] == rest[0]);
            }
        }
    }
}

/// What is neither a quote nor a slash stays, and so does a slash that starts no
/// comment.
pub proof fn code_stays(c: char, rest: Seq<char>)
    requires
        c != '"',
        c == '/' && rest.len() > 0 ==> rest[0] != '/' && rest[0] != '*',
    ensures
        blanked(seq![c] + rest, Mode::Code) == seq![c] + blanked(rest, Mode::Code),
        blanked(Seq::empty(), Mode::Code) == Seq::<char>::empty(),
{
    assert((seq![c] + rest).drop_first() =~= rest);
}

/// A string stays as it is, slashes and all, up to the quote that ends it.
pub proof fn strings_stay(text: Seq<char>, rest: Seq<char>)
    requires
        !text.contains('"'),
        !text.contains('\\'),
    ensures
        blanked(seq!['"'] + text + seq!['"'] + rest, Mode::Code) == seq!['"'] + text + seq!['"']
            + blanked(rest, Mode::Code),
{
    let whole: Seq<char> = seq!['"'] + text + seq!['"'] + rest;
    lemma_string_stays(text, rest);
    assert(whole.drop_first() =~= text + seq!['"'] + rest);
    assert(seq!['"'] + (text + seq!['"'] + blanked(rest, Mode::Code)) =~= seq!['"'] + text + seq![
        '"',
    ] + blanked(rest, Mode::Code));
}

/// The rest of a string, up to the quote that ends it.
proof fn lemma_string_stays(text: Seq<char>, rest: Seq<char>)
    requires
        !text.contains('"'),
        !text.contains('\\'),
    ensures
        blanked(text + seq!['"'] + rest, Mode::InString) == text + seq!['"'] + blanked(
            rest,
            Mode::Code,
        ),
    decreases text.len(),
{
    let whole: Seq<char> = text + seq!['"'] + rest;
    if text.len() == 0 {
        assert(whole.drop_first() =~= rest);
        assert(text + seq!['"'] + blanked(rest, Mode::Code) =~= seq!['"'] + blanked(
            rest,
            Mode::Code,
        ));
    } else {
        let tail: Seq<char> = text.drop_first();
        assert(text[0] != '"' && text[0] != '\\');
        assert(!tail.contains('"') && !tail.contains('\\')) by {
            if tail.contains('"') {
                let i = choose|i: int| 0 <= i < tail.len() && tail[i] == '"';
                assert(text[i + 1] == '"');
            }
            if tail.contains('\\') {
                let i = choose|i: int| 0 <= i < tail.len() && tail[i] == '\\';
                assert(text[i + 1] == '\\');
            }
        }
        lemma_string_stays(tail, rest);
        assert(whole.drop_first() =~= tail + seq!['"'] + rest);
        assert(seq![text[0]] + (tail + seq!['"'] + blanked(rest, Mode::Code)) =~= text + seq!['"']
            + blanked(rest, Mode::Code));
    }
}

/// In a string a backslash and what follows it stay, be that a quote, and the
/// string goes on.
pub proof fn escapes_stay(c: char, rest: Seq<char>)
    ensures
        blanked(seq!['\\', c] + rest, Mode::InString) == seq!['\\', c] + blanked(
            rest,
            Mode::InString,
        ),
{
    let whole: Seq<char> = seq!['\\', c] + rest;
    assert(whole.drop_first() =~= seq![c] + rest);
    assert((seq![c] + rest).drop_first() =~= rest);
    assert(blanked(seq![c] + rest, Mode::Escaped) == seq![c] + blanked(rest, Mode::InString));
    assert(blanked(whole, Mode::InString) =~= seq!['\\', c] + blanked(rest, Mode::InString));
}

/// Blanks, as many as a text has characters, with the line feeds where they are.
pub open spec fn hollow(text: Seq<char>) -> Seq<char> {
    text.map_values(
        |c: char|
            if c == '\n' {
                '\n'
            } else {
                ' '
            },
    )
}

/// From two slashes to the end of the line all is blank; the next line is code.
pub proof fn line_comments_go(text: Seq<char>, rest: Seq<char>)
    requires
        !text.contains('\n'),
    ensures
        blanked(seq!['/', '/'] + text + seq!['\n'] + rest, Mode::Code) == hollow(
            seq!['/', '/'] + text + seq!['\n'],
        ) + blanked(rest, Mode::Code),
{
    let whole: Seq<char> = seq!['/', '/'] + text + seq!['\n'] + rest;
    lemma_line_comment_goes(text, rest);
    assert(whole.drop_first().drop_first() =~= text + seq!['\n'] + rest);
    assert(seq![' ', ' '] + (hollow(text + seq!['\n']) + blanked(rest, Mode::Code)) =~= hollow(
        seq!['/', '/'] + text + seq!['\n'],
    ) + blanked(rest, Mode::Code));
}

/// The rest of a comment that ends with the line.
proof fn lemma_line_comment_goes(text: Seq<char>, rest: Seq<char>)
    requires
        !text.contains('\n'),
    ensures
        blanked(text + seq!['\n'] + rest, Mode::LineComment) == hollow(text + seq!['\n']) + blanked(
            rest,
            Mode::Code,
        ),
    decreases text.len(),
{
    let whole: Seq<char> = text + seq!['\n'] + rest;
    if text.len() == 0 {
        assert(whole.drop_first() =~= rest);
        assert(hollow(text + seq!['\n']) =~= seq!['\n']);
    } else {
        let tail: Seq<char> = text.drop_first();
        assert(text[0] != '\n');
        assert(!tail.contains('\n')) by {
            if tail.contains('\n') {
                let i = choose|i: int| 0 <= i < tail.len() && tail[i] == '\n';
                assert(text[i + 1] == '\n');
            }
        }
        lemma_line_comment_goes(tail, rest);
        assert(whole.drop_first() =~= tail + seq!['\n'] + rest);
        assert(seq![' '] + (hollow(tail + seq!['\n']) + blanked(rest, Mode::Code)) =~= hollow(
            text + seq!['\n'],
        ) + blanked(rest, Mode::Code));
    }
}

/// Whether a star and a slash stand next to each other nowhere in a text.
pub open spec fn ends_no_comment(text: Seq<char>) -> bool {
    forall|i: int| 0 <= i < text.len() - 1 && #[trigger] text[i] == '*' ==> text[i + 1] != '/'
}

/// From a slash and a star to the next star and slash all is blank but for the
/// line feeds; what follows is code.
pub proof fn block_comments_go(text: Seq<char>, rest: Seq<char>)
    requires
        ends_no_comment(text),
    ensures
        blanked(seq!['/', '*'] + text + seq!['*', '/'] + rest, Mode::Code) == hollow(
            seq!['/', '*'] + text + seq!['*', '/'],
        ) + blanked(rest, Mode::Code),
{
    let whole: Seq<char> = seq!['/', '*'] + text + seq!['*', '/'] + rest;
    lemma_block_comment_goes(text, rest);
    assert(whole.drop_first().drop_first() =~= text + seq!['*', '/'] + rest);
    assert(seq![' ', ' '] + (hollow(text + seq!['*', '/']) + blanked(rest, Mode::Code)) =~= hollow(
        seq!['/', '*'] + text + seq!['*', '/'],
    ) + blanked(rest, Mode::Code));
}

/// The rest of a comment that ends with a star and a slash.
proof fn lemma_block_comment_goes(text: Seq<char>, rest: Seq<char>)
    requires
        ends_no_comment(text),
    ensures
        blanked(text + seq!['*', '/'] + rest, Mode::BlockComment) == hollow(text + seq!['*', '/'])
            + blanked(rest, Mode::Code),
    decreases text.len(),
{
    let whole: Seq<char> = text + seq!['*', '/'] + rest;
    if text.len() == 0 {
        assert(whole.drop_first().drop_first() =~= rest);
        assert(hollow(text + seq!['*', '/']) =~= seq![' ', ' ']);
    } else {
        let tail: Seq<char> = text.drop_first();
        assert forall|i: int| 0 <= i < tail.len() - 1 && #[trigger] tail[i] == '*' implies tail[i
            + 1] != '/' by {
            assert(text[i + 1] == '*');
        }
        lemma_block_comment_goes(tail, rest);
        assert(whole.drop_first() =~= tail + seq!['*', '/'] + rest);
        assert(!(whole[0] == '*' && whole.drop_first()[0] == '/')) by {
            if tail.len() > 0 {
                assert(whole[0] == text[0] && whole.drop_first()[0] == text[1]);
            }
        }
        let first: char = if text[0] == '\n' {
            '\n'
        } else {
            ' '
        };
        assert(seq![first] + (hollow(tail + seq!['*', '/']) + blanked(rest, Mode::Code))
            =~= hollow(text + seq!['*', '/']) + blanked(rest, Mode::Code));
    }
}

} // verus!
