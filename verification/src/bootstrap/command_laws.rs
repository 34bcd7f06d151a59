//! What the remote shell makes of the command.

use vstd::prelude::*;

use crate::bootstrap::command::{all_shell_quoted, quoted_char, quoted_chars, shell_quoted};
use crate::text::joined_by;

verus! {

/// The arguments that a shell takes from `s`, read one character at a time.
/// Between single quotes every character stands for itself; outside them a
/// backslash makes the next one stand for itself, and a space ends an argument.
/// `open` is the argument read so far, where one has begun. `None`: a quote is
/// left open, or a character outside quotes would mean something to the shell.
pub open spec fn shell_args(s: Seq<char>, in_quotes: bool, open: Option<Seq<char>>) -> Option<
    Seq<Seq<char>>,
>
    decreases s.len(),
{
    let so_far = match open {
        Some(arg) => arg,
        None => Seq::empty(),
    };
    if s.len() == 0 {
        if in_quotes {
            None
        } else {
            match open {
                Some(arg) => Some(seq![arg]),
                None => Some(Seq::empty()),
            }
        }
    } else if s[0] == '\'' {
        shell_args(s.skip(1), !in_quotes, Some(so_far))
    } else if in_quotes {
        shell_args(s.skip(1), true, Some(so_far.push(s[0])))
    } else if s[0] == '\\' && s.len() > 1 {
        shell_args(s.skip(2), false, Some(so_far.push(s[1])))
    } else if s[0] == ' ' {
        match open {
            Some(arg) => followed_by(seq![arg], shell_args(s.skip(1), false, None)),
            None => shell_args(s.skip(1), false, None),
        }
    } else {
        None
    }
}

/// Some arguments, and those that follow them if they can be read.
pub open spec fn followed_by(
    args: Seq<Seq<char>>,
    rest: Option<Seq<Seq<char>>>,
) -> Option<Seq<Seq<char>>> {
    match rest {
        Some(more) => Some(args + more),
        None => None,
    }
}

/// One character inside quotes is read as itself.
proof fn lemma_read_char(c: char, rest: Seq<char>, open: Seq<char>)
    ensures
        shell_args(quoted_char(c) + rest, true, Some(open)) == shell_args(
            rest,
            true,
            Some(open.push(c)),
        ),
{
    let s = quoted_char(c) + rest;
    if c == '\'' {
        let s1 = s.skip(1);
        let s2 = s1.skip(2);
        assert(s1[0] == '\\' && s1[1] == '\'');
        assert(s2[0] == '\'');
        assert(s2.skip(1) =~= rest);
        assert(shell_args(s, true, Some(open)) == shell_args(s1, false, Some(open)));
        assert(shell_args(s1, false, Some(open)) == shell_args(s2, false, Some(open.push(c))));
        assert(shell_args(s2, false, Some(open.push(c))) == shell_args(
            rest,
            true,
            Some(open.push(c)),
        ));
    } else {
        assert(s.skip(1) =~= rest);
    }
}

/// The characters of an argument inside quotes are read as themselves.
proof fn lemma_read_chars(arg: Seq<char>, rest: Seq<char>, open: Seq<char>)
    ensures
        shell_args(quoted_chars(arg) + rest, true, Some(open)) == shell_args(
            rest,
            true,
            Some(open + arg),
        ),
    decreases arg.len(),
{
    if arg.len() == 0 {
        assert(quoted_chars(arg) + rest =~= rest);
        assert(open + arg =~= open);
    } else {
        let front = arg.drop_last();
        let c = arg.last();
        assert(quoted_chars(arg) + rest =~= quoted_chars(front) + (quoted_char(c) + rest));
        lemma_read_chars(front, quoted_char(c) + rest, open);
        lemma_read_char(c, rest, open + front);
        assert((open + front).push(c) =~= open + arg);
    }
}

/// A quoted argument is read as one argument.
proof fn lemma_read_arg(arg: Seq<char>, rest: Seq<char>)
    ensures
        shell_args(shell_quoted(arg) + rest, false, None) == shell_args(rest, false, Some(arg)),
{
    let close = seq!['\''] + rest;
    let s = shell_quoted(arg) + rest;
    let none = Seq::<char>::empty();
    assert(s[0] == '\'');
    assert(s.skip(1) =~= quoted_chars(arg) + close);
    lemma_read_chars(arg, close, none);
    assert(none + arg =~= arg);
    assert(close.skip(1) =~= rest);
}

/// Quoted arguments with spaces between them are read as they were.
proof fn lemma_read_args(args: Seq<Seq<char>>, rest: Seq<char>)
    requires
        args.len() > 0,
    ensures
        shell_args(joined_by(all_shell_quoted(args), " "@) + rest, false, None) == followed_by(
            args.drop_last(),
            shell_args(rest, false, Some(args.last())),
        ),
    decreases args.len(),
{
    reveal_strlit(" ");
    let quoted = all_shell_quoted(args);
    let last = args.last();
    let front = args.drop_last();
    lemma_read_arg(last, rest);
    let end = shell_args(rest, false, Some(last));
    if args.len() == 1 {
        assert(joined_by(quoted, " "@) == shell_quoted(last));
        if let Some(more) = end {
            assert(front + more =~= more);
        }
    } else {
        let tail = shell_quoted(last) + rest;
        let spaced = seq![' '] + tail;
        assert(quoted.drop_last() =~= all_shell_quoted(front));
        assert(" "@ =~= seq![' ']);
        assert(joined_by(quoted, " "@) + rest =~= joined_by(all_shell_quoted(front), " "@)
            + spaced);
        lemma_read_args(front, spaced);
        assert(spaced.skip(1) =~= tail);
        assert(shell_args(spaced, false, Some(front.last())) == followed_by(
            seq![front.last()],
            end,
        ));
        if let Some(more) = end {
            assert(front.drop_last() + (seq![front.last()] + more) =~= front + more);
        }
    }
}

/// Whatever the arguments hold, the shell hands them on as they were: each stays
/// one argument, and nothing in them is for the shell.
pub proof fn law_shell_sees_the_arguments(args: Seq<Seq<char>>)
    ensures
        shell_args(joined_by(all_shell_quoted(args), " "@), false, None) == Some(args),
{
    let none = Seq::<char>::empty();
    let s = joined_by(all_shell_quoted(args), " "@);
    if args.len() == 0 {
        assert(args =~= Seq::<Seq<char>>::empty());
    } else {
        assert(s + none =~= s);
        lemma_read_args(args, none);
        assert(args.drop_last() + seq![args.last()] =~= args);
    }
}

} // verus!
