//! The command line that starts `mosh-server`.

use vstd::prelude::*;
use vstd::string::StringExecFns;

use crate::text::{decimal, joined_by, push_decimal, strings_view, to_chars};

verus! {

/// A character inside single quotes. A single quote itself leaves them, comes
/// escaped, and enters them again.
pub open spec fn quoted_char(c: char) -> Seq<char> {
    if c == '\'' {
        seq!['\'', '\\', '\'', '\'']
    } else {
        seq![c]
    }
}

/// The characters of an argument inside single quotes.
pub open spec fn quoted_chars(arg: Seq<char>) -> Seq<char>
    decreases arg.len(),
{
    if arg.len() == 0 {
        Seq::empty()
    } else {
        quoted_chars(arg.drop_last()) + quoted_char(arg.last())
    }
}

/// An argument as the shell must see it.
pub open spec fn shell_quoted(arg: Seq<char>) -> Seq<char> {
    seq!['\''] + quoted_chars(arg) + seq!['\'']
}

/// All arguments as the shell must see them.
pub open spec fn all_shell_quoted(args: Seq<Seq<char>>) -> Seq<Seq<char>> {
    Seq::new(args.len(), |i: int| shell_quoted(args[i]))
}

/// The arguments that pin the UDP port.
pub open spec fn port_args(port: Option<u16>) -> Seq<Seq<char>> {
    match port {
        Some(port) => seq!["-p"@, decimal(port as nat)],
        None => Seq::empty(),
    }
}

/// The arguments that name what to run.
pub open spec fn payload_args(payload: Option<Seq<Seq<char>>>) -> Seq<Seq<char>> {
    match payload {
        Some(payload) => seq!["--"@] + payload,
        None => Seq::empty(),
    }
}

/// The arguments of `mosh-server`: 256 colors, bound to the address that SSH
/// came in on, in the given locale.
pub open spec fn server_args(
    locale: Seq<char>,
    payload: Option<Seq<Seq<char>>>,
    port: Option<u16>,
) -> Seq<Seq<char>> {
    seq!["new"@, "-c"@, "256"@, "-s"@, "-l"@, "LANG="@ + locale] + port_args(port) + payload_args(
        payload,
    )
}

/// The whole command. The probe goes to the remote shell as it stands; the
/// arguments of `mosh-server` are quoted.
pub open spec fn server_command(
    locale: Seq<char>,
    payload: Option<Seq<Seq<char>>>,
    port: Option<u16>,
) -> Seq<char> {
    "sh -c '[ -n \"$SSH_CONNECTION\" ] && printf \"\\nMOSH SSH_CONNECTION %s\\n\" \"$SSH_CONNECTION\"'"@
        + " ; mosh-server "@ + joined_by(
        all_shell_quoted(server_args(locale, payload, port)),
        " "@,
    )
}

/// What an optional payload says.
pub open spec fn payload_view(payload: Option<Vec<String>>) -> Option<Seq<Seq<char>>> {
    match payload {
        Some(args) => Some(strings_view(args@)),
        None => None,
    }
}

/// The payload that attaches to the tmux session, one argument per word.
pub fn mosh_tmux_payload_args() -> (r: Vec<String>)
    ensures
        strings_view(r@) == seq![
            "env"@,
            "COLORTERM=truecolor"@,
            "tmux"@,
            "new-session"@,
            "-A"@,
            "-s"@,
            "conch"@,
        ],
{
    let mut args: Vec<String> = Vec::new();
    args.push("env".to_owned());
    args.push("COLORTERM=truecolor".to_owned());
    args.push("tmux".to_owned());
    args.push("new-session".to_owned());
    args.push("-A".to_owned());
    args.push("-s".to_owned());
    args.push("conch".to_owned());
    args
}

/// Wraps an argument in single quotes.
pub fn shell_quote(arg: &str) -> (r: String)
    ensures
        r@ == shell_quoted(arg@),
{
    let chars: Vec<char> = to_chars(arg);
    let mut out = String::new();
    out.push('\'');
    let mut i: usize = 0;
    proof {
        assert(out@ =~= seq!['\''] + quoted_chars(chars@.take(0)));
    }
    while i < chars.len()
        invariant
            i <= chars.len(),
            out@ == seq!['\''] + quoted_chars(chars@.take(i as int)),
        decreases chars.len() - i,
    {
        let c: char = chars[i];
        if c == '\'' {
            out.push('\'');
            out.push('\\');
            out.push('\'');
            out.push('\'');
        } else {
            out.push(c);
        }
        i = i + 1;
        proof {
            assert(chars@.take(i as int).drop_last() =~= chars@.take(i - 1));
            assert(out@ =~= seq!['\''] + (quoted_chars(chars@.take(i - 1)) + quoted_char(c)));
        }
    }
    out.push('\'');
    proof {
        assert(chars@.take(i as int) =~= chars@);
        assert(out@ =~= shell_quoted(arg@));
    }
    out
}

/// The command that runs `mosh-server new`, behind a probe for the address that
/// SSH came in on.
pub fn mosh_server_command(
    locale: &str,
    payload: Option<Vec<String>>,
    port: Option<u16>,
) -> (r: String)
    ensures
        r@ == server_command(locale@, payload_view(payload), port),
{
    let mut args: Vec<String> = Vec::new();
    args.push("new".to_owned());
    args.push("-c".to_owned());
    args.push("256".to_owned());
    args.push("-s".to_owned());
    args.push("-l".to_owned());
    args.push("LANG=".to_owned().concat(locale));
    if let Some(port) = port {
        args.push("-p".to_owned());
        let mut number = String::new();
        push_decimal(&mut number, port as u64);
        proof {
            assert(number@ =~= decimal(port as nat));
        }
        args.push(number);
    }
    let ghost fixed = strings_view(args@);
    proof {
        assert(fixed =~= seq!["new"@, "-c"@, "256"@, "-s"@, "-l"@, "LANG="@ + locale@] + port_args(
            port,
        ));
    }
    if let Some(words) = &payload {
        args.push("--".to_owned());
        push_strings(&mut args, words);
    }
    proof {
        assert(strings_view(args@) =~= fixed + payload_args(payload_view(payload)));
    }
    let mut out =
        "sh -c '[ -n \"$SSH_CONNECTION\" ] && printf \"\\nMOSH SSH_CONNECTION %s\\n\" \"$SSH_CONNECTION\"'".to_owned();
    out.append(" ; mosh-server ");
    push_quoted(&mut out, &args);
    out
}

/// Appends copies of `more`.
fn push_strings(list: &mut Vec<String>, more: &Vec<String>)
    ensures
        strings_view(final(list)@) == strings_view(old(list)@) + strings_view(more@),
{
    let ghost before = strings_view(list@);
    let mut i: usize = 0;
    proof {
        assert(before + strings_view(more@).take(0) =~= before);
    }
    while i < more.len()
        invariant
            i <= more.len(),
            strings_view(list@) == before + strings_view(more@).take(i as int),
        decreases more.len() - i,
    {
        let ghost so_far = strings_view(list@);
        list.push(more[i].clone());
        i = i + 1;
        proof {
            assert(strings_view(list@) =~= so_far.push(strings_view(more@)[i - 1]));
            assert(before + strings_view(more@).take(i as int) =~= (before + strings_view(
                more@,
            ).take(i - 1)).push(strings_view(more@)[i - 1]));
        }
    }
    proof {
        assert(strings_view(more@).take(i as int) =~= strings_view(more@));
    }
}

/// Appends the arguments, quoted, with spaces between them.
fn push_quoted(out: &mut String, args: &Vec<String>)
    ensures
        final(out)@ == old(out)@ + joined_by(all_shell_quoted(strings_view(args@)), " "@),
{
    let ghost before = out@;
    let ghost all = all_shell_quoted(strings_view(args@));
    let mut i: usize = 0;
    proof {
        assert(before + joined_by(all.take(0), " "@) =~= before);
    }
    while i < args.len()
        invariant
            i <= args.len(),
            all == all_shell_quoted(strings_view(args@)),
            out@ == before + joined_by(all.take(i as int), " "@),
        decreases args.len() - i,
    {
        if i > 0 {
            out.append(" ");
        }
        let quoted: String = shell_quote(args[i].as_str());
        out.append(quoted.as_str());
        i = i + 1;
        proof {
            assert(all.take(i as int).drop_last() =~= all.take(i - 1));
            assert(all.take(i as int).last() == quoted@);
            assert(out@ =~= before + joined_by(all.take(i as int), " "@));
        }
    }
    proof {
        assert(all.take(i as int) =~= all);
    }
}

} // verus!
