use mosh_proto::bootstrap::command::shell_quote;
use mosh_proto::bootstrap::mosh_tmux_payload_args;
use mosh_proto::{mosh_server_command, parse_mosh_bootstrap, MoshBootstrap, MoshBootstrapError};

#[test]
fn command_mirrors_mosh_pl() {
    let cmd = mosh_server_command("C.UTF-8", None, None);
    assert_eq!(
        cmd,
        "sh -c '[ -n \"$SSH_CONNECTION\" ] && printf \"\\nMOSH SSH_CONNECTION %s\\n\" \"$SSH_CONNECTION\"' ; \
         mosh-server 'new' '-c' '256' '-s' '-l' 'LANG=C.UTF-8'"
    );
    // pinned UDP port rides as '-p <port>' before the payload
    let cmd = mosh_server_command("C.UTF-8", None, Some(60100));
    assert!(cmd.contains("'new' '-c' '256' '-s' '-l' 'LANG=C.UTF-8' '-p' '60100'"));
    // the tmux composition: payload after --
    let payload = vec!["tmux new-session -A -s conch".to_string()];
    let cmd = mosh_server_command("C.UTF-8", Some(payload), None);
    assert!(cmd.ends_with("'--' 'tmux new-session -A -s conch'"));

    // hostile payload characters are quoted mosh.pl-style
    let evil = vec!["it's; rm -rf /".to_string()];
    let cmd = mosh_server_command("C.UTF-8", Some(evil), None);
    assert!(cmd.contains("'\\''"), "single quotes escaped: {cmd}");
    // the whole payload is exactly one quoted argument
    assert!(
        cmd.contains("'it'\\''s; rm -rf /'"),
        "payload stays one argument: {cmd}"
    );
}

#[test]
fn parses_probe_then_connect() {
    let out = "\nMOSH SSH_CONNECTION 192.168.1.5 51234 10.0.0.7 22\n\nMOSH CONNECT 60001 7l1cNvxYVkWP1j8zMC08Jg\n";
    let parsed = parse_mosh_bootstrap(out).unwrap();
    assert_eq!(parsed.server_ip.as_deref(), Some("10.0.0.7"));
    assert_eq!(parsed.port, 60001);
    assert_eq!(parsed.key, "7l1cNvxYVkWP1j8zMC08Jg");
}

#[test]
fn connect_without_probe_falls_back_to_none() {
    let out = "MOSH CONNECT 61000 AAAAAAAAAAAAAAAAAAAAAA\n";
    let parsed = parse_mosh_bootstrap(out).unwrap();
    assert_eq!(parsed.server_ip, None);
    assert_eq!(parsed.port, 61000);
}

#[test]
fn no_connect_surfaces_the_error_tail() {
    let out = "\nmosh-server needs a UTF-8 native locale to run.\n\nTry running...";
    let err = parse_mosh_bootstrap(out).unwrap_err();
    match err {
        MoshBootstrapError::NoConnect { output } => {
            assert!(output.contains("UTF-8 native locale"));
        }
        other => panic!("wrong error: {}", other.to_string()),
    }
    // and the classic missing-binary case
    let err = parse_mosh_bootstrap("bash: mosh-server: command not found\n").unwrap_err();
    assert!(err.to_string().contains("command not found"));
}

#[test]
fn malformed_lines_are_rejected() {
    assert!(matches!(
        parse_mosh_bootstrap("MOSH CONNECT 61000 short\n"),
        Err(MoshBootstrapError::BadConnect(_))
    ));
    assert!(matches!(
        parse_mosh_bootstrap("MOSH CONNECT 61000 AAAAAAAAAAAAAAAAAAAAAA!"),
        Err(MoshBootstrapError::BadConnect(_))
    ));
    assert!(matches!(
        parse_mosh_bootstrap("MOSH CONNECT notaport AAAAAAAAAAAAAAAAAAAAAA"),
        Err(MoshBootstrapError::BadConnect(_))
    ));
    assert!(matches!(
        parse_mosh_bootstrap("MOSH SSH_CONNECTION a b\nMOSH CONNECT 1 AAAAAAAAAAAAAAAAAAAAAA"),
        Err(MoshBootstrapError::BadConnection(_))
    ));
    assert!(matches!(
        parse_mosh_bootstrap(
            "MOSH SSH_CONNECTION a b c d\nMOSH SSH_CONNECTION e f g h\nMOSH CONNECT 1 AAAAAAAAAAAAAAAAAAAAAA"
        ),
        Err(MoshBootstrapError::BadConnection(_))
    ));
}

#[test]
fn first_connect_wins_and_banner_is_informational() {
    let out = "MOSH CONNECT 60001 AAAAAAAAAAAAAAAAAAAAAA\n\
               [mosh-server detached, pid = 1234]\n\
               mosh-server (mosh 1.4.0) [build mosh 1.4.0]\n";
    let parsed = parse_mosh_bootstrap(out).unwrap();
    assert_eq!(parsed.port, 60001);
    assert_eq!(parsed.key, "AAAAAAAAAAAAAAAAAAAAAA");
}

const KEY: &str = "7l1cNvxYVkWP1j8zMC08Jg";

fn offered(line: &str) -> Option<(u16, String)> {
    parse_mosh_bootstrap(line).ok().map(|b| (b.port, b.key))
}

#[test]
fn tmux_payload_is_one_argument_per_word() {
    assert_eq!(
        mosh_tmux_payload_args(),
        vec!["env", "COLORTERM=truecolor", "tmux", "new-session", "-A", "-s", "conch"]
    );
}

#[test]
fn command_with_port_and_payload() {
    let cmd = mosh_server_command(
        "en_US.UTF-8",
        Some(vec!["a b".to_string(), "".to_string(), "'".to_string()]),
        Some(7),
    );
    assert!(cmd.ends_with(
        " ; mosh-server 'new' '-c' '256' '-s' '-l' 'LANG=en_US.UTF-8' '-p' '7' '--' 'a b' '' ''\\'''"
    ));
    let cmd = mosh_server_command("C.UTF-8", Some(Vec::new()), Some(0));
    assert!(cmd.ends_with("'LANG=C.UTF-8' '-p' '0' '--'"));
}

#[test]
fn quoting_keeps_an_argument_whole() {
    assert_eq!(shell_quote(""), "''");
    assert_eq!(shell_quote("plain"), "'plain'");
    assert_eq!(shell_quote("it's"), "'it'\\''s'");
    assert_eq!(shell_quote("''"), "''\\'''\\'''");
    assert_eq!(shell_quote("$(x) `y` \\ \" \n"), "'$(x) `y` \\ \" \n'");
}

#[test]
fn offer_grammar_is_exact() {
    let ok = Some((60001, KEY.to_string()));
    assert_eq!(offered(&format!("MOSH CONNECT 60001 {KEY}")), ok);
    assert_eq!(offered(&format!("MOSH CONNECT 60001 {KEY}\r\n")), ok);
    assert_eq!(offered(&format!("MOSH CONNECT 60001 {KEY} \t \n")), ok);
    assert_eq!(offered(&format!("MOSH CONNECT 0060001 {KEY}")), ok);
    assert_eq!(
        offered(&format!("MOSH CONNECT 65535 {KEY}")),
        Some((65535, KEY.to_string()))
    );
    assert_eq!(
        offered("MOSH CONNECT 0 ++++++++++//////////09"),
        Some((0, "++++++++++//////////09".to_string()))
    );
    for line in [
        format!("MOSH CONNECT 65536 {KEY}"),
        format!("MOSH CONNECT 99999999999999999999999 {KEY}"),
        format!("MOSH CONNECT +60001 {KEY}"),
        format!("MOSH CONNECT  60001 {KEY}"),
        format!("MOSH CONNECT 60001  {KEY}"),
        format!("MOSH CONNECT 60001\t{KEY}"),
        format!("MOSH CONNECT 60001 {KEY}A"),
        format!("MOSH CONNECT 60001 {KEY} more"),
        format!("MOSH CONNECT {KEY}"),
        "MOSH CONNECT ".to_string(),
        "MOSH CONNECT 60001".to_string(),
        "MOSH CONNECT 60001 ".to_string(),
        "MOSH CONNECT 60001 AAAAAAAAAAAAAAAAAAAAA".to_string(),
        "MOSH CONNECT 60001 AAAAAAAAAAAAAAAAAAAA==".to_string(),
    ] {
        assert_eq!(
            parse_mosh_bootstrap(&line).unwrap_err(),
            MoshBootstrapError::BadConnect(line.clone())
        );
    }
    // not the start of the line, or not the words: for people to read
    for line in [
        format!(" MOSH CONNECT 60001 {KEY}"),
        format!("mosh connect 60001 {KEY}"),
        "MOSH CONNECT".to_string(),
    ] {
        assert_eq!(
            parse_mosh_bootstrap(&line).unwrap_err(),
            MoshBootstrapError::NoConnect {
                output: line.clone()
            }
        );
    }
}

#[test]
fn first_offer_wins_over_later_lines() {
    let out = format!(
        "MOSH CONNECT 1 {KEY}\nMOSH CONNECT 2 AAAAAAAAAAAAAAAAAAAAAA\nMOSH CONNECT malformed\n"
    );
    assert_eq!(offered(&out), Some((1, KEY.to_string())));
    // a malformed one before it is for people to read
    let out = format!("MOSH CONNECT malformed\nMOSH CONNECT 1 {KEY}\n");
    assert_eq!(offered(&out), Some((1, KEY.to_string())));
    // of malformed ones alone, the first is quoted
    assert_eq!(
        parse_mosh_bootstrap("note\nMOSH CONNECT 1\nMOSH CONNECT 2\n").unwrap_err(),
        MoshBootstrapError::BadConnect("MOSH CONNECT 1".to_string())
    );
    // a faulty probe is an error whatever was offered
    let out = format!("MOSH CONNECT 1\nMOSH SSH_CONNECTION a\nMOSH CONNECT 1 {KEY}\n");
    assert_eq!(
        parse_mosh_bootstrap(&out).unwrap_err(),
        MoshBootstrapError::BadConnection("MOSH SSH_CONNECTION a".to_string())
    );
}

#[test]
fn probe_may_come_on_either_side_of_the_offer() {
    let expected = MoshBootstrap {
        server_ip: Some("::1".to_string()),
        port: 60002,
        key: KEY.to_string(),
    };
    let probe = "MOSH SSH_CONNECTION fe80::1  5\t::1 22 ";
    let offer = format!("MOSH CONNECT 60002 {KEY}");
    for out in [
        format!("{probe}\n{offer}\n"),
        format!("{offer}\r\n{probe}\r\n"),
        format!("banner\n{probe}\nnote\n{offer}\nbye"),
    ] {
        assert_eq!(parse_mosh_bootstrap(&out).unwrap(), expected);
    }
    // a second probe is an error even behind the offer
    let out = format!("{probe}\n{offer}\n{probe}\n");
    assert_eq!(
        parse_mosh_bootstrap(&out).unwrap_err(),
        MoshBootstrapError::BadConnection("attempt to redefine MOSH SSH_CONNECTION".to_string())
    );
    // a malformed one is quoted
    let out = format!("{offer}\nMOSH SSH_CONNECTION a b c d e\n");
    assert_eq!(
        parse_mosh_bootstrap(&out).unwrap_err(),
        MoshBootstrapError::BadConnection("MOSH SSH_CONNECTION a b c d e".to_string())
    );
    let err = parse_mosh_bootstrap("MOSH SSH_CONNECTION \n").unwrap_err();
    assert_eq!(
        err,
        MoshBootstrapError::BadConnection("MOSH SSH_CONNECTION ".to_string())
    );
}

#[test]
fn absence_of_an_offer_quotes_the_notes() {
    let no_connect = |out: &str| match parse_mosh_bootstrap(out) {
        Err(MoshBootstrapError::NoConnect { output }) => output,
        other => panic!("wrong result: {:?}", other),
    };
    assert_eq!(no_connect(""), "");
    assert_eq!(no_connect("\n\n"), "\n");
    assert_eq!(no_connect("a\r\r\nb\n\nc\r"), "a\nb\n\nc");
    assert_eq!(
        no_connect("a\nMOSH SSH_CONNECTION 1 2 3 4\nb\n"),
        "a\nb"
    );
    // 400 characters stay as they are; of more, the last 400
    let at_limit = "\u{e9}".repeat(400);
    assert_eq!(no_connect(&at_limit), at_limit);
    let over = format!("x{at_limit}");
    assert_eq!(no_connect(&over), format!("\u{2026}{at_limit}"));
}

#[test]
fn bootstrap_error_messages() {
    assert_eq!(
        MoshBootstrapError::NoConnect {
            output: "gone".to_string()
        }
        .to_string(),
        "no MOSH CONNECT line (is mosh \u{2265} 1.4 installed on the server?): gone"
    );
    assert_eq!(
        MoshBootstrapError::BadConnect("x".to_string()).to_string(),
        "bad MOSH CONNECT line: x"
    );
    assert_eq!(
        MoshBootstrapError::BadConnection("y".to_string()).to_string(),
        "bad MOSH SSH_CONNECTION line: y"
    );
}
