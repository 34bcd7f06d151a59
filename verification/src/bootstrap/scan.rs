//! The parser of the channel's output.

use vstd::prelude::*;

use crate::bootstrap::error::{BootstrapErrorView, MoshBootstrapError};
use crate::bootstrap::offer::{is_offer, offer_of, offer_view, parse_offer, Offer, OfferView};
use crate::text::{
    joined_by, lines, push_chars, split_lines, split_words, starts_with, texts_view, to_chars,
    to_text, words,
};

verus! {

/// All that the client needs to start.
#[derive(Debug, Clone, PartialEq, Eq)]
pub struct MoshBootstrap {
    /// The server's address as SSH reached it, where to send datagrams. `None`
    /// where the server did not say; the SSH host name stands in for it.
    pub server_ip: Option<String>,
    /// The UDP port that `mosh-server` listens on.
    pub port: u16,
    /// The session key, in its printable form of 22 characters.
    pub key: String,
}

/// What a `MoshBootstrap` says.
#[verifier::ext_equal]
pub struct BootstrapView {
    pub server_ip: Option<Seq<char>>,
    pub port: u16,
    pub key: Seq<char>,
}

/// What an optional string says.
pub open spec fn string_view(s: Option<String>) -> Option<Seq<char>> {
    match s {
        Some(s) => Some(s@),
        None => None,
    }
}

impl View for MoshBootstrap {
    type V = BootstrapView;

    open spec fn view(&self) -> BootstrapView {
        BootstrapView {
            server_ip: string_view(self.server_ip),
            port: self.port,
            key: self.key@,
        }
    }
}

/// Whether a line tells the addresses of the SSH connection.
pub open spec fn is_probe(line: Seq<char>) -> bool {
    "MOSH SSH_CONNECTION "@.is_prefix_of(line)
}

/// What a probe line tells: the client's address and port, the server's address
/// and port.
pub open spec fn probe_words(line: Seq<char>) -> Seq<Seq<char>> {
    words(line.skip("MOSH SSH_CONNECTION "@.len() as int))
}

/// The server's address in the first probe line.
pub open spec fn probed_ip(said: Seq<Seq<char>>) -> Option<Seq<char>>
    decreases said.len(),
{
    if said.len() == 0 {
        None
    } else {
        match probed_ip(said.drop_last()) {
            Some(ip) => Some(ip),
            None => if is_probe(said.last()) {
                Some(probe_words(said.last())[2])
            } else {
                None
            },
        }
    }
}

/// The first offer that is well-formed.
pub open spec fn first_offer(said: Seq<Seq<char>>) -> Option<OfferView>
    decreases said.len(),
{
    if said.len() == 0 {
        None
    } else {
        match first_offer(said.drop_last()) {
            Some(offer) => Some(offer),
            None => if is_offer(said.last()) {
                offer_of(said.last())
            } else {
                None
            },
        }
    }
}

/// Whether a line is for people to read.
pub open spec fn is_note(line: Seq<char>) -> bool {
    !is_probe(line) && !is_offer(line)
}

/// The lines for people to read.
pub open spec fn notes(said: Seq<Seq<char>>) -> Seq<Seq<char>>
    decreases said.len(),
{
    if said.len() == 0 {
        Seq::empty()
    } else if is_note(said.last()) {
        notes(said.drop_last()).push(said.last())
    } else {
        notes(said.drop_last())
    }
}

/// The first line that means to offer a session and does not.
pub open spec fn first_malformed(said: Seq<Seq<char>>) -> Option<Seq<char>>
    decreases said.len(),
{
    if said.len() == 0 {
        None
    } else {
        match first_malformed(said.drop_last()) {
            Some(line) => Some(line),
            None => if is_offer(said.last()) && offer_of(said.last()) is None {
                Some(said.last())
            } else {
                None
            },
        }
    }
}

/// What is wrong with `line` behind the lines of `before`, if anything is: a
/// probe that does not tell four things, or a second probe.
pub open spec fn fault_of(before: Seq<Seq<char>>, line: Seq<char>) -> Option<BootstrapErrorView> {
    if !is_probe(line) {
        None
    } else if probe_words(line).len() != 4 {
        Some(BootstrapErrorView::BadConnection(line))
    } else if probed_ip(before) is Some {
        Some(BootstrapErrorView::BadConnection("attempt to redefine MOSH SSH_CONNECTION"@))
    } else {
        None
    }
}

/// What is wrong with the first line with which anything is.
pub open spec fn first_fault(said: Seq<Seq<char>>) -> Option<BootstrapErrorView>
    decreases said.len(),
{
    if said.len() == 0 {
        None
    } else {
        match first_fault(said.drop_last()) {
            Some(e) => Some(e),
            None => fault_of(said.drop_last(), said.last()),
        }
    }
}

/// A text cut down to its last 400 characters, with an ellipsis before them.
pub open spec fn tail_of(s: Seq<char>) -> Seq<char> {
    if s.len() > 400 {
        seq!['\u{2026}'] + s.skip(s.len() - 400)
    } else {
        s
    }
}

/// What the lines of the output come to: a faulty probe is an error, else the
/// first well-formed offer wins, else the first malformed one is an error, else
/// there is no offer at all.
pub open spec fn bootstrap_of(said: Seq<Seq<char>>) -> Result<BootstrapView, BootstrapErrorView> {
    match first_fault(said) {
        Some(e) => Err(e),
        None => match first_offer(said) {
            Some(offer) => Ok(
                BootstrapView { server_ip: probed_ip(said), port: offer.port, key: offer.key },
            ),
            None => match first_malformed(said) {
                Some(line) => Err(BootstrapErrorView::BadConnect(line)),
                None => Err(
                    BootstrapErrorView::NoConnect {
                        output: tail_of(joined_by(notes(said), "\n"@)),
                    },
                ),
            },
        },
    }
}

/// What the parser returns.
pub open spec fn result_view(r: Result<MoshBootstrap, MoshBootstrapError>) -> Result<
    BootstrapView,
    BootstrapErrorView,
> {
    match r {
        Ok(bootstrap) => Ok(bootstrap@),
        Err(e) => Err(e@),
    }
}

/// Reads a line that starts with `MOSH SSH_CONNECTION `: the server's address.
fn parse_probe(line: &[char]) -> (r: Option<String>)
    requires
        is_probe(line@),
    ensures
        match r {
            Some(ip) => probe_words(line@).len() == 4 && ip@ == probe_words(line@)[2],
            None => probe_words(line@).len() != 4,
        },
{
    let start: usize = to_chars("MOSH SSH_CONNECTION ").len();
    let told: Vec<Vec<char>> = split_words(line, start);
    proof {
        assert(texts_view(told@) == probe_words(line@));
    }
    if told.len() != 4 {
        return None;
    }
    let ip = to_text(told[2].as_slice(), 0, told[2].len());
    proof {
        assert(ip@ =~= texts_view(told@)[2]);
    }
    Some(ip)
}

/// Joins the notes with line feeds, and keeps the tail.
fn join_notes(said: &Vec<Vec<char>>) -> (r: String)
    ensures
        r@ == tail_of(joined_by(texts_view(said@), "\n"@)),
{
    let ghost all = texts_view(said@);
    let feed: Vec<char> = to_chars("\n");
    let mut joined: Vec<char> = Vec::new();
    let mut i: usize = 0;
    proof {
        assert(joined_by(all.take(0), "\n"@) =~= joined@);
    }
    while i < said.len()
        invariant
            i <= said.len(),
            all == texts_view(said@),
            feed@ == "\n"@,
            joined@ == joined_by(all.take(i as int), "\n"@),
        decreases said.len() - i,
    {
        if i > 0 {
            joined.extend_from_slice(feed.as_slice());
        }
        joined.extend_from_slice(said[i].as_slice());
        i = i + 1;
        proof {
            assert(all.take(i as int).drop_last() =~= all.take(i - 1));
            assert(all.take(i as int).last() == all[i - 1]);
            assert(joined@ =~= joined_by(all.take(i as int), "\n"@));
        }
    }
    proof {
        assert(all.take(i as int) =~= all);
    }
    if joined.len() > 400 {
        let mut out = String::new();
        out.push('\u{2026}');
        push_chars(
            &mut out,
            vstd::slice::slice_subrange(joined.as_slice(), joined.len() - 400, joined.len()),
        );
        proof {
            assert(out@ =~= tail_of(joined@));
        }
        out
    } else {
        let out = to_text(joined.as_slice(), 0, joined.len());
        proof {
            assert(out@ =~= joined@);
        }
        out
    }
}

/// The whole line as a string.
fn line_text(line: &Vec<char>) -> (r: String)
    ensures
        r@ == line@,
{
    let out = to_text(line.as_slice(), 0, line.len());
    proof {
        assert(out@ =~= line@);
    }
    out
}

/// Parses what the channel said, both its streams merged. The first well-formed
/// offer wins; a second probe is an error; other lines are for people to read.
pub fn parse_mosh_bootstrap(output: &str) -> (r: Result<MoshBootstrap, MoshBootstrapError>)
    ensures
        result_view(r) == bootstrap_of(lines(output@)),
{
    let chars: Vec<char> = to_chars(output);
    let said: Vec<Vec<char>> = split_lines(chars.as_slice());
    let probe_start: Vec<char> = to_chars("MOSH SSH_CONNECTION ");
    let offer_start: Vec<char> = to_chars("MOSH CONNECT ");
    let ghost all = lines(output@);
    let mut server_ip: Option<String> = None;
    let mut offer: Option<Offer> = None;
    let mut malformed: Option<String> = None;
    let mut told: Vec<Vec<char>> = Vec::new();
    let mut i: usize = 0;
    proof {
        assert(all.take(0) =~= Seq::<Seq<char>>::empty());
        assert(texts_view(told@) =~= notes(all.take(0)));
    }
    while i < said.len()
        invariant
            i <= said.len(),
            all == lines(output@),
            all == texts_view(said@),
            probe_start@ == "MOSH SSH_CONNECTION "@,
            offer_start@ == "MOSH CONNECT "@,
            first_fault(all.take(i as int)) is None,
            string_view(server_ip) == probed_ip(all.take(i as int)),
            offer_view(offer) == first_offer(all.take(i as int)),
            offer is None ==> string_view(malformed) == first_malformed(all.take(i as int)),
            texts_view(told@) == notes(all.take(i as int)),
        decreases said.len() - i,
    {
        let line: &Vec<char> = &said[i];
        let ghost before = all.take(i as int);
        let ghost with = all.take(i + 1);
        proof {
            assert(with.drop_last() =~= before);
            assert(with.last() == line@);
        }
        if starts_with(line.as_slice(), probe_start.as_slice()) {
            let ip = match parse_probe(line.as_slice()) {
                Some(ip) => ip,
                None => {
                    proof {
                        lemma_fault_stays(all, i + 1);
                    }
                    return Err(MoshBootstrapError::BadConnection(line_text(line)));
                },
            };
            if server_ip.is_some() {
                proof {
                    lemma_fault_stays(all, i + 1);
                }
                return Err(
                    MoshBootstrapError::BadConnection(
                        "attempt to redefine MOSH SSH_CONNECTION".to_owned(),
                    ),
                );
            }
            proof {
                lemma_probe_is_no_offer(line@);
            }
            server_ip = Some(ip);
        } else if starts_with(line.as_slice(), offer_start.as_slice()) {
            if offer.is_none() {
                offer = parse_offer(line.as_slice());
                if offer.is_none() && malformed.is_none() {
                    malformed = Some(line_text(line));
                }
            }
        } else {
            let ghost told_before = texts_view(told@);
            told.push(said[i].clone());
            proof {
                assert(told@.last()@ =~= line@);
                assert(texts_view(told@) =~= told_before.push(line@));
            }
        }
        i = i + 1;
    }
    proof {
        assert(all.take(i as int) =~= all);
    }
    match offer {
        Some(offer) => Ok(MoshBootstrap { server_ip, port: offer.port, key: offer.key }),
        None => match malformed {
            Some(line) => Err(MoshBootstrapError::BadConnect(line)),
            None => Err(MoshBootstrapError::NoConnect { output: join_notes(&told) }),
        },
    }
}

/// The first fault of some lines is the first fault of all of them.
pub proof fn lemma_fault_stays(said: Seq<Seq<char>>, n: int)
    requires
        0 <= n <= said.len(),
    ensures
        first_fault(said.take(n)) is Some ==> first_fault(said) == first_fault(said.take(n)),
    decreases said.len(),
{
    if n == said.len() {
        assert(said.take(n) =~= said);
    } else {
        lemma_fault_stays(said.drop_last(), n);
        assert(said.drop_last().take(n) =~= said.take(n));
    }
}

/// No line is both a probe and an offer.
pub proof fn lemma_probe_is_no_offer(line: Seq<char>)
    ensures
        !(is_probe(line) && is_offer(line)),
{
    reveal_strlit("MOSH SSH_CONNECTION ");
    reveal_strlit("MOSH CONNECT ");
    if is_probe(line) && is_offer(line) {
        assert("MOSH SSH_CONNECTION "@[5] == line[5]);
        assert("MOSH CONNECT "@[5] == line[5]);
    }
}

} // verus!
