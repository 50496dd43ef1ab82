//! Where a tracker is reached.

use url::Url;
use vstd::prelude::*;

use super::udp::TrackerError;
use crate::bencode::encode::{decimal_digits, digits, law_no_leading_zero, lemma_digits};
use crate::bencode::syntax::{decimal, is_digit};
use crate::text::{ascii_string, ascii_text};

verus! {

#[verifier::external_type_specification]
#[verifier::external_body]
pub struct ExParseError(url::ParseError);

/// The host and the port of a URL, where they can be told; nothing, where the text is no URL.
pub uninterp spec fn url_parts(url: Seq<char>) -> Option<(Option<Seq<char>>, Option<u16>)>;

/// The text that may be there.
pub open spec fn text_of(text: Option<String>) -> Option<Seq<char>> {
    match text {
        Some(text) => Some(text@),
        None => None,
    }
}

/// Calls `url::Url::parse` and takes the `host_str` and the `port` of the result, all of which
/// depend on the text alone. A port that is the default one of the scheme is not told.
#[verifier::external_body]
fn parse_url(url: &str) -> (res: Result<(Option<String>, Option<u16>), url::ParseError>)
    ensures
        match res {
            Ok((host, port)) => url_parts(url@) == Some((text_of(host), port)),
            Err(_) => url_parts(url@) is None,
        },
{
    let url = Url::parse(url)?;
    Ok((url.host_str().map(String::from), url.port()))
}

/// A host and a port, with a colon between them.
pub open spec fn host_and_port(host: Seq<char>, port: u16) -> Seq<char> {
    host + seq![':'] + ascii_text(digits(port as nat))
}

/// The address that a host and a port make, where there are both.
pub fn join_address(host: Option<String>, port: Option<u16>) -> (res: Result<String, TrackerError>)
    ensures
        match res {
            Ok(address) => match (host, port) {
                (Some(host), Some(port)) => address@ == host_and_port(host@, port),
                _ => false,
            },
            Err(error) => if host is None {
                error == TrackerError::MissingHost
            } else {
                port is None && error == TrackerError::MissingPort
            },
        },
{
    let host = match host {
        Some(host) => host,
        None => return Err(TrackerError::MissingHost),
    };
    let port: u16 = match port {
        Some(port) => port,
        None => return Err(TrackerError::MissingPort),
    };
    let ghost name = host@;
    let mut address = host;
    proof {
        reveal_strlit(":");
        lemma_digits(port as nat);
    }
    let number = decimal_digits(port as u64);
    address.append(":");
    address.append(ascii_string(number.as_slice()).as_str());
    assert(address@ =~= host_and_port(name, port));
    Ok(address)
}

/// The address in the URL of a tracker.
pub fn tracker_address(url: &str) -> (res: Result<String, TrackerError>)
    ensures
        match url_parts(url@) {
            None => res == Err::<String, _>(TrackerError::InvalidUrl),
            Some((None, _)) => res == Err::<String, _>(TrackerError::MissingHost),
            Some((Some(_), None)) => res == Err::<String, _>(TrackerError::MissingPort),
            Some((Some(host), Some(port))) => match res {
                Ok(address) => address@ == host_and_port(host, port),
                Err(_) => false,
            },
        },
{
    match parse_url(url) {
        Ok((host, port)) => join_address(host, port),
        Err(_) => Err(TrackerError::InvalidUrl),
    }
}

/// An address is the host, a colon, and the digits that denote the port.
pub proof fn law_address_names_host_and_port(host: Seq<char>, port: u16)
    ensures
        ({
            let s = host_and_port(host, port);
            let n = host.len() as int;
            let number = Seq::new((s.len() - n - 1) as nat, |i: int| s[n + 1 + i] as u8);
            &&& s.len() > n + 1
            &&& s.take(n) == host
            &&& s[n] == ':'
            &&& forall|i: int| n < i < s.len() ==> '0' <= #[trigger] s[i] <= '9'
            &&& decimal(number) == port
            &&& s.len() > n + 2 ==> s[n + 1] != '0'
        }),
{
    let s = host_and_port(host, port);
    let n = host.len() as int;
    let d = digits(port as nat);
    lemma_digits(port as nat);
    law_no_leading_zero(port as nat);
    let number = Seq::new((s.len() - n - 1) as nat, |i: int| s[n + 1 + i] as u8);
    assert(s.take(n) =~= host);
    assert forall|i: int| n < i < s.len() implies '0' <= #[trigger] s[i] <= '9' by {
        assert(is_digit(d[i - n - 1]));
        assert(s[i] == d[i - n - 1] as char);
    }
    assert(number =~= d) by {
        assert forall|i: int| 0 <= i < d.len() implies number[i] == d[i] by {
            assert(is_digit(d[i]));
            assert(s[n + 1 + i] == d[i] as char);
        }
    }
    assert(s[n + 1] == d[0] as char);
}

} // verus!
