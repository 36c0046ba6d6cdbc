//! Configuration, provider outcomes, exit codes and the error type.

use vstd::prelude::*;

use crate::ip::IpAddress;
use crate::ip::parse_ip;
use crate::ip::parse_ip_spec;
use crate::text::tokens;
use crate::util::str_eq;

verus! {

/// A DNS name managed by the client.
pub type Hostname = String;

/// The immutable configuration of one run. All of it is supplied before
/// the engine starts; the intervals are in seconds.
#[derive(Debug)]
pub struct Config {
    pub dyfi_api: String,
    pub public_ip_api: String,
    pub user: String,
    pub password: String,
    pub hostnames: Vec<Hostname>,
    pub poll_interval: u64,
    pub force_update_interval: u64,
}

/// An error carried as its message text.
#[derive(Debug)]
pub struct DyfiError(pub String);

/// The exit code reported for each terminal outcome, the success code,
/// and nothing else; the mapping to integers is `exit_code`.
#[derive(Clone, Copy, PartialEq, Eq, Structural, Debug)]
pub enum DyfiResponseCode {
    BadAuth,
    NoHost,
    NotFQDN,
    BadIP,
    OkCode,
    DNSErr,
    Abuse,
}

/// What the dy.fi update endpoint replied, parsed from its response body.
#[derive(Debug, PartialEq)]
pub enum DyfiResponse {
    BadAuth,
    NoHost,
    NotFQDN,
    BadIP(IpAddress),
    NoChg,
    /// The request was processed and the hostnames now point at the
    /// returned address. A reply of `good` without an address answers an
    /// "offline" request, which this client never sends; it is kept as a
    /// distinct value and treated as terminal.
    Good(Option<IpAddress>),
    /// The request failed due to a technical problem at the dy.fi service.
    DNSErr,
    Abuse,
    Other(String),
}

/// The mathematical shape of a [`DyfiResponse`]: the same variants with
/// the raw text of `Other` as a character sequence.
pub enum ResponseView {
    BadAuth,
    NoHost,
    NotFQDN,
    BadIP(IpAddress),
    NoChg,
    Good(Option<IpAddress>),
    DNSErr,
    Abuse,
    Other(Seq<char>),
}

impl View for DyfiResponse {
    type V = ResponseView;

    open spec fn view(&self) -> ResponseView {
        match self {
            DyfiResponse::BadAuth => ResponseView::BadAuth,
            DyfiResponse::NoHost => ResponseView::NoHost,
            DyfiResponse::NotFQDN => ResponseView::NotFQDN,
            DyfiResponse::BadIP(ip) => ResponseView::BadIP(*ip),
            DyfiResponse::NoChg => ResponseView::NoChg,
            DyfiResponse::Good(o) => ResponseView::Good(*o),
            DyfiResponse::DNSErr => ResponseView::DNSErr,
            DyfiResponse::Abuse => ResponseView::Abuse,
            DyfiResponse::Other(s) => ResponseView::Other(s@),
        }
    }
}

/// How a response body is classified: the body is split into
/// whitespace-delimited tokens, the first matching rule wins, and any
/// text of no known shape is kept verbatim as `Other`. Classification is
/// total.
pub open spec fn classify_spec(s: Seq<char>) -> ResponseView {
    let toks = tokens(s);
    if toks.len() == 1 && toks[0] == "badauth"@ {
        ResponseView::BadAuth
    } else if toks.len() == 1 && toks[0] == "nohost"@ {
        ResponseView::NoHost
    } else if toks.len() == 1 && toks[0] == "notfqdn"@ {
        ResponseView::NotFQDN
    } else if toks.len() == 2 && toks[0] == "badip"@ && parse_ip_spec(toks[1]) is Some {
        ResponseView::BadIP(parse_ip_spec(toks[1])->0)
    } else if toks.len() == 1 && toks[0] == "nochg"@ {
        ResponseView::NoChg
    } else if toks.len() == 2 && toks[0] == "good"@ && parse_ip_spec(toks[1]) is Some {
        ResponseView::Good(Some(parse_ip_spec(toks[1])->0))
    } else if toks.len() == 1 && toks[0] == "good"@ {
        ResponseView::Good(None)
    } else if toks.len() == 1 && toks[0] == "dnserr"@ {
        ResponseView::DNSErr
    } else if toks.len() == 1 && toks[0] == "abuse"@ {
        ResponseView::Abuse
    } else {
        ResponseView::Other(s)
    }
}

/// Classification never loses text: whenever a body classifies to
/// `Other`, the payload is the original text itself, verbatim.
pub proof fn lemma_unrecognized_preserves_text(s: Seq<char>)
    ensures
        classify_spec(s) matches ResponseView::Other(t) ==> t == s,
{
}

impl DyfiResponse {
    /// Classify a response body. Total: any text of no known shape
    /// becomes `Other` with the text kept verbatim.
    pub fn from(s: String) -> (r: DyfiResponse)
        ensures
            r@ == classify_spec(s@),
    {
        let toks = crate::text::split_whitespace_tokens(s.as_str());
        let ghost tv = tokens(s@);
        proof {
            assert(toks.deep_view().len() == toks@.len());
        }
        if toks.len() == 1 {
            proof {
                assert(toks.deep_view()[0] == toks[0]@);
            }
            let t0 = toks[0].as_str();
            if str_eq(t0, "badauth") {
                DyfiResponse::BadAuth
            } else if str_eq(t0, "nohost") {
                DyfiResponse::NoHost
            } else if str_eq(t0, "notfqdn") {
                DyfiResponse::NotFQDN
            } else if str_eq(t0, "nochg") {
                DyfiResponse::NoChg
            } else if str_eq(t0, "good") {
                DyfiResponse::Good(None)
            } else if str_eq(t0, "dnserr") {
                DyfiResponse::DNSErr
            } else if str_eq(t0, "abuse") {
                DyfiResponse::Abuse
            } else {
                DyfiResponse::Other(s)
            }
        } else if toks.len() == 2 {
            proof {
                assert(toks.deep_view()[0] == toks[0]@);
                assert(toks.deep_view()[1] == toks[1]@);
            }
            let t0 = toks[0].as_str();
            let t1 = toks[1].as_str();
            if str_eq(t0, "badip") {
                match parse_ip(t1) {
                    Some(ip) => DyfiResponse::BadIP(ip),
                    None => DyfiResponse::Other(s),
                }
            } else if str_eq(t0, "good") {
                match parse_ip(t1) {
                    Some(ip) => DyfiResponse::Good(Some(ip)),
                    None => DyfiResponse::Other(s),
                }
            } else {
                DyfiResponse::Other(s)
            }
        } else {
            DyfiResponse::Other(s)
        }
    }
}

/// The compute part of the public-IP fetcher: a successful response
/// body, trimmed of whitespace, must be exactly one IP address literal.
/// The HTTP exchange itself is the caller's.
pub fn parse_public_ip_body(text: &str) -> (r: Result<IpAddress, DyfiError>)
    ensures
        r is Ok <==> parse_ip_spec(crate::text::trim_spec(text@)) is Some,
        r is Ok ==> r->Ok_0 == parse_ip_spec(crate::text::trim_spec(text@))->0,
        r is Err ==> r->Err_0.0@ == "Error parsing current IP"@,
{
    let t = crate::text::trim(text);
    match parse_ip(t) {
        Some(ip) => Ok(ip),
        None => Err(DyfiError(String::from_str("Error parsing current IP"))),
    }
}

/// The exit code that a classified response maps to: each terminal
/// provider error has its own code, and everything else — success, no
/// change, the unsupported `good` without an address, and unrecognized
/// text — maps to the success code.
pub open spec fn spec_code_of(r: ResponseView) -> DyfiResponseCode {
    match r {
        ResponseView::BadAuth => DyfiResponseCode::BadAuth,
        ResponseView::NoHost => DyfiResponseCode::NoHost,
        ResponseView::NotFQDN => DyfiResponseCode::NotFQDN,
        ResponseView::BadIP(_) => DyfiResponseCode::BadIP,
        ResponseView::DNSErr => DyfiResponseCode::DNSErr,
        ResponseView::Abuse => DyfiResponseCode::Abuse,
        _ => DyfiResponseCode::OkCode,
    }
}

impl From<DyfiResponse> for DyfiResponseCode {
    fn from(d: DyfiResponse) -> (r: DyfiResponseCode)
        ensures
            r == spec_code_of(d@),
    {
        match d {
            DyfiResponse::BadAuth => DyfiResponseCode::BadAuth,
            DyfiResponse::NoHost => DyfiResponseCode::NoHost,
            DyfiResponse::NotFQDN => DyfiResponseCode::NotFQDN,
            DyfiResponse::BadIP(_) => DyfiResponseCode::BadIP,
            DyfiResponse::DNSErr => DyfiResponseCode::DNSErr,
            DyfiResponse::Abuse => DyfiResponseCode::Abuse,
            _ => DyfiResponseCode::OkCode,
        }
    }
}

impl vstd::std_specs::convert::FromSpecImpl<DyfiResponse> for DyfiResponseCode {
    open spec fn obeys_from_spec() -> bool {
        true
    }

    open spec fn from_spec(d: DyfiResponse) -> DyfiResponseCode {
        spec_code_of(d@)
    }
}

impl DyfiResponseCode {
    /// The numeric value of this code, as the dy.fi API assigns them;
    /// success is 0.
    pub open spec fn spec_exit_code(self) -> u8 {
        match self {
            DyfiResponseCode::OkCode => 0,
            DyfiResponseCode::BadAuth => 1,
            DyfiResponseCode::NoHost => 2,
            DyfiResponseCode::NotFQDN => 3,
            DyfiResponseCode::BadIP => 4,
            DyfiResponseCode::DNSErr => 5,
            DyfiResponseCode::Abuse => 6,
        }
    }

    pub fn exit_code(&self) -> (r: u8)
        ensures
            r == self.spec_exit_code(),
    {
        match self {
            DyfiResponseCode::OkCode => 0,
            DyfiResponseCode::BadAuth => 1,
            DyfiResponseCode::NoHost => 2,
            DyfiResponseCode::NotFQDN => 3,
            DyfiResponseCode::BadIP => 4,
            DyfiResponseCode::DNSErr => 5,
            DyfiResponseCode::Abuse => 6,
        }
    }
}

} // verus!
