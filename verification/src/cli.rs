//! The settings that a server is started with.
use vstd::prelude::*;
use vstd::utf8::*;
use crate::text;

verus! {

/// The settings.
pub struct Cli {
    port: u16,
    replicaof: Option<String>,
    dir: String,
    dbfilename: String,
}

/// Why a setting was refused.
#[derive(Debug)]
pub enum CliError {
    PortNotInRange(usize, usize),
    NotANumber(String),
}

/// A [`CliError`] with its string as a character sequence.
#[verifier::ext_equal]
pub enum CliErrorView {
    PortNotInRange(usize, usize),
    NotANumber(Seq<char>),
}

impl View for CliError {
    type V = CliErrorView;

    open spec fn view(&self) -> CliErrorView {
        match self {
            CliError::PortNotInRange(low, high) => CliErrorView::PortNotInRange(*low, *high),
            CliError::NotANumber(s) => CliErrorView::NotANumber(s@),
        }
    }
}

impl CliErrorView {
    pub open spec fn text(self) -> Seq<char> {
        match self {
            CliErrorView::PortNotInRange(low, high) => "Port not in in range "@
                + text::ascii_chars(text::decimal(low as nat)) + "-"@ + text::ascii_chars(
                text::decimal(high as nat),
            ),
            CliErrorView::NotANumber(s) => s + " isn't a number"@,
        }
    }
}

impl CliError {
    pub fn message(&self) -> (r: String)
        ensures
            r@ == self@.text(),
    {
        match self {
            CliError::PortNotInRange(low, high) => {
                let low: String = text::decimal_string(*low as u64);
                let high: String = text::decimal_string(*high as u64);
                let head: String = "Port not in in range ".to_owned().concat(low.as_str());
                head.concat("-").concat(high.as_str())
            },
            CliError::NotANumber(s) => s.as_str().to_owned().concat(" isn't a number"),
        }
    }
}

/// The port that a text denotes: from 1 to 65535.
pub open spec fn port_of(s: Seq<char>) -> Result<u16, CliErrorView> {
    match text::unsigned_within(encode_utf8(s), usize::MAX as nat) {
        None => Err(CliErrorView::NotANumber(s)),
        Some(n) => if 1 <= n <= 65535 {
            Ok(n as u16)
        } else {
            Err(CliErrorView::PortNotInRange(1, 65535))
        },
    }
}

/// Where the master listens: a host, then a space, then a port. Without a space
/// there is no master.
pub open spec fn master_of(replicaof: Option<Seq<char>>) -> Result<
    Option<(Seq<char>, u16)>,
    CliErrorView,
> {
    match replicaof {
        None => Ok(None),
        Some(s) => match text::parts_at(encode_utf8(s), 32) {
            None => Ok(None),
            Some((host, port)) => match port_of(decode_utf8(port)) {
                Ok(port) => Ok(Some((decode_utf8(host), port))),
                Err(e) => Err(e),
            },
        },
    }
}

impl Cli {
    pub closed spec fn spec_port(self) -> u16 {
        self.port
    }

    pub closed spec fn spec_replicaof(self) -> Option<Seq<char>> {
        match self.replicaof {
            Some(s) => Some(s@),
            None => None,
        }
    }

    pub closed spec fn spec_dir(self) -> Seq<char> {
        self.dir@
    }

    pub closed spec fn spec_dbfilename(self) -> Seq<char> {
        self.dbfilename@
    }

    pub fn new(port: u16, replicaof: Option<String>, dir: String, dbfilename: String) -> (r: Self)
        ensures
            r.spec_port() == port,
            r.spec_replicaof() == (match replicaof {
                Some(s) => Some(s@),
                None => None,
            }),
            r.spec_dir() == dir@,
            r.spec_dbfilename() == dbfilename@,
    {
        Self { port, replicaof, dir, dbfilename }
    }

    pub fn port(&self) -> (r: u16)
        ensures
            r == self.spec_port(),
    {
        self.port
    }

    pub fn dir(&self) -> (r: &str)
        ensures
            r@ == self.spec_dir(),
    {
        self.dir.as_str()
    }

    pub fn dbfilename(&self) -> (r: &str)
        ensures
            r@ == self.spec_dbfilename(),
    {
        self.dbfilename.as_str()
    }

    /// The host and the port of the master, if this server is to be a replica.
    pub fn parse_replicaof(&self) -> (r: Result<Option<(String, u16)>, CliError>)
        ensures
            match r {
                Ok(Some((host, port))) => master_of(self.spec_replicaof()) == Ok::<
                    _,
                    CliErrorView,
                >(Some((host@, port))),
                Ok(None) => master_of(self.spec_replicaof()) == Ok::<
                    Option<(Seq<char>, u16)>,
                    CliErrorView,
                >(None),
                Err(e) => master_of(self.spec_replicaof()) == Err::<Option<(Seq<char>, u16)>, _>(
                    e@,
                ),
            },
    {
        match &self.replicaof {
            None => Ok(None),
            Some(value) => match text::split_once(value.as_str(), 32) {
                None => Ok(None),
                Some((host, port)) => {
                    proof {
                        encode_utf8_decode_utf8(host@);
                        encode_utf8_decode_utf8(port@);
                    }
                    let port: u16 = port_in_range(port)?;
                    Ok(Some((host.to_owned(), port)))
                },
            },
        }
    }
}

/// Reads a port.
pub fn port_in_range(s: &str) -> (r: Result<u16, CliError>)
    ensures
        match r {
            Ok(port) => port_of(s@) == Ok::<u16, CliErrorView>(port),
            Err(e) => port_of(s@) == Err::<u16, CliErrorView>(e@),
        },
{
    match text::parse_unsigned(s.as_bytes(), usize::MAX as u64) {
        None => Err(CliError::NotANumber(s.to_owned())),
        Some(n) => if 1 <= n && n <= 65535 {
            Ok(n as u16)
        } else {
            Err(CliError::PortNotInRange(1, 65535))
        },
    }
}

/// Law: the decimal notation of a number from 1 to 65535 is that port; of any other
/// it is refused as out of range.
pub proof fn law_ports(n: nat)
    requires
        n <= usize::MAX,
    ensures
        port_of(text::ascii_chars(text::decimal(n))) == if n == 0 || n > 0xffff {
            Err::<u16, _>(CliErrorView::PortNotInRange(1, 0xffff))
        } else {
            Ok::<u16, CliErrorView>(n as u16)
        },
{
    text::lemma_decimal_ascii(n);
    text::lemma_ascii_text(text::decimal(n));
    text::law_decimal_roundtrip(n);
}

/// Law: a text without a space names no master; one with a space names the host
/// before the first and the port behind it.
pub proof fn law_masters(s: Seq<char>, at: int)
    requires
        0 <= at < encode_utf8(s).len(),
        encode_utf8(s)[at] == 32,
        forall|i: int| 0 <= i < at ==> #[trigger] encode_utf8(s)[i] != 32,
    ensures
        master_of(None) == Ok::<Option<(Seq<char>, u16)>, CliErrorView>(None),
        ({
            let b = encode_utf8(s);
            let host = decode_utf8(b.subrange(0, at));
            master_of(Some(s)) == match port_of(decode_utf8(b.subrange(at + 1, b.len() as int))) {
                Ok(port) => Ok::<Option<(Seq<char>, u16)>, CliErrorView>(Some((host, port))),
                Err(e) => Err(e),
            }
        }),
{
    text::lemma_first_from_is(encode_utf8(s), 0, 32, at);
}

} // verus!
