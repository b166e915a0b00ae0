//! The list of remotes.
use crate::forwarder::config::{FileProviderConfig, ProviderConfig};
use crate::net::{ipnetwork_address, parse_ip, parse_with_ipnetwork, plain_address, IpAddr};
use crate::scanner::asn::{cidr_entries, entries_of};
use crate::text::{
    all_spaces, chars_of, decimal_text, decimal_text_reads_back, has_char, is_digit,
    numbers_keep_to_the_limit, parse_unsigned, same_str, slice_of, somes, string_of, string_views,
    trim, trimmed, trimming_undoes_padding, unsigned_of,
};
use vstd::prelude::*;

verus! {

/// Why an address is refused.
#[derive(Clone, Copy, Debug, PartialEq, Eq, Structural)]
pub enum AddressError {
    /// What stands in brackets is no address.
    InvalidIp,
    /// What stands behind the brackets is no port.
    InvalidPort,
    /// It is neither an address nor one with a port.
    InvalidFormat,
}

/// The parts of an address with or without a port.
#[derive(Debug)]
pub enum AddressParts {
    /// An address in brackets, and what stands behind them and a colon.
    Bracketed { ip: String, port: Option<String> },
    /// What stands before and behind the last colon, and all of it.
    Colon { head: String, tail: String, whole: String },
    /// A text without a colon.
    Bare { whole: String },
}

/// The parts of an address, as texts.
pub enum AddressText {
    Bracketed { ip: Seq<char>, port: Option<Seq<char>> },
    Colon { head: Seq<char>, tail: Seq<char>, whole: Seq<char> },
    Bare { whole: Seq<char> },
}

impl View for AddressParts {
    type V = AddressText;

    open spec fn view(&self) -> AddressText {
        match self {
            AddressParts::Bracketed { ip, port } => AddressText::Bracketed {
                ip: ip@,
                port: match port {
                    Some(p) => Some(p@),
                    None => None,
                },
            },
            AddressParts::Colon { head, tail, whole } => AddressText::Colon {
                head: head@,
                tail: tail@,
                whole: whole@,
            },
            AddressParts::Bare { whole } => AddressText::Bare { whole: whole@ },
        }
    }
}

/// Where `]:` first occurs from a place on.
pub open spec fn bracket_end(s: Seq<char>, from: int) -> Option<int>
    decreases s.len() - from,
{
    if from + 1 >= s.len() {
        None
    } else if s[from] == ']' && s[from + 1] == ':' {
        Some(from)
    } else {
        bracket_end(s, from + 1)
    }
}

/// Where the last colon is.
pub open spec fn last_colon(s: Seq<char>) -> Option<int>
    decreases s.len(),
{
    if s.len() == 0 {
        None
    } else if s.last() == ':' {
        Some(s.len() - 1)
    } else {
        last_colon(s.drop_last())
    }
}

/// The parts of an address without brackets.
pub open spec fn plain_parts(s: Seq<char>) -> AddressText {
    match last_colon(s) {
        Some(k) => AddressText::Colon { head: s.take(k), tail: s.skip(k + 1), whole: s },
        None => AddressText::Bare { whole: s },
    }
}

/// The parts of an address.
pub open spec fn parts_of(s: Seq<char>) -> AddressText {
    if s.len() > 0 && s[0] == '[' {
        match bracket_end(s, 0) {
            Some(b) => AddressText::Bracketed {
                ip: s.subrange(1, b),
                port: Some(s.skip(b + 2)),
            },
            None => if s.last() == ']' {
                AddressText::Bracketed { ip: s.subrange(1, s.len() - 1), port: None }
            } else {
                plain_parts(s)
            },
        }
    } else {
        plain_parts(s)
    }
}

fn find_bracket_end(s: &Vec<char>) -> (r: Option<usize>)
    ensures
        match r {
            Some(b) => bracket_end(s@, 0) == Some(b as int) && b + 1 < s@.len() && s@[b as int]
                == ']',
            None => bracket_end(s@, 0) is None,
        },
{
    let mut i: usize = 0;
    while i < s.len() && i + 1 < s.len()
        invariant
            i <= s@.len(),
            bracket_end(s@, 0) == bracket_end(s@, i as int),
        decreases s@.len() - i,
    {
        if s[i] == ']' && s[i + 1] == ':' {
            return Some(i);
        }
        i = i + 1;
    }
    None
}

fn find_last_colon(s: &Vec<char>) -> (r: Option<usize>)
    ensures
        match r {
            Some(k) => last_colon(s@) == Some(k as int) && k < s@.len(),
            None => last_colon(s@) is None,
        },
{
    let mut n: usize = s.len();
    assert(s@.take(n as int) =~= s@);
    while n > 0
        invariant
            n <= s@.len(),
            last_colon(s@) == last_colon(s@.take(n as int)),
        decreases n,
    {
        assert(s@.take(n as int).last() == s@[n - 1]);
        assert(s@.take(n as int).drop_last() =~= s@.take(n - 1));
        if s[n - 1] == ':' {
            return Some(n - 1);
        }
        n = n - 1;
    }
    None
}

fn split_plain(s: &Vec<char>) -> (parts: AddressParts)
    ensures
        parts@ == plain_parts(s@),
{
    let n: usize = s.len();
    match find_last_colon(s) {
        Some(k) => {
            let head: Vec<char> = slice_of(s, 0, k);
            let tail: Vec<char> = slice_of(s, k + 1, n);
            assert(head@ =~= s@.take(k as int));
            assert(tail@ =~= s@.skip(k + 1));
            AddressParts::Colon {
                head: string_of(&head),
                tail: string_of(&tail),
                whole: string_of(s),
            }
        },
        None => AddressParts::Bare { whole: string_of(s) },
    }
}

/// Takes an address apart. White space round it does not count.
pub fn split_address(address: &str) -> (parts: AddressParts)
    ensures
        parts@ == parts_of(trimmed(address@)),
{
    let s: Vec<char> = trim(&chars_of(address));
    if s.len() > 0 && s[0] == '[' {
        match find_bracket_end(&s) {
            Some(b) => {
                let ip: Vec<char> = slice_of(&s, 1, b);
                let port: Vec<char> = slice_of(&s, b + 2, s.len());
                assert(port@ =~= s@.skip(b + 2));
                return AddressParts::Bracketed {
                    ip: string_of(&ip),
                    port: Some(string_of(&port)),
                };
            },
            None => {
                if s[s.len() - 1] == ']' {
                    let ip: Vec<char> = slice_of(&s, 1, s.len() - 1);
                    return AddressParts::Bracketed { ip: string_of(&ip), port: None };
                }
            },
        }
    }
    split_plain(&s)
}

/// A port that a text spells.
pub open spec fn port_of(text: Seq<char>) -> Option<u16> {
    match unsigned_of(text, 65535) {
        Some(v) => Some(v as u16),
        None => None,
    }
}

/// What the parts of an address come to, where `first` is the address in
/// brackets or before the colon, and `whole` the address that the whole text
/// is.
pub open spec fn address_given(
    parts: AddressText,
    first: Option<IpAddr>,
    whole: Option<IpAddr>,
    default_port: u16,
) -> Result<(IpAddr, u16), AddressError> {
    match parts {
        AddressText::Bracketed { port: Some(port), .. } => match first {
            None => Err(AddressError::InvalidIp),
            Some(ip) => match port_of(port) {
                None => Err(AddressError::InvalidPort),
                Some(p) => Ok((ip, p)),
            },
        },
        AddressText::Bracketed { port: None, .. } => match first {
            None => Err(AddressError::InvalidIp),
            Some(ip) => Ok((ip, default_port)),
        },
        AddressText::Colon { tail, .. } => match whole {
            Some(ip) => Ok((ip, default_port)),
            None => if first is Some && port_of(tail) is Some {
                Ok((first->Some_0, port_of(tail)->Some_0))
            } else {
                Err(AddressError::InvalidFormat)
            },
        },
        AddressText::Bare { .. } => match whole {
            Some(ip) => Ok((ip, default_port)),
            None => Err(AddressError::InvalidFormat),
        },
    }
}

fn parse_port(text: &str) -> (r: Option<u16>)
    ensures
        r == port_of(text@),
{
    match parse_unsigned(&chars_of(text), 65535) {
        Some(v) => Some(v as u16),
        None => None,
    }
}

/// Decides what the parts of an address come to.
pub fn decide_address(
    parts: &AddressParts,
    first: Option<IpAddr>,
    whole: Option<IpAddr>,
    default_port: u16,
) -> (r: Result<(IpAddr, u16), AddressError>)
    ensures
        r == address_given(parts@, first, whole, default_port),
{
    match parts {
        AddressParts::Bracketed { port, .. } => match first {
            None => Err(AddressError::InvalidIp),
            Some(ip) => match port {
                None => Ok((ip, default_port)),
                Some(port) => match parse_port(port.as_str()) {
                    None => Err(AddressError::InvalidPort),
                    Some(p) => Ok((ip, p)),
                },
            },
        },
        AddressParts::Colon { tail, .. } => {
            if let Some(ip) = whole {
                return Ok((ip, default_port));
            }
            if let Some(p) = parse_port(tail.as_str()) {
                if let Some(ip) = first {
                    return Ok((ip, p));
                }
            }
            Err(AddressError::InvalidFormat)
        },
        AddressParts::Bare { .. } => match whole {
            Some(ip) => Ok((ip, default_port)),
            None => Err(AddressError::InvalidFormat),
        },
    }
}

/// The address in brackets or before the last colon.
pub open spec fn first_address(parts: AddressText) -> Option<IpAddr> {
    match parts {
        AddressText::Bracketed { ip, .. } => plain_address(ip),
        AddressText::Colon { head, .. } => plain_address(head),
        AddressText::Bare { .. } => None,
    }
}

/// The address that the whole text is. One with a colon has a second colon.
pub open spec fn whole_address(parts: AddressText) -> Option<IpAddr> {
    match parts {
        AddressText::Bracketed { .. } => None,
        AddressText::Colon { head, whole, .. } => if head.contains(':') {
            plain_address(whole)
        } else {
            None
        },
        AddressText::Bare { whole } => plain_address(whole),
    }
}

/// What an address without white space round it comes to.
pub open spec fn address_of(s: Seq<char>, default_port: u16) -> Result<
    (IpAddr, u16),
    AddressError,
> {
    let parts = parts_of(s);
    address_given(parts, first_address(parts), whole_address(parts), default_port)
}

/// Reads an address with or without a port: `192.0.2.1`, `192.0.2.1:8080`,
/// `2001:db8::1`, `[2001:db8::1]` or `[2001:db8::1]:8080`. Without brackets an
/// IPv6 address has no port. A host name has to be looked up: `host_and_port`
/// finds it, and `resolve_ip_port` takes the answer.
pub fn parse_ip_port(address: &str, default_port: u16) -> (r: Result<(IpAddr, u16), AddressError>)
    ensures
        r == address_of(trimmed(address@), default_port),
{
    let parts: AddressParts = split_address(address);
    let first: Option<IpAddr> = match &parts {
        AddressParts::Bracketed { ip, .. } => parse_ip(ip.as_str()),
        AddressParts::Colon { head, .. } => parse_ip(head.as_str()),
        AddressParts::Bare { .. } => None,
    };
    let whole: Option<IpAddr> = match &parts {
        AddressParts::Bracketed { .. } => None,
        AddressParts::Colon { head, whole, .. } => if has_char(head.as_str(), ':') {
            parse_ip(whole.as_str())
        } else {
            None
        },
        AddressParts::Bare { whole } => parse_ip(whole.as_str()),
    };
    decide_address(&parts, first, whole, default_port)
}

/// Whether a text can be the name of a host: it is not empty and holds no
/// colon.
pub open spec fn is_host(name: Seq<char>) -> bool {
    name.len() > 0 && !name.contains(':')
}

/// The host and the port that the parts of an address name.
pub open spec fn host_given(parts: AddressText, default_port: u16) -> Option<(Seq<char>, u16)> {
    match parts {
        AddressText::Bracketed { .. } => None,
        AddressText::Colon { head, tail, .. } => match port_of(tail) {
            Some(port) => if is_host(head) {
                Some((head, port))
            } else {
                None
            },
            None => None,
        },
        AddressText::Bare { whole } => if is_host(whole) {
            Some((whole, default_port))
        } else {
            None
        },
    }
}

/// The host and the port that a text without white space round it names.
pub open spec fn host_of(s: Seq<char>, default_port: u16) -> Option<(Seq<char>, u16)> {
    host_given(parts_of(s), default_port)
}

fn may_be_host(name: &str) -> (b: bool)
    ensures
        b == is_host(name@),
{
    name.unicode_len() > 0 && !has_char(name, ':')
}

/// Finds the host and the port in a text such as `example.com` or
/// `example.com:8080`. White space round it does not count.
pub fn host_and_port(text: &str, default_port: u16) -> (r: Option<(String, u16)>)
    ensures
        match host_given(parts_of(trimmed(text@)), default_port) {
            Some(host) => r matches Some(found) && found.0@ == host.0 && found.1 == host.1,
            None => r is None,
        },
{
    match split_address(text) {
        AddressParts::Bracketed { .. } => None,
        AddressParts::Colon { head, tail, .. } => match parse_port(tail.as_str()) {
            Some(port) => if may_be_host(head.as_str()) {
                Some((head, port))
            } else {
                None
            },
            None => None,
        },
        AddressParts::Bare { whole } => if may_be_host(whole.as_str()) {
            Some((whole, default_port))
        } else {
            None
        },
    }
}

/// What an address or a host without white space round it comes to, where
/// `resolved` is the address of the host.
pub open spec fn address_resolved(
    s: Seq<char>,
    default_port: u16,
    resolved: Option<IpAddr>,
) -> Result<(IpAddr, u16), AddressError> {
    match address_of(s, default_port) {
        Ok(remote) => Ok(remote),
        Err(e) => match (host_of(s, default_port), resolved) {
            (Some(host), Some(ip)) => Ok((ip, host.1)),
            _ => Err(e),
        },
    }
}

/// Reads an address or a host, with or without a port. `resolved` is the
/// address of the host, or nothing where it has none.
pub fn resolve_ip_port(address: &str, default_port: u16, resolved: Option<IpAddr>) -> (r: Result<
    (IpAddr, u16),
    AddressError,
>)
    ensures
        r == address_resolved(trimmed(address@), default_port, resolved),
{
    match parse_ip_port(address, default_port) {
        Ok(remote) => Ok(remote),
        Err(e) => match (host_and_port(address, default_port), resolved) {
            (Some(host), Some(ip)) => Ok((ip, host.1)),
            _ => Err(e),
        },
    }
}

/// Whether a character can stand in the text of an address.
pub open spec fn is_address_char(c: char) -> bool {
    is_digit(c) || 'a' <= c <= 'f' || 'A' <= c <= 'F' || c == '.' || c == ':'
}

/// Whether a text is the text of an address: it is read as the address, and
/// holds digits, dots and colons only, no colon for IPv4 and two or more for
/// IPv6.
pub open spec fn is_text_of(text: Seq<char>, ip: IpAddr) -> bool {
    &&& plain_address(text) == Some(ip)
    &&& text.len() > 0
    &&& forall|i: int| 0 <= i < text.len() ==> is_address_char(#[trigger] text[i])
    &&& match ip {
        IpAddr::V4(_) => !text.contains(':'),
        IpAddr::V6(_) => exists|i: int, j: int|
            0 <= i < j < text.len() && #[trigger] text[i] == ':' && #[trigger] text[j] == ':',
    }
}

/// An address, given by its text, with a port: `192.0.2.1:8080` or
/// `[2001:db8::1]:8080`.
pub open spec fn socket_text(ip: IpAddr, text: Seq<char>, port: u16) -> Seq<char> {
    match ip {
        IpAddr::V4(_) => text + seq![':'] + decimal_text(port as nat),
        IpAddr::V6(_) => seq!['['] + text + seq![']', ':'] + decimal_text(port as nat),
    }
}

proof fn lemma_last_colon(s: Seq<char>, k: int)
    requires
        0 <= k < s.len(),
        s[k] == ':',
        forall|i: int| k < i < s.len() ==> #[trigger] s[i] != ':',
    ensures
        last_colon(s) == Some(k),
    decreases s.len(),
{
    if k < s.len() - 1 {
        assert(s[s.len() - 1] != ':');
        lemma_last_colon(s.drop_last(), k);
    }
}

proof fn lemma_no_colon(s: Seq<char>)
    requires
        !s.contains(':'),
    ensures
        last_colon(s) is None,
    decreases s.len(),
{
    if s.len() > 0 {
        assert(s.contains(s.last()));
        assert forall|i: int| 0 <= i < s.len() - 1 implies #[trigger] s.drop_last()[i] != ':' by {
            assert(s.contains(s[i]));
        }
        lemma_no_colon(s.drop_last());
    }
}

proof fn lemma_bracket_end(s: Seq<char>, from: int, b: int)
    requires
        0 <= from <= b,
        b + 1 < s.len(),
        s[b] == ']',
        s[b + 1] == ':',
        forall|i: int| from <= i < b ==> #[trigger] s[i] != ']',
    ensures
        bracket_end(s, from) == Some(b),
    decreases b - from,
{
    if from < b {
        assert(s[from] != ']');
        lemma_bracket_end(s, from + 1, b);
    }
}

/// Reading undoes writing: an address with a port, and with any white space
/// round it, gives the address and the port back, whatever the default is.
pub proof fn address_with_port_reads_back(
    ip: IpAddr,
    text: Seq<char>,
    port: u16,
    default_port: u16,
    left: Seq<char>,
    right: Seq<char>,
)
    requires
        is_text_of(text, ip),
        all_spaces(left),
        all_spaces(right),
    ensures
        address_of(trimmed(left + socket_text(ip, text, port) + right), default_port) == Ok::<
            (IpAddr, u16),
            AddressError,
        >((ip, port)),
{
    let digits = decimal_text(port as nat);
    decimal_text_reads_back(port as nat, 65535);
    let s = socket_text(ip, text, port);
    assert(is_address_char(text[0]));
    assert(is_digit(digits.last()));
    assert(s.last() == digits.last());
    trimming_undoes_padding(left, s, right);
    if ip is V4 {
        let k = text.len() as int;
        assert forall|i: int| k < i < s.len() implies #[trigger] s[i] != ':' by {
            assert(s[i] == digits[i - k - 1]);
            assert(is_digit(digits[i - k - 1]));
        }
        lemma_last_colon(s, k);
        assert(s[0] == text[0]);
        assert(s.take(k) =~= text);
        assert(s.skip(k + 1) =~= digits);
    } else {
        let b = text.len() as int + 1;
        assert forall|i: int| 0 <= i < b implies #[trigger] s[i] != ']' by {
            if i > 0 {
                assert(s[i] == text[i - 1]);
                assert(is_address_char(text[i - 1]));
            }
        }
        lemma_bracket_end(s, 0, b);
        assert(s.subrange(1, b) =~= text);
        assert(s.skip(b + 2) =~= digits);
    }
}

/// The text of an address is read as the address with the default port, of
/// whichever family it is.
pub proof fn address_alone_reads_back(ip: IpAddr, text: Seq<char>, default_port: u16)
    requires
        is_text_of(text, ip),
    ensures
        address_of(text, default_port) == Ok::<(IpAddr, u16), AddressError>((ip, default_port)),
{
    assert(is_address_char(text[0]));
    if ip is V4 {
        lemma_no_colon(text);
    } else {
        let (i, j) = choose|i: int, j: int|
            0 <= i < j < text.len() && #[trigger] text[i] == ':' && #[trigger] text[j] == ':';
        lemma_some_last_colon(text, j);
        let k = last_colon(text)->Some_0;
        assert(text.take(k)[i] == ':');
        assert(text.take(k).contains(':'));
    }
}

/// A host, alone or with a port, comes to the address that was found for it, and
/// to none where none was found.
pub proof fn host_comes_to_its_address(
    name: Seq<char>,
    port: u16,
    default_port: u16,
    resolved: Option<IpAddr>,
)
    requires
        is_host(name),
        name[0] != '[',
        plain_address(name) is None,
    ensures
        address_resolved(name, default_port, resolved) == match resolved {
            Some(ip) => Ok::<(IpAddr, u16), AddressError>((ip, default_port)),
            None => Err(AddressError::InvalidFormat),
        },
        address_resolved(
            name + seq![':'] + decimal_text(port as nat),
            default_port,
            resolved,
        ) == match resolved {
            Some(ip) => Ok::<(IpAddr, u16), AddressError>((ip, port)),
            None => Err(AddressError::InvalidFormat),
        },
{
    lemma_no_colon(name);
    let digits = decimal_text(port as nat);
    decimal_text_reads_back(port as nat, 65535);
    let s = name + seq![':'] + digits;
    let k = name.len() as int;
    assert forall|i: int| k < i < s.len() implies #[trigger] s[i] != ':' by {
        assert(s[i] == digits[i - k - 1]);
        assert(is_digit(digits[i - k - 1]));
    }
    lemma_last_colon(s, k);
    assert(s[0] == name[0]);
    assert(s.take(k) =~= name);
    assert(s.skip(k + 1) =~= digits);
}

proof fn lemma_some_last_colon(s: Seq<char>, j: int)
    requires
        0 <= j < s.len(),
        s[j] == ':',
    ensures
        last_colon(s) matches Some(k) && j <= k < s.len(),
    decreases s.len(),
{
    if s.last() != ':' {
        lemma_some_last_colon(s.drop_last(), j);
    }
}

/// What a line of the list holds.
#[derive(Debug, PartialEq, Eq)]
pub enum LineContent {
    /// A remote.
    Remote(IpAddr, u16),
    /// A host that has to be looked up, and its port.
    Host(String, u16),
    /// Something with a slash that is no network: the list is refused.
    BadNetwork,
    /// Something that is neither an address nor a host, which is passed over.
    Skipped,
}

/// What a line of the list holds, with the host as a text.
pub enum LineText {
    Remote(IpAddr, u16),
    Host(Seq<char>, u16),
    BadNetwork,
    Skipped,
}

impl View for LineContent {
    type V = LineText;

    open spec fn view(&self) -> LineText {
        match self {
            LineContent::Remote(ip, port) => LineText::Remote(*ip, *port),
            LineContent::Host(name, port) => LineText::Host(name@, *port),
            LineContent::BadNetwork => LineText::BadNetwork,
            LineContent::Skipped => LineText::Skipped,
        }
    }
}

/// What a line of the list holds. Of a network only the address counts.
pub open spec fn content_of(line: Seq<char>, default_port: u16) -> LineText {
    if line.contains('/') {
        match ipnetwork_address(line) {
            Some(ip) => LineText::Remote(ip, default_port),
            None => LineText::BadNetwork,
        }
    } else {
        match address_of(trimmed(line), default_port) {
            Ok(remote) => LineText::Remote(remote.0, remote.1),
            Err(_) => match host_of(trimmed(line), default_port) {
                Some(host) => LineText::Host(host.0, host.1),
                None => LineText::Skipped,
            },
        }
    }
}

/// Reads a line of the list.
pub fn read_line(line: &str, default_port: u16) -> (content: LineContent)
    ensures
        content@ == content_of(line@, default_port),
{
    if has_char(line, '/') {
        return match parse_with_ipnetwork(line) {
            Some(ip) => LineContent::Remote(ip, default_port),
            None => LineContent::BadNetwork,
        };
    }
    match parse_ip_port(line, default_port) {
        Ok((ip, port)) => LineContent::Remote(ip, port),
        Err(_) => match host_and_port(line, default_port) {
            Some((name, port)) => LineContent::Host(name, port),
            None => LineContent::Skipped,
        },
    }
}

/// The remote that a line adds, where `answer` is the address of its host.
pub open spec fn remote_of(content: LineText, answer: Option<IpAddr>) -> Option<(IpAddr, u16)> {
    match content {
        LineText::Remote(ip, port) => Some((ip, port)),
        LineText::Host(_, port) => match answer {
            Some(ip) => Some((ip, port)),
            None => None,
        },
        LineText::BadNetwork | LineText::Skipped => None,
    }
}

/// A line without a slash adds what its address or host comes to, or nothing.
pub proof fn line_adds_its_address(line: Seq<char>, default_port: u16, answer: Option<IpAddr>)
    requires
        !line.contains('/'),
    ensures
        remote_of(content_of(line, default_port), answer) == match address_resolved(
            trimmed(line),
            default_port,
            answer,
        ) {
            Ok(remote) => Some(remote),
            Err(_) => None,
        },
{
}

/// The address that was found for the host of a line.
pub open spec fn answer_to(answers: Seq<Option<IpAddr>>, place: int) -> Option<IpAddr> {
    if 0 <= place < answers.len() {
        answers[place]
    } else {
        None
    }
}

/// The remotes of a list, in order, up to the first line that refuses it, and
/// the place of that line.
pub open spec fn remotes_in(contents: Seq<LineText>, answers: Seq<Option<IpAddr>>) -> (
    Seq<(IpAddr, u16)>,
    Option<int>,
)
    decreases contents.len(),
{
    if contents.len() == 0 {
        (Seq::empty(), None)
    } else {
        let before = remotes_in(contents.drop_last(), answers);
        let place = contents.len() - 1;
        if before.1 is Some {
            before
        } else if contents.last() is BadNetwork {
            (before.0, Some(place))
        } else {
            match remote_of(contents.last(), answer_to(answers, place)) {
                Some(remote) => (before.0.push(remote), None),
                None => before,
            }
        }
    }
}

/// A list that is refused stays refused with more lines.
proof fn lemma_refused(contents: Seq<LineText>, answers: Seq<Option<IpAddr>>, n: int)
    requires
        0 <= n <= contents.len(),
        remotes_in(contents.take(n), answers).1 is Some,
    ensures
        remotes_in(contents, answers) == remotes_in(contents.take(n), answers),
    decreases contents.len() - n,
{
    if n == contents.len() {
        assert(contents.take(n) =~= contents);
    } else {
        assert(contents.take(n + 1).drop_last() =~= contents.take(n));
        lemma_refused(contents, answers, n + 1);
    }
}

/// What the lines of a list hold, with the hosts as texts.
pub open spec fn content_views(contents: Seq<LineContent>) -> Seq<LineText> {
    contents.map_values(|c: LineContent| c@)
}

/// Collects the remotes of a list up to the first line that refuses it, and
/// gives the place of that line. `answers` holds for each line the address of
/// its host; one that is missing is none.
pub fn collect_remotes(contents: &Vec<LineContent>, answers: &Vec<Option<IpAddr>>) -> (r: (
    Vec<(IpAddr, u16)>,
    Option<usize>,
))
    ensures
        remotes_in(content_views(contents@), answers@).0 == r.0@,
        match r.1 {
            Some(place) => remotes_in(content_views(contents@), answers@).1 == Some(place as int)
                && place < contents@.len(),
            None => remotes_in(content_views(contents@), answers@).1 is None,
        },
{
    let ghost views: Seq<LineText> = content_views(contents@);
    let mut remotes: Vec<(IpAddr, u16)> = Vec::new();
    let mut i: usize = 0;
    assert(views.take(0) =~= Seq::empty());
    while i < contents.len()
        invariant
            i <= contents@.len(),
            views == content_views(contents@),
            remotes_in(views.take(i as int), answers@).0 == remotes@,
            remotes_in(views.take(i as int), answers@).1 is None,
        decreases contents@.len() - i,
    {
        assert(views.take(i + 1).drop_last() =~= views.take(i as int));
        assert(views.take(i + 1).last() == contents@[i as int]@);
        match &contents[i] {
            LineContent::Remote(ip, port) => remotes.push((*ip, *port)),
            LineContent::Host(_, port) => {
                if i < answers.len() {
                    if let Some(ip) = answers[i] {
                        remotes.push((ip, *port));
                    }
                }
            },
            LineContent::BadNetwork => {
                proof {
                    lemma_refused(views, answers@, i + 1);
                }
                return (remotes, Some(i));
            },
            LineContent::Skipped => {},
        }
        i = i + 1;
    }
    assert(views.take(i as int) =~= views);
    (remotes, None)
}

/// What the lines of a list hold.
pub open spec fn contents_of(text: Seq<char>, default_port: u16) -> Seq<LineText> {
    entries_of(text).map_values(|line: Seq<char>| content_of(line, default_port))
}

/// Reads the lines of a list of remotes that are neither empty nor comments.
pub fn read_lines(text: &str, default_port: u16) -> (contents: Vec<LineContent>)
    ensures
        content_views(contents@) == contents_of(text@, default_port),
{
    let lines: Vec<String> = cidr_entries(text);
    let mut contents: Vec<LineContent> = Vec::new();
    let mut i: usize = 0;
    while i < lines.len()
        invariant
            i <= lines@.len(),
            string_views(lines@) == entries_of(text@),
            content_views(contents@) =~= contents_of(text@, default_port).take(i as int),
        decreases lines@.len() - i,
    {
        assert(entries_of(text@)[i as int] == lines@[i as int]@);
        let ghost before: Seq<LineContent> = contents@;
        let content: LineContent = read_line(lines[i].as_str(), default_port);
        contents.push(content);
        assert(content_views(contents@) =~= content_views(before).push(content@));
        i = i + 1;
    }
    assert(content_views(contents@) =~= contents_of(text@, default_port));
    contents
}

/// A list of remotes that is refused.
#[derive(Debug, PartialEq, Eq)]
pub struct RefusedList {
    /// The line that refuses it.
    pub line: String,
    /// The remotes of the lines before.
    pub remotes: Vec<(IpAddr, u16)>,
}

/// Reads the list of remotes, one a line. Empty lines, comments and lines that
/// come to no address are passed over; a line with a slash that is no network
/// refuses the list, and the first such line is handed back with the remotes
/// before it. `answers` holds for each line that `read_lines` gives the address
/// of its host; one that is missing is none.
pub fn load_ip_list(text: &str, default_port: u16, answers: &Vec<Option<IpAddr>>) -> (r: Result<
    Vec<(IpAddr, u16)>,
    RefusedList,
>)
    ensures
        ({
            let (remotes, refused) = remotes_in(contents_of(text@, default_port), answers@);
            match refused {
                None => r matches Ok(list) && list@ == remotes,
                Some(place) => r matches Err(e) && e.line@ == entries_of(text@)[place]
                    && e.remotes@ == remotes,
            }
        }),
{
    let contents: Vec<LineContent> = read_lines(text, default_port);
    let (remotes, refused) = collect_remotes(&contents, answers);
    match refused {
        None => Ok(remotes),
        Some(place) => {
            let lines: Vec<String> = cidr_entries(text);
            assert(entries_of(text@)[place as int] == lines@[place as int]@);
            Err(RefusedList { line: lines[place].clone(), remotes })
        },
    }
}

/// Whether the remotes are listed in a file, the only place there is.
pub open spec fn lists_in_file(provider: ProviderConfig) -> bool {
    provider.provider_type@ == "file"@ && provider.file is Some
}

/// Finds the file in which the remotes are listed; nothing where they are
/// listed anywhere else.
pub fn provider_file(provider: &ProviderConfig) -> (r: Option<&FileProviderConfig>)
    ensures
        r is Some <==> lists_in_file(*provider),
        r matches Some(file) ==> provider.file == Some(*file),
{
    if !same_str(provider.provider_type.as_str(), "file") {
        return None;
    }
    provider.file.as_ref()
}

/// A port is read off a text if and only if the text is that of a number up to
/// sixty-five thousand five hundred and thirty-five, which it then is.
pub proof fn ports_fit_sixteen_bits(text: Seq<char>)
    ensures
        port_of(text) is Some <==> unsigned_of(text, 0xFFFF) is Some,
        port_of(text) matches Some(port) ==> unsigned_of(text, 0xFFFF) == Some(port as int),
{
    numbers_keep_to_the_limit(text, 0xFFFF);
}

/// An address in brackets with something behind a colon: an address that is none
/// is told before a port that is none, and else both are what they are. Without
/// a colon the port is the one by default.
pub proof fn brackets_hold_an_address(ip: Seq<char>, tail: Seq<char>, default_port: u16)
    requires
        !ip.contains(']'),
    ensures
        ({
            let found = address_of(seq!['['] + ip + seq![']', ':'] + tail, default_port);
            &&& plain_address(ip) is None ==> found == Err::<(IpAddr, u16), AddressError>(
                AddressError::InvalidIp,
            )
            &&& plain_address(ip) is Some && port_of(tail) is None ==> found == Err::<
                (IpAddr, u16),
                AddressError,
            >(AddressError::InvalidPort)
            &&& plain_address(ip) is Some && port_of(tail) is Some ==> found == Ok::<
                (IpAddr, u16),
                AddressError,
            >((plain_address(ip)->0, port_of(tail)->0))
        }),
        ({
            let found = address_of(seq!['['] + ip + seq![']'], default_port);
            &&& plain_address(ip) is None ==> found == Err::<(IpAddr, u16), AddressError>(
                AddressError::InvalidIp,
            )
            &&& plain_address(ip) is Some ==> found == Ok::<(IpAddr, u16), AddressError>(
                (plain_address(ip)->0, default_port),
            )
        }),
{
    let with: Seq<char> = seq!['['] + ip + seq![']', ':'] + tail;
    let b: int = ip.len() as int + 1;
    assert forall|i: int| 0 <= i < b implies #[trigger] with[i] != ']' by {
        if i > 0 {
            assert(with[i] == ip[i - 1]);
        }
    }
    assert(with[b] == ']' && with[b + 1] == ':');
    lemma_bracket_end(with, 0, b);
    assert(with.subrange(1, b) =~= ip);
    assert(with.skip(b + 2) =~= tail);
    let without: Seq<char> = seq!['['] + ip + seq![']'];
    assert forall|i: int| 0 <= i < without.len() - 1 implies #[trigger] without[i] != ']' by {
        if i > 0 {
            assert(without[i] == ip[i - 1]);
        }
    }
    lemma_no_bracket_end(without, 0);
    assert(without.last() == ']');
    assert(without.subrange(1, without.len() - 1) =~= ip);
}

/// A bracket that ends the text is followed by no colon.
proof fn lemma_no_bracket_end(s: Seq<char>, from: int)
    requires
        0 <= from,
        forall|i: int| from <= i < s.len() - 1 ==> #[trigger] s[i] != ']',
    ensures
        bracket_end(s, from) is None,
    decreases s.len() - from,
{
    if from + 1 < s.len() {
        assert(s[from] != ']');
        lemma_no_bracket_end(s, from + 1);
    }
}

/// A text with one colon is an address and a port if and only if both are; one
/// without a colon is an address, with the port by default. Nothing else is
/// told of the others than that they have no such form.
pub proof fn one_colon_parts_the_port(head: Seq<char>, tail: Seq<char>, default_port: u16)
    requires
        !head.contains(':'),
        !tail.contains(':'),
        head.len() > 0,
        head[0] != '[',
    ensures
        address_of(head + seq![':'] + tail, default_port) == if plain_address(head) is Some
            && port_of(tail) is Some {
            Ok::<(IpAddr, u16), AddressError>((plain_address(head)->0, port_of(tail)->0))
        } else {
            Err(AddressError::InvalidFormat)
        },
        address_of(head, default_port) == match plain_address(head) {
            Some(ip) => Ok::<(IpAddr, u16), AddressError>((ip, default_port)),
            None => Err(AddressError::InvalidFormat),
        },
{
    let s: Seq<char> = head + seq![':'] + tail;
    let k: int = head.len() as int;
    assert forall|i: int| k < i < s.len() implies #[trigger] s[i] != ':' by {
        assert(s[i] == tail[i - k - 1]);
    }
    lemma_last_colon(s, k);
    assert(s.take(k) =~= head);
    assert(s.skip(k + 1) =~= tail);
    assert(s[0] == head[0]);
    lemma_no_colon(head);
}

/// A line with a slash is a network, of which the address is taken, with the
/// port by default; where it is none, the list is refused. No other line
/// refuses the list.
pub proof fn networks_stand_for_their_address(line: Seq<char>, default_port: u16)
    ensures
        content_of(line, default_port) is BadNetwork <==> line.contains('/') && ipnetwork_address(
            line,
        ) is None,
        line.contains('/') && ipnetwork_address(line) is Some ==> content_of(line, default_port)
            == LineText::Remote(ipnetwork_address(line)->0, default_port),
{
}

/// What the lines of a list come to, each with its answer.
pub open spec fn line_remotes(contents: Seq<LineText>, answers: Seq<Option<IpAddr>>) -> Seq<
    Option<(IpAddr, u16)>,
> {
    Seq::new(
        contents.len(),
        |i: int|
            match contents[i] {
                LineText::Remote(ip, port) => Some((ip, port)),
                LineText::Host(_, port) => if i < answers.len() && answers[i] is Some {
                    Some((answers[i]->0, port))
                } else {
                    None
                },
                _ => None,
            },
    )
}

/// The remotes of a list are those that its lines come to, in order: an address
/// by itself, a host by the answer at its place.
pub proof fn lines_give_their_remotes(contents: Seq<LineText>, answers: Seq<Option<IpAddr>>)
    requires
        forall|i: int| 0 <= i < contents.len() ==> !((#[trigger] contents[i]) is BadNetwork),
    ensures
        remotes_in(contents, answers).0 == somes(line_remotes(contents, answers)),
        remotes_in(contents, answers).1 is None,
    decreases contents.len(),
{
    if contents.len() > 0 {
        let shorter: Seq<LineText> = contents.drop_last();
        assert forall|i: int| 0 <= i < shorter.len() implies !((#[trigger] shorter[i])
            is BadNetwork) by {
            assert(shorter[i] == contents[i]);
        }
        lines_give_their_remotes(shorter, answers);
        assert(!(contents[contents.len() - 1] is BadNetwork));
        assert(line_remotes(contents, answers).drop_last() =~= line_remotes(shorter, answers));
    }
}

/// A list is refused at its first bad network, with the remotes before that.
pub proof fn bad_network_refuses_the_list(
    contents: Seq<LineText>,
    answers: Seq<Option<IpAddr>>,
    place: int,
)
    requires
        0 <= place < contents.len(),
        contents[place] is BadNetwork,
        forall|i: int| 0 <= i < place ==> !((#[trigger] contents[i]) is BadNetwork),
    ensures
        remotes_in(contents, answers).1 == Some(place),
        remotes_in(contents, answers).0 == somes(line_remotes(contents.take(place), answers)),
{
    let first: Seq<LineText> = contents.take(place);
    assert forall|i: int| 0 <= i < first.len() implies !((#[trigger] first[i]) is BadNetwork) by {
        assert(first[i] == contents[i]);
    }
    lines_give_their_remotes(first, answers);
    let refused: Seq<LineText> = contents.take(place + 1);
    assert(refused.drop_last() =~= first);
    assert(refused.last() == contents[place]);
    lemma_refused(contents, answers, place + 1);
}

/// The remotes are listed in a file if and only if that is the kind that is set
/// and a file is named.
pub proof fn listed_remotes_need_a_file(provider: ProviderConfig)
    ensures
        provider.provider_type@ != "file"@ || provider.file is None ==> !lists_in_file(provider),
        provider.provider_type@ == "file"@ && provider.file is Some ==> lists_in_file(provider),
{
}

} // verus!
