//! The head of an HTTP request, as the forward proxy reads and writes it, and
//! the rule that decides what the proxy does with a request.

use crate::text::{
    field, field_value, lines_of, split_lines, split_words, starts_with, str_eq, texts, words_of,
};
use vstd::prelude::*;
use vstd::string::StringExecFns;

verus! {

/// The request methods that the proxy knows.
#[derive(Clone, Copy, Debug, PartialEq, Eq)]
pub enum Method {
    Get,
    Post,
    Connect,
}

/// What the proxy does with a request.
#[derive(Clone, Copy, Debug, PartialEq, Eq)]
pub enum ProxyType {
    /// The request is passed on to its host.
    Direct,
    /// The request is answered with a page of the proxy's own.
    Fish,
    /// The request is refused.
    Ban,
}

/// The hosts that are passed on, answered locally, and refused. A host is
/// meant by an entry that it begins with.
#[derive(Debug)]
pub struct Rule {
    pub direct: Vec<String>,
    pub fish: Vec<String>,
    pub ban: Vec<String>,
}

/// Whether `host` begins with one of the first `n` entries.
pub open spec fn listed(host: Seq<char>, entries: Seq<String>, n: int) -> bool {
    exists|i: int| 0 <= i < n && (#[trigger] entries[i])@.is_prefix_of(host)
}

/// What the rule says of a host: the first of the lists `direct`, `fish` and
/// `ban` that names it decides, and a host that none names is passed on.
pub open spec fn filter_of(host: Seq<char>, rule: Rule) -> ProxyType {
    if listed(host, rule.direct@, rule.direct@.len() as int) {
        ProxyType::Direct
    } else if listed(host, rule.fish@, rule.fish@.len() as int) {
        ProxyType::Fish
    } else if listed(host, rule.ban@, rule.ban@.len() as int) {
        ProxyType::Ban
    } else {
        ProxyType::Direct
    }
}

fn is_listed(host: &str, entries: &Vec<String>) -> (r: bool)
    ensures
        r == listed(host@, entries@, entries@.len() as int),
{
    let mut i: usize = 0;
    while i < entries.len()
        invariant
            i <= entries.len(),
            !listed(host@, entries@, i as int),
        decreases entries.len() - i,
    {
        if starts_with(host, entries[i].as_str()) {
            return true;
        }
        i += 1;
    }
    false
}

/// Decides what the proxy does with a request, by its host.
pub fn get_filter(head: &RequestHeader, rule: &Rule) -> (r: ProxyType)
    ensures
        r == filter_of(head.host@, *rule),
{
    if is_listed(head.host.as_str(), &rule.direct) {
        return ProxyType::Direct;
    }
    if is_listed(head.host.as_str(), &rule.fish) {
        return ProxyType::Fish;
    }
    if is_listed(head.host.as_str(), &rule.ban) {
        return ProxyType::Ban;
    }
    ProxyType::Direct
}

/// The name of a method, as it stands in a request line.
pub open spec fn method_text(method: Method) -> Seq<char> {
    match method {
        Method::Get => "GET"@,
        Method::Post => "POST"@,
        Method::Connect => "CONNECT"@,
    }
}

/// The method that a name stands for, if any.
pub open spec fn method_named(name: Seq<char>) -> Option<Method> {
    if name == "GET"@ {
        Some(Method::Get)
    } else if name == "POST"@ {
        Some(Method::Post)
    } else if name == "CONNECT"@ {
        Some(Method::Connect)
    } else {
        None
    }
}

impl Method {
    /// The method that a name stands for, if any.
    pub fn from_str(s: &str) -> (r: Option<Method>)
        ensures
            r == method_named(s@),
    {
        if str_eq(s, "GET") {
            Some(Self::Get)
        } else if str_eq(s, "POST") {
            Some(Self::Post)
        } else if str_eq(s, "CONNECT") {
            Some(Self::Connect)
        } else {
            None
        }
    }

    /// The name of the method, as it stands in a request line.
    pub fn to_str(&self) -> (r: &'static str)
        ensures
            r@ == method_text(*self),
    {
        match self {
            Self::Get => "GET",
            Self::Post => "POST",
            Self::Connect => "CONNECT",
        }
    }
}

/// The head of a request.
#[derive(Debug)]
pub struct RequestHeader {
    pub method: Method,
    pub url: String,
    pub cookie: Vec<String>,
    pub host: String,
    /// The time of the cached answer, where there is one.
    pub cache_time: Option<String>,
}

/// The head of an answer.
#[derive(Debug)]
pub struct RespondHeader {
    pub code: u8,
    pub length: u16,
    pub content: Vec<u8>,
}

/// The head of a request, mathematically.
pub struct HeaderView {
    pub method: Method,
    pub url: Seq<char>,
    pub cookie: Seq<Seq<char>>,
    pub host: Seq<char>,
    pub cache_time: Option<Seq<char>>,
}

impl View for RequestHeader {
    type V = HeaderView;

    open spec fn view(&self) -> HeaderView {
        HeaderView {
            method: self.method,
            url: self.url@,
            cookie: texts(self.cookie@),
            host: self.host@,
            cache_time: match self.cache_time {
                Some(t) => Some(t@),
                None => None,
            },
        }
    }
}

/// The name that opens the line of the host.
pub open spec fn host_name() -> Seq<char> {
    "Host: "@
}

/// The name that opens a line of cookies.
pub open spec fn cookie_name() -> Seq<char> {
    "Cookie: "@
}

/// The value of the first of the lines from position `from` up to position
/// `to` that begins with `name`.
pub open spec fn first_field(lines: Seq<Seq<char>>, from: int, to: int, name: Seq<char>) -> Option<
    Seq<char>,
>
    decreases to - from,
{
    if to <= from {
        None
    } else {
        match first_field(lines, from, to - 1, name) {
            Some(value) => Some(value),
            None => field(lines[to - 1], name),
        }
    }
}

/// The values of those of the lines from position `from` up to position `to`
/// that begin with `name`, in order.
pub open spec fn fields(lines: Seq<Seq<char>>, from: int, to: int, name: Seq<char>) -> Seq<
    Seq<char>,
>
    decreases to - from,
{
    if to <= from {
        Seq::empty()
    } else {
        match field(lines[to - 1], name) {
            Some(value) => fields(lines, from, to - 1, name).push(value),
            None => fields(lines, from, to - 1, name),
        }
    }
}

/// What the text of a request is read as; `None` where it is no request.
///
/// The first line holds at least three words, of which the first names the
/// method and the second is the URL. Of the lines that follow, the first that
/// begins with the host's name gives the host, and each that begins with the
/// cookies' name gives a cookie. A request without a host is none.
pub open spec fn parsed(msg: Seq<char>) -> Option<HeaderView> {
    let lines = lines_of(msg);
    if lines.len() == 0 {
        None
    } else {
        let parts = words_of(lines[0]);
        let host = first_field(lines, 1, lines.len() as int, host_name());
        if parts.len() < 3 || method_named(parts[0]) is None || host is None {
            None
        } else {
            Some(
                HeaderView {
                    method: method_named(parts[0])->Some_0,
                    url: parts[1],
                    cookie: fields(lines, 1, lines.len() as int, cookie_name()),
                    host: host->Some_0,
                    cache_time: None,
                },
            )
        }
    }
}

/// The lines that every request of the proxy carries behind its host, each
/// closed by `brk`.
pub open spec fn fixed_lines(brk: Seq<char>) -> Seq<char> {
    "User-Agent: Wget/1.21.4"@ + brk + "Accept: */*"@ + brk + "Accept-Encoding: identity"@ + brk
        + "Connection: Keep-Alive"@ + brk + "Proxy-Connection: Keep-Alive"@ + brk
}

/// The line break: a carriage return and a line feed, or a line feed alone.
pub open spec fn line_break(crlf: bool) -> Seq<char> {
    if crlf {
        "\r\n"@
    } else {
        "\n"@
    }
}

/// The text of a request: the request line, the host, the fixed lines, the
/// time of the cached answer where there is one, and an empty line.
pub open spec fn request_text(head: HeaderView, crlf: bool) -> Seq<char> {
    let brk = line_break(crlf);
    method_text(head.method) + " "@ + head.url + " "@ + "HTTP/1.1"@ + brk + "Host: "@ + head.host
        + brk + fixed_lines(brk) + (match head.cache_time {
        Some(t) => "If-Modified-Since: "@ + t + brk,
        None => Seq::empty(),
    }) + brk
}

impl RequestHeader {
    /// Reads the head of a request from its text.
    pub fn from(msg: &str) -> (r: Option<RequestHeader>)
        ensures
            r is Some <==> parsed(msg@) is Some,
            r is Some ==> r->Some_0@ == parsed(msg@)->Some_0,
    {
        let lines = split_lines(msg);
        if lines.len() == 0 {
            return None;
        }
        assert(texts(lines@)[0] == lines@[0]@);
        let parts = split_words(lines[0].as_str());
        if parts.len() < 3 {
            return None;
        }
        assert(texts(parts@)[0] == parts@[0]@);
        assert(texts(parts@)[1] == parts@[1]@);
        let method = match Method::from_str(parts[0].as_str()) {
            Some(method) => method,
            None => { return None; },
        };
        let url = parts[1].clone();
        let mut host: Option<String> = None;
        let mut cookie: Vec<String> = Vec::new();
        let mut i: usize = 1;
        while i < lines.len()
            invariant
                1 <= i <= lines.len(),
                host is Some <==> first_field(texts(lines@), 1, i as int, host_name()) is Some,
                host is Some ==> host->Some_0@ == first_field(
                    texts(lines@),
                    1,
                    i as int,
                    host_name(),
                )->Some_0,
                texts(cookie@) == fields(texts(lines@), 1, i as int, cookie_name()),
            decreases lines.len() - i,
        {
            let line = lines[i].as_str();
            assert(texts(lines@)[i as int] == line@);
            match field_value(line, "Host: ") {
                Some(value) => {
                    if host.is_none() {
                        host = Some(value);
                    }
                },
                None => {},
            }
            match field_value(line, "Cookie: ") {
                Some(value) => {
                    assert(texts(cookie@.push(value)) =~= texts(cookie@).push(value@));
                    cookie.push(value);
                },
                None => {},
            }
            i += 1;
        }
        match host {
            Some(host) => Some(RequestHeader { method, url, host, cookie, cache_time: None }),
            None => None,
        }
    }

    /// Writes the request out, with the line break that `crlf` selects.
    pub fn construct(&self, crlf: bool) -> (head: String)
        ensures
            head@ == request_text(self@, crlf),
    {
        let brk = if crlf {
            "\r\n"
        } else {
            "\n"
        };
        let mut head = String::new();
        head.append(self.method.to_str());
        head.append(" ");
        head.append(self.url.as_str());
        head.append(" ");
        head.append("HTTP/1.1");
        head.append(brk);
        head.append("Host: ");
        head.append(self.host.as_str());
        head.append(brk);
        let ghost before = head@;
        head.append("User-Agent: Wget/1.21.4");
        head.append(brk);
        head.append("Accept: */*");
        head.append(brk);
        head.append("Accept-Encoding: identity");
        head.append(brk);
        head.append("Connection: Keep-Alive");
        head.append(brk);
        head.append("Proxy-Connection: Keep-Alive");
        head.append(brk);
        assert(head@ =~= before + fixed_lines(brk@));
        let ghost fixed = head@;
        match &self.cache_time {
            Some(t) => {
                head.append("If-Modified-Since: ");
                head.append(t.as_str());
                head.append(brk);
                assert(head@ =~= fixed + ("If-Modified-Since: "@ + t@ + brk@));
            },
            None => {
                assert(head@ =~= fixed + Seq::<char>::empty());
            },
        }
        head.append(brk);
        assert(Seq::<char>::empty() + method_text(self.method) =~= method_text(self.method));
        head
    }

    /// The name under which the answer to this request is cached: the host
    /// and the URL.
    pub fn get_uniq_name(&self) -> (name: String)
        ensures
            name@ == self.host@ + self.url@,
    {
        let mut name = String::new();
        name.append(self.host.as_str());
        name.append(self.url.as_str());
        assert(name@ =~= self.host@ + self.url@);
        name
    }

    /// Sets the time of the cached answer.
    pub fn set_time(&mut self, t: String)
        ensures
            *final(self) == (RequestHeader { cache_time: Some(t), ..*old(self) }),
    {
        self.cache_time = Some(t);
    }

    /// The time of the cached answer, where there is one.
    pub fn get_time(&self) -> (t: Option<&str>)
        ensures
            t is Some <==> self.cache_time is Some,
            t is Some ==> t->Some_0@ == self.cache_time->Some_0@,
    {
        match &self.cache_time {
            Some(t) => Some(t.as_str()),
            None => None,
        }
    }
}

} // verus!
