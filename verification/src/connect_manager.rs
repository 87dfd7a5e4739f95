//! The proxy's cache of answers and its text form.
//!
//! The cache is kept as text, one record to a line: the name of the request,
//! the cached answer and the time it was cached, each in base64, with a space
//! between them.

use crate::httpheader::{
    filter_of, get_filter, listed, parsed, ProxyType, RequestHeader, Rule,
};
use crate::text::{
    ascii_words_of, chars_of, lines_of, split_ascii_words, split_lines, split_words, str_eq,
    texts, words_of,
};
use base64::Engine;
use vstd::prelude::*;
use vstd::string::{StringExecFns, StringSliceAdditionalSpecFns};

verus! {

/// A cached answer and the time it was cached.
#[derive(Debug)]
pub struct CacheEntry {
    pub content: Vec<u8>,
    pub time: String,
}

impl Clone for CacheEntry {
    fn clone(&self) -> (e: CacheEntry)
        ensures
            e.content@ == self.content@,
            e.time@ == self.time@,
    {
        CacheEntry { content: self.content.clone(), time: self.time.clone() }
    }
}

/// The head of the answer that goes before the proxy's own page.
pub const RESPON_NAME: &'static str =
    "HTTP/1.1 200 OK\r\nContent-Length: 4905\r\nContent-Type: text/html; charset=utf-8\r\nDate: Sat, 21 Oct 2023 00:59:19 GMT\r\nServer: fishman\r\n\r\n";

/// The error of base64's decoder.
#[verifier::external_type_specification]
#[verifier::external_body]
pub struct ExDecodeError(base64::DecodeError);

/// The standard base64 encoding of the bytes, with padding.
pub uninterp spec fn base64_text(bytes: Seq<u8>) -> Seq<char>;

/// The bytes that a text in standard base64 with padding decodes to, if it is
/// one.
pub uninterp spec fn base64_bytes(text: Seq<char>) -> Option<Seq<u8>>;

/// The text that the bytes encode in UTF-8, with the replacement character in
/// place of each part that encodes nothing.
pub uninterp spec fn lossy_text(bytes: Seq<u8>) -> Seq<char>;

/// The length of the base64 text of `len` bytes fits the machine.
pub open spec fn encodable(len: nat) -> bool {
    len / 3 * 4 + 4 <= usize::MAX
}

/// base64's `Engine::encode` on its `STANDARD` engine: the standard encoding
/// with padding. It panics where the length of the text does not fit the
/// machine, which the precondition excludes.
#[verifier::external_body]
fn base64_encode(bytes: &[u8]) -> (text: String)
    requires
        encodable(bytes@.len()),
    ensures
        text@ == base64_text(bytes@),
{
    base64::engine::general_purpose::STANDARD.encode(bytes)
}

/// base64's `Engine::decode` on its `STANDARD` engine: the bytes that the
/// text's bytes decode to, or the decoder's error.
#[verifier::external_body]
fn base64_decode(text: &str) -> (r: Result<Vec<u8>, base64::DecodeError>)
    ensures
        r is Ok <==> base64_bytes(text@) is Some,
        r is Ok ==> base64_bytes(text@) == Some(r->Ok_0@),
{
    base64::engine::general_purpose::STANDARD.decode(text)
}

/// std's `String::from_utf8_lossy`: the text that the bytes encode, with the
/// replacement character in place of each part that encodes nothing.
#[verifier::external_body]
fn lossy(bytes: &[u8]) -> (text: String)
    ensures
        text@ == lossy_text(bytes@),
{
    String::from_utf8_lossy(bytes).into_owned()
}

/// chrono's `Utc::now`, written out by its `format` as an HTTP date: the
/// time of the call. Of the text only this is claimed, that it is not empty:
/// the pattern ends in letters that are written as they stand.
#[verifier::external_body]
fn get_gmttime() -> (text: String)
    ensures
        text@.len() > 0,
{
    chrono::Utc::now().format("%a, %d %b %Y %T GMT").to_string()
}

/// An entry for an answer that is cached now. Its time is that of the call,
/// as an HTTP date.
pub fn fresh_entry(content: &[u8]) -> (e: CacheEntry)
    ensures
        e.content@ == content@,
        e.time@.len() > 0,
{
    CacheEntry { content: vstd::slice::slice_to_vec(content), time: get_gmttime() }
}

/// A record of the cache, mathematically: the name of the request, the
/// cached answer and the time it was cached.
pub struct Record {
    pub name: Seq<char>,
    pub content: Seq<u8>,
    pub time: Seq<char>,
}

/// What a record of the cache is, mathematically.
pub open spec fn record_of(r: (String, CacheEntry)) -> Record {
    Record { name: r.0@, content: r.1.content@, time: r.1.time@ }
}

/// What each of the records is, in order.
pub open spec fn records(rs: Seq<(String, CacheEntry)>) -> Seq<Record> {
    rs.map_values(|r: (String, CacheEntry)| record_of(r))
}

/// The record that a line of the cache's text holds, if it holds one: its
/// first three words, where each is base64.
pub open spec fn line_record(line: Seq<char>) -> Option<Record> {
    let words = words_of(line);
    if words.len() < 3 {
        None
    } else {
        match (base64_bytes(words[0]), base64_bytes(words[1]), base64_bytes(words[2])) {
            (Some(name), Some(content), Some(time)) => Some(
                Record { name: lossy_text(name), content, time: lossy_text(time) },
            ),
            _ => None,
        }
    }
}

/// The records of the first `n` lines, in order. A line that holds no record
/// is passed over.
pub open spec fn line_records(lines: Seq<Seq<char>>, n: int) -> Seq<Record>
    decreases n,
{
    if n <= 0 {
        Seq::empty()
    } else {
        match line_record(lines[n - 1]) {
            Some(r) => line_records(lines, n - 1).push(r),
            None => line_records(lines, n - 1),
        }
    }
}

/// Reads the record that a line of the cache's text holds, if it holds one.
pub fn read_record(line: &str) -> (r: Option<(String, CacheEntry)>)
    ensures
        r is Some <==> line_record(line@) is Some,
        r is Some ==> record_of(r->Some_0) == line_record(line@)->Some_0,
{
    let words = split_words(line);
    if words.len() < 3 {
        return None;
    }
    assert(texts(words@)[0] == words@[0]@);
    assert(texts(words@)[1] == words@[1]@);
    assert(texts(words@)[2] == words@[2]@);
    let name = match base64_decode(words[0].as_str()) {
        Ok(name) => name,
        Err(_) => { return None; },
    };
    let content = match base64_decode(words[1].as_str()) {
        Ok(content) => content,
        Err(_) => { return None; },
    };
    let time = match base64_decode(words[2].as_str()) {
        Ok(time) => time,
        Err(_) => { return None; },
    };
    Some((lossy(name.as_slice()), CacheEntry { content, time: lossy(time.as_slice()) }))
}

/// Reads the cache from its text: the records of its lines, in order. Where
/// two records carry one name, the later one is the one to keep.
pub fn read_cache(content: &str) -> (res: Vec<(String, CacheEntry)>)
    ensures
        records(res@) == line_records(lines_of(content@), lines_of(content@).len() as int),
{
    let lines = split_lines(content);
    let mut res: Vec<(String, CacheEntry)> = Vec::new();
    let mut i: usize = 0;
    while i < lines.len()
        invariant
            i <= lines.len(),
            texts(lines@) == lines_of(content@),
            records(res@) == line_records(lines_of(content@), i as int),
        decreases lines.len() - i,
    {
        assert(texts(lines@)[i as int] == lines@[i as int]@);
        match read_record(lines[i].as_str()) {
            Some(r) => {
                assert(records(res@.push(r)) =~= records(res@).push(record_of(r)));
                res.push(r);
            },
            None => {},
        }
        i += 1;
    }
    res
}

/// The line of the cache's text that holds the record, with its line feed.
pub open spec fn record_line(r: Record) -> Seq<char> {
    base64_text(vstd::utf8::encode_utf8(r.name)) + " "@ + base64_text(r.content) + " "@
        + base64_text(vstd::utf8::encode_utf8(r.time)) + "\n"@
}

/// The text of the first `n` records.
pub open spec fn records_text(rs: Seq<Record>, n: int) -> Seq<char>
    decreases n,
{
    if n <= 0 {
        Seq::empty()
    } else {
        records_text(rs, n - 1) + record_line(rs[n - 1])
    }
}

/// The base64 text of each part of the record fits the machine.
pub open spec fn record_encodable(r: Record) -> bool {
    &&& encodable(vstd::utf8::encode_utf8(r.name).len())
    &&& encodable(r.content.len())
    &&& encodable(vstd::utf8::encode_utf8(r.time).len())
}

/// Writes one record of the cache as a line of text.
pub fn write_record(name: &str, entry: &CacheEntry) -> (line: String)
    requires
        record_encodable(Record { name: name@, content: entry.content@, time: entry.time@ }),
    ensures
        line@ == record_line(Record { name: name@, content: entry.content@, time: entry.time@ }),
{
    let mut line = base64_encode(name.as_bytes());
    line.append(" ");
    line.append(base64_encode(entry.content.as_slice()).as_str());
    line.append(" ");
    line.append(base64_encode(entry.time.as_str().as_bytes()).as_str());
    line.append("\n");
    line
}

/// Writes the cache as text, one record to a line.
pub fn write_cahce(cache: &Vec<(String, CacheEntry)>) -> (contents: String)
    requires
        forall|i: int| 0 <= i < cache@.len() ==> record_encodable(#[trigger] records(cache@)[i]),
    ensures
        contents@ == records_text(records(cache@), cache@.len() as int),
{
    let mut contents = String::new();
    let mut i: usize = 0;
    while i < cache.len()
        invariant
            i <= cache.len(),
            forall|i: int| 0 <= i < cache@.len() ==> record_encodable(#[trigger] records(cache@)[i]),
            contents@ == records_text(records(cache@), i as int),
        decreases cache.len() - i,
    {
        assert(records(cache@)[i as int] == record_of(cache@[i as int]));
        let line = write_record(cache[i].0.as_str(), &cache[i].1);
        contents.append(line.as_str());
        i += 1;
    }
    contents
}

/// The text that the bytes stand for, each byte for the character of its
/// number.
pub open spec fn byte_text(bytes: Seq<u8>) -> Seq<char> {
    bytes.map_values(|b: u8| b as char)
}

/// Reads the bytes as text, each byte as the character of its number.
pub fn latin_text(bytes: &[u8]) -> (text: String)
    ensures
        text@ == byte_text(bytes@),
{
    let mut text = String::new();
    let mut i: usize = 0;
    while i < bytes.len()
        invariant
            i <= bytes.len(),
            text@ == byte_text(bytes@.subrange(0, i as int)),
        decreases bytes.len() - i,
    {
        text.push(bytes[i] as char);
        assert(text@ =~= byte_text(bytes@.subrange(0, i + 1)));
        i += 1;
    }
    assert(bytes@.subrange(0, i as int) =~= bytes@);
    text
}

/// The message that rejects what is no request.
pub open spec fn unresolved_message() -> Seq<char> {
    "Failed to resolve request head"@
}

/// Reads the head of a request from the bytes that a client sent.
pub fn read_request(bytes: &[u8]) -> (r: Result<RequestHeader, &'static str>)
    ensures
        r is Ok <==> parsed(byte_text(bytes@)) is Some,
        r is Ok ==> r->Ok_0@ == parsed(byte_text(bytes@))->Some_0,
        r is Err ==> r->Err_0@ == unresolved_message(),
{
    let content = latin_text(bytes);
    match RequestHeader::from(content.as_str()) {
        Some(head) => Ok(head),
        None => Err("Failed to resolve request head"),
    }
}

/// What the proxy's own rule says of a host: the university's hosts are
/// answered locally, the example's hosts are refused, all others passed on.
pub open spec fn route_of(host: Seq<char>) -> ProxyType {
    if "sjtu.edu.cn"@.is_prefix_of(host) {
        ProxyType::Fish
    } else if "example.com"@.is_prefix_of(host) {
        ProxyType::Ban
    } else {
        ProxyType::Direct
    }
}

/// The proxy's own rule.
pub fn default_rule() -> (rule: Rule)
    ensures
        rule.direct@.len() == 0,
        texts(rule.fish@) == seq!["sjtu.edu.cn"@],
        texts(rule.ban@) == seq!["example.com"@],
        forall|host: Seq<char>| filter_of(host, rule) == route_of(host),
{
    let mut fish: Vec<String> = Vec::new();
    fish.push("sjtu.edu.cn".to_owned());
    let mut ban: Vec<String> = Vec::new();
    ban.push("example.com".to_owned());
    let rule = Rule { direct: Vec::new(), fish, ban };
    assert(texts(rule.fish@) =~= seq!["sjtu.edu.cn"@]);
    assert(texts(rule.ban@) =~= seq!["example.com"@]);
    assert forall|host: Seq<char>| filter_of(host, rule) == route_of(host) by {
        assert(rule.fish@[0]@ == "sjtu.edu.cn"@);
        assert(rule.ban@[0]@ == "example.com"@);
        assert(!listed(host, rule.direct@, 0));
        assert(listed(host, rule.fish@, 1) == "sjtu.edu.cn"@.is_prefix_of(host));
        assert(listed(host, rule.ban@, 1) == "example.com"@.is_prefix_of(host));
    }
    rule
}

/// Decides what the proxy does with a request. Where its answer is cached,
/// the request takes the time of the cached answer, and the cached answer is
/// handed out for the case that it is still good.
pub fn run_connect(head: &mut RequestHeader, cached: Option<CacheEntry>) -> (r: (
    ProxyType,
    Option<Vec<u8>>,
))
    ensures
        r.0 == route_of(old(head).host@),
        match cached {
            Some(entry) => r.1 == Some(entry.content) && *final(head) == (RequestHeader {
                cache_time: Some(entry.time),
                ..*old(head)
            }),
            None => r.1 is None && *final(head) == *old(head),
        },
{
    let mut cache_str: Option<Vec<u8>> = None;
    if let Some(entry) = cached {
        cache_str = Some(entry.content);
        head.set_time(entry.time);
    }
    let rule = default_rule();
    (get_filter(head, &rule), cache_str)
}

/// Whether the text holds a colon.
pub open spec fn has_colon(s: Seq<char>) -> bool {
    exists|i: int| 0 <= i < s.len() && s[i] == ':'
}

/// The address of a host: the host as it is where it names a port, else with
/// the port of HTTP.
pub open spec fn address_of(host: Seq<char>) -> Seq<char> {
    if has_colon(host) {
        host
    } else {
        host + ":80"@
    }
}

/// The message that rejects an address on the port of HTTPS.
pub open spec fn https_message() -> Seq<char> {
    "Failed with https"@
}

/// Whether `chars` ends with `suffix`.
pub fn has_suffix(chars: &Vec<char>, suffix: &Vec<char>) -> (r: bool)
    ensures
        r == suffix@.is_suffix_of(chars@),
{
    if suffix.len() > chars.len() {
        return false;
    }
    let shift: usize = chars.len() - suffix.len();
    let ghost tail = chars@.subrange(shift as int, chars@.len() as int);
    let mut i: usize = 0;
    while i < suffix.len()
        invariant
            i <= suffix@.len(),
            shift + suffix@.len() == chars@.len() <= usize::MAX,
            tail == chars@.subrange(shift as int, chars@.len() as int),
            forall|j: int| 0 <= j < i ==> suffix@[j] == tail[j],
        decreases suffix.len() - i,
    {
        assert(tail[i as int] == chars@[shift + i]);
        if suffix[i] != chars[shift + i] {
            return false;
        }
        i += 1;
    }
    assert(suffix@ =~= tail);
    true
}

/// The address to connect to for a host, which is refused where it is on the
/// port of HTTPS.
pub fn remote_host(host: &str) -> (r: Result<String, &'static str>)
    ensures
        r is Ok <==> !":443"@.is_suffix_of(address_of(host@)),
        r is Ok ==> r->Ok_0@ == address_of(host@),
        r is Err ==> r->Err_0@ == https_message(),
{
    let mut chars = chars_of(host);
    let mut found = false;
    let mut i: usize = 0;
    while i < chars.len()
        invariant
            i <= chars.len(),
            chars@ == host@,
            found == (exists|j: int| 0 <= j < i && host@[j] == ':'),
        decreases chars.len() - i,
    {
        if chars[i] == ':' {
            found = true;
        }
        i += 1;
    }
    let mut address = host.to_owned();
    if !found {
        address.append(":80");
        let mut port = chars_of(":80");
        chars.append(&mut port);
    }
    assert(chars@ == address_of(host@));
    let suffix = chars_of(":443");
    if has_suffix(&chars, &suffix) {
        Err("Failed with https")
    } else {
        Ok(address)
    }
}

/// What the proxy does with the answer of a host.
#[derive(Debug)]
pub enum Answer {
    /// The cached answer is still good and goes to the client.
    Cached(Vec<u8>),
    /// The answer is cached and goes to the client.
    Fresh,
}

/// The status of an answer: the second word of its first line.
pub open spec fn status_of(text: Seq<char>) -> Option<Seq<char>> {
    let lines = lines_of(text);
    if lines.len() == 0 {
        None
    } else {
        let words = ascii_words_of(lines[0]);
        if words.len() < 2 {
            None
        } else {
            Some(words[1])
        }
    }
}

/// The status of an answer, if it has one.
pub fn status_code(text: &str) -> (code: Option<String>)
    ensures
        code is Some <==> status_of(text@) is Some,
        code is Some ==> code->Some_0@ == status_of(text@)->Some_0,
{
    let lines = split_lines(text);
    if lines.len() == 0 {
        return None;
    }
    assert(texts(lines@)[0] == lines@[0]@);
    let words = split_ascii_words(lines[0].as_str());
    if words.len() < 2 {
        return None;
    }
    assert(texts(words@)[1] == words@[1]@);
    Some(words[1].clone())
}

/// The message that rejects an answer without a status.
pub open spec fn invalid_response_message() -> Seq<char> {
    "Invalid http response"@
}

/// What the proxy does with the text of an answer. Where the request asked
/// whether the cached answer is still good, the answer must have a status;
/// the status 304 lets the cached answer go to the client, where there is
/// one. In every other case the answer itself is cached and passed on.
pub fn settle_answer(asked: bool, cache_str: Option<Vec<u8>>, text: &str) -> (r: Result<
    Answer,
    &'static str,
>)
    ensures
        r is Err <==> asked && status_of(text@) is None,
        r is Err ==> r->Err_0@ == invalid_response_message(),
        r is Ok ==> r->Ok_0 == (if asked && status_of(text@) == Some("304"@) && cache_str
            is Some {
            Answer::Cached(cache_str->Some_0)
        } else {
            Answer::Fresh
        }),
{
    if !asked {
        return Ok(Answer::Fresh);
    }
    match status_code(text) {
        None => Err("Invalid http response"),
        Some(code) => {
            if str_eq(code.as_str(), "304") {
                match cache_str {
                    Some(content) => Ok(Answer::Cached(content)),
                    None => Ok(Answer::Fresh),
                }
            } else {
                Ok(Answer::Fresh)
            }
        },
    }
}

/// What the proxy does with the bytes that a host answered to a request.
pub fn connect_dir(head: &RequestHeader, cache_str: Option<Vec<u8>>, response: &[u8]) -> (r: Result<
    Answer,
    &'static str,
>)
    ensures
        r is Err <==> head.cache_time is Some && status_of(lossy_text(response@)) is None,
        r is Err ==> r->Err_0@ == invalid_response_message(),
        r is Ok ==> r->Ok_0 == (if head.cache_time is Some && status_of(lossy_text(response@))
            == Some("304"@) && cache_str is Some {
            Answer::Cached(cache_str->Some_0)
        } else {
            Answer::Fresh
        }),
{
    let asked = head.get_time().is_some();
    let text = lossy(response);
    settle_answer(asked, cache_str, text.as_str())
}

} // verus!
