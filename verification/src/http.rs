//! Response texts and their parts: status line, headers and body.

use crate::error::Error;
use crate::text::{
    after, cut, cut_once, parse_u32, part, read_u32, replace_all, replaced, split, split_once, string_of,
    to_chars, trim, trim_start, trimmed, trimmed_start,
};
use vstd::prelude::*;
use vstd::string::StringExecFns;

verus! {

/// What a header is to the contracts.
pub ghost struct HeaderView {
    pub name: Seq<char>,
    pub value: Seq<char>,
}

/// What a response is to the contracts.
pub ghost struct ResponseView {
    pub version: Seq<char>,
    pub status_code: u32,
    pub reason: Seq<char>,
    pub headers: Seq<HeaderView>,
    pub body: Seq<char>,
}

/// The response text as it is read: without the white space in front of
/// it, and with a line feed in the place of every line feed that a
/// carriage return follows.
pub open spec fn preprocessed(raw: Seq<char>) -> Seq<char> {
    replace_all(trim_start(raw), "\n\r"@, "\n"@)
}

/// The header that a line `name: value` writes, name and value without
/// the white space around them; `None` for a line without `:`.
pub open spec fn header_of(line: Seq<char>) -> Option<HeaderView> {
    match split_once(line, ":"@) {
        Some((name, value)) => Some(HeaderView { name: trim(name), value: trim(value) }),
        None => None,
    }
}

/// The headers that `lines` write, or `None` where one of them writes
/// none.
pub open spec fn headers_of(lines: Seq<Seq<char>>) -> Option<Seq<HeaderView>> {
    if forall|i: int| 0 <= i < lines.len() ==> header_of(#[trigger] lines[i]) is Some {
        Some(Seq::new(lines.len(), |i: int| header_of(lines[i])->0))
    } else {
        None
    }
}

/// The status that the second field of a status line writes: its number,
/// or 404 where it writes none.
pub open spec fn status_of(field: Seq<char>) -> u32 {
    match parse_u32(field) {
        Some(code) => code,
        None => 404,
    }
}

/// The header lines and the body of what follows the status line. The
/// first empty line parts them: the lines before it are the header lines
/// and what follows it is the body. Where that empty line comes at once,
/// there is no header. Where there is no empty line, there is no header
/// and all is body.
pub open spec fn head_and_body(remaining: Seq<char>) -> (Seq<Seq<char>>, Seq<char>) {
    if remaining.len() > 0 && remaining[0] == '\n' {
        (Seq::empty(), remaining.drop_first())
    } else {
        match split_once(remaining, "\n\n"@) {
            Some((head, body)) => (split(head, "\n"@), body),
            None => (Seq::empty(), remaining),
        }
    }
}

/// The response that `raw` writes. The first line is the status line:
/// version, status and reason, parted by single spaces; what follows a
/// third space is dropped. Headers and body follow as `head_and_body`
/// parts them. `None` where `raw` has no line feed behind its first line,
/// where that line has fewer than three fields, or where a header line
/// has no `:`.
pub open spec fn response_of(raw: Seq<char>) -> Option<ResponseView> {
    match split_once(preprocessed(raw), "\n"@) {
        Some((status_line, remaining)) => {
            let fields = split(status_line, " "@);
            let (lines, body) = head_and_body(remaining);
            match headers_of(lines) {
                Some(headers) => if fields.len() >= 3 {
                    Some(
                        ResponseView {
                            version: fields[0],
                            status_code: status_of(fields[1]),
                            reason: fields[2],
                            headers,
                            body,
                        },
                    )
                } else {
                    None
                },
                None => None,
            }
        },
        None => None,
    }
}

/// The value of the first header of `headers` whose name is `name`.
pub open spec fn value_of(headers: Seq<HeaderView>, name: Seq<char>) -> Option<Seq<char>>
    decreases headers.len(),
{
    if headers.len() == 0 {
        None
    } else if headers[0].name == name {
        Some(headers[0].value)
    } else {
        value_of(headers.drop_first(), name)
    }
}

/// A text without a line feed behind its first line is no response.
pub proof fn lemma_without_status_line(raw: Seq<char>)
    requires
        split_once(preprocessed(raw), "\n"@) is None,
    ensures
        response_of(raw) is None,
{
}

/// Where no empty line follows the status line, the response has no
/// header, and all that follows the status line is its body.
pub proof fn lemma_without_separator(raw: Seq<char>, remaining: Seq<char>)
    requires
        response_of(raw) is Some,
        after(preprocessed(raw), "\n"@) == Some(remaining),
        remaining.len() == 0 || remaining[0] != '\n',
        split_once(remaining, "\n\n"@) is None,
    ensures
        response_of(raw) matches Some(response) && response.headers.len() == 0 && response.body
            == remaining,
{
}

/// Where an empty line follows the status line at once, the response has
/// no header, and its body is what follows that empty line. So it is
/// whenever the status line has its three fields.
pub proof fn lemma_empty_line_at_once(raw: Seq<char>, status_line: Seq<char>, body: Seq<char>)
    requires
        split_once(preprocessed(raw), "\n"@) == Some((status_line, seq!['\n'] + body)),
        split(status_line, " "@).len() >= 3,
    ensures
        response_of(raw) matches Some(response) && response.headers.len() == 0 && response.body
            == body,
{
    let remaining = seq!['\n'] + body;
    assert(remaining.drop_first() =~= body);
    assert(headers_of(Seq::empty()) == Some(Seq::<HeaderView>::empty())) by {
        assert(headers_of(Seq::empty())->0 =~= Seq::<HeaderView>::empty());
    }
}

/// One header of a response.
#[derive(Debug, PartialEq, Eq)]
pub struct Header {
    name: String,
    value: String,
}

impl View for Header {
    type V = HeaderView;

    closed spec fn view(&self) -> HeaderView {
        HeaderView { name: self.name@, value: self.value@ }
    }
}

impl Clone for Header {
    fn clone(&self) -> (copy: Self)
        ensures
            copy@ == self@,
    {
        Header { name: self.name.clone(), value: self.value.clone() }
    }
}

impl Header {
    /// The header `name: value`.
    pub fn new(name: String, value: String) -> (header: Self)
        ensures
            header@ == (HeaderView { name: name@, value: value@ }),
    {
        Self { name, value }
    }
}

/// The views of `headers`, in their order.
pub open spec fn header_views(headers: Seq<Header>) -> Seq<HeaderView> {
    Seq::new(headers.len(), |i: int| headers[i]@)
}

/// A response, cut into its parts.
#[derive(Debug, PartialEq, Eq)]
pub struct HttpResponse {
    pub version: String,
    pub status_code: u32,
    pub reason: String,
    pub headers: Vec<Header>,
    pub body: String,
}

impl View for HttpResponse {
    type V = ResponseView;

    open spec fn view(&self) -> ResponseView {
        ResponseView {
            version: self.version@,
            status_code: self.status_code,
            reason: self.reason@,
            headers: header_views(self.headers@),
            body: self.body@,
        }
    }
}

impl Clone for HttpResponse {
    fn clone(&self) -> (copy: Self)
        ensures
            copy@ == self@,
    {
        let mut headers: Vec<Header> = Vec::new();
        let mut i: usize = 0;
        while i < self.headers.len()
            invariant
                i <= self.headers.len(),
                headers.len() == i,
                forall|j: int| 0 <= j < i ==> headers[j]@ == self.headers[j]@,
            decreases self.headers.len() - i,
        {
            headers.push(self.headers[i].clone());
            i += 1;
        }
        assert(header_views(headers@) =~= header_views(self.headers@));
        HttpResponse {
            version: self.version.clone(),
            status_code: self.status_code,
            reason: self.reason.clone(),
            headers,
            body: self.body.clone(),
        }
    }
}

/// The error for a text that writes no response.
fn invalid(text: &Vec<char>) -> (error: Error)
    ensures
        error matches Error::Network(message) && message@ == "Invalid HTTP response: "@ + text@,
{
    let mut message = String::from_str("Invalid HTTP response: ");
    message.append(string_of(text).as_str());
    Error::Network(message)
}

/// Reads the header lines.
fn read_headers(lines: &Vec<Vec<char>>) -> (headers: Option<Vec<Header>>)
    ensures
        headers_of(Seq::new(lines.len() as nat, |i: int| lines[i]@)) == match headers {
            Some(headers) => Some(header_views(headers@)),
            None => None,
        },
{
    let ghost texts = Seq::new(lines.len() as nat, |i: int| lines[i]@);
    let mut headers: Vec<Header> = Vec::new();
    let mut i: usize = 0;
    while i < lines.len()
        invariant
            i <= lines.len(),
            headers.len() == i,
            texts == Seq::new(lines.len() as nat, |i: int| lines[i]@),
            forall|j: int| 0 <= j < i ==> header_of(#[trigger] texts[j]) == Some(headers[j]@),
        decreases lines.len() - i,
    {
        match cut_once(&lines[i], ":") {
            Some((name, value)) => {
                let header = Header::new(string_of(&trimmed(&name)), string_of(&trimmed(&value)));
                assert(header_of(texts[i as int]) == Some(header@));
                headers.push(header);
            },
            None => {
                assert(header_of(texts[i as int]) is None);
                return None;
            },
        }
        i += 1;
    }
    assert(header_views(headers@) =~= headers_of(texts)->0);
    Some(headers)
}

impl HttpResponse {
    /// Reads a response. What cannot be read is refused with an error that
    /// holds the text as it was read.
    pub fn new(raw_response: String) -> (result: Result<Self, Error>)
        ensures
            match response_of(raw_response@) {
                Some(response) => result matches Ok(read) && read@ == response,
                None => result matches Err(Error::Network(message)) && message@
                    == "Invalid HTTP response: "@ + preprocessed(raw_response@),
            },
    {
        proof {
            reveal_strlit("\n\r");
            reveal_strlit("\n");
            reveal_strlit(" ");
        }
        let raw = to_chars(raw_response.as_str());
        let text = replaced(&trimmed_start(&raw), "\n\r", "\n");
        let (status_line, remaining) = match cut_once(&text, "\n") {
            Some(parts) => parts,
            None => {
                return Err(invalid(&text));
            },
        };
        let (lines, body) = if remaining.len() > 0 && remaining[0] == '\n' {
            (Vec::new(), part(&remaining, 1, remaining.len()))
        } else {
            match cut_once(&remaining, "\n\n") {
                Some((head, body)) => (cut(head, "\n"), body),
                None => (Vec::new(), remaining),
            }
        };
        assert(Seq::new(lines.len() as nat, |i: int| lines[i]@) =~= head_and_body(remaining@).0);
        let headers = match read_headers(&lines) {
            Some(headers) => headers,
            None => {
                return Err(invalid(&text));
            },
        };
        let statuses = cut(status_line, " ");
        if statuses.len() < 3 {
            return Err(invalid(&text));
        }
        Ok(
            Self {
                version: string_of(&statuses[0]),
                status_code: match read_u32(&statuses[1]) {
                    Some(code) => code,
                    None => 404,
                },
                reason: string_of(&statuses[2]),
                headers,
                body: string_of(&body),
            },
        )
    }

    /// The value of the first header whose name is `name`, or an error
    /// that names the header that was not found.
    pub fn header_value(&self, name: &str) -> (result: Result<String, String>)
        ensures
            match value_of(self@.headers, name@) {
                Some(value) => result matches Ok(found) && found@ == value,
                None => result matches Err(message) && message@ == "Failed to find "@ + name@
                    + " in headers"@,
            },
    {
        let wanted = String::from_str(name);
        let ghost all = self@.headers;
        let mut i: usize = 0;
        assert(all.skip(0) =~= all);
        while i < self.headers.len()
            invariant
                i <= self.headers.len(),
                all == header_views(self.headers@),
                wanted@ == name@,
                value_of(all, name@) == value_of(all.skip(i as int), name@),
            decreases self.headers.len() - i,
        {
            if self.headers[i].name == wanted {
                return Ok(self.headers[i].value.clone());
            }
            assert(all.skip(i as int).drop_first() =~= all.skip(i + 1));
            i += 1;
        }
        let mut message = String::from_str("Failed to find ");
        message.append(name);
        message.append(" in headers");
        Err(message)
    }
}

} // verus!
