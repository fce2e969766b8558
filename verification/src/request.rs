//! The request line of a `CONNECT` request, the target it names, and the
//! responses that the proxy gives.
use vstd::prelude::*;
use vstd::string::{StrSliceExecFns, StringExecFns};

verus! {

/// Whether `c` is white space, as Unicode defines it (the property
/// `White_Space`).
pub open spec fn is_space(c: char) -> bool {
    let code = c as u32;
    ||| 0x09 <= code <= 0x0d
    ||| code == 0x20
    ||| code == 0x85
    ||| code == 0xa0
    ||| code == 0x1680
    ||| 0x2000 <= code <= 0x200a
    ||| code == 0x2028
    ||| code == 0x2029
    ||| code == 0x202f
    ||| code == 0x205f
    ||| code == 0x3000
}

/// The tokens of `s`: its maximal runs of characters that are not white
/// space, in order. Read from left to right, a character that is not white
/// space lengthens the token that the character before it belongs to, or
/// starts a new one.
pub open spec fn tokens(s: Seq<char>) -> Seq<Seq<char>>
    decreases s.len(),
{
    if s.len() == 0 {
        Seq::empty()
    } else {
        let before = tokens(s.drop_last());
        if is_space(s.last()) {
            before
        } else if s.len() >= 2 && !is_space(s[s.len() - 2]) && before.len() > 0 {
            before.drop_last().push(before.last().push(s.last()))
        } else {
            before.push(seq![s.last()])
        }
    }
}

/// Tells whether `c` is white space.
pub fn is_whitespace(c: char) -> (space: bool)
    ensures
        space == is_space(c),
{
    let code: u32 = c as u32;
    (0x09 <= code && code <= 0x0d) || code == 0x20 || code == 0x85 || code == 0xa0 || code
        == 0x1680 || (0x2000 <= code && code <= 0x200a) || code == 0x2028 || code == 0x2029
        || code == 0x202f || code == 0x205f || code == 0x3000
}

/// The characters of `text`, one by one.
fn chars_of(text: &str) -> (chars: Vec<char>)
    ensures
        chars@ == text@,
{
    let mut chars: Vec<char> = Vec::new();
    for c in it: text.chars()
        invariant
            chars@ == it.seq().take(it.index() as int),
            it.seq() == text@,
    {
        chars.push(c);
        assert(it.seq().take(it.index() + 1) =~= it.seq().take(it.index() as int).push(c));
    }
    assert(chars@ =~= text@);
    chars
}

/// Whether `spans` are the places of the tokens of `s`: one span of
/// character positions for each token, in order.
pub open spec fn spans_of(s: Seq<char>, spans: Seq<(usize, usize)>) -> bool {
    &&& spans.len() == tokens(s).len()
    &&& forall|k: int|
        0 <= k < spans.len() ==> {
            &&& (#[trigger] spans[k]).0 < spans[k].1 <= s.len()
            &&& s.subrange(spans[k].0 as int, spans[k].1 as int) == tokens(s)[k]
        }
}

/// Finds the tokens of `chars`: for each, where it starts and where it ends.
fn split_whitespace(chars: &Vec<char>) -> (spans: Vec<(usize, usize)>)
    ensures
        spans_of(chars@, spans@),
{
    let mut spans: Vec<(usize, usize)> = Vec::new();
    let mut i: usize = 0;
    let mut inside: bool = false;
    while i < chars.len()
        invariant
            i <= chars@.len(),
            spans_of(chars@.take(i as int), spans@),
            inside == (i > 0 && !is_space(chars@[i - 1])),
            inside ==> spans@.len() > 0 && spans@.last().1 == i,
        decreases chars@.len() - i,
    {
        let ghost seen = chars@.take(i as int);
        let ghost grown = chars@.take(i + 1);
        let ghost found = spans@;
        let c: char = chars[i];
        proof {
            assert(grown.drop_last() =~= seen);
            assert(grown.last() == c);
            if i > 0 {
                assert(grown[grown.len() - 2] == chars@[i - 1]);
            }
            assert forall|k: int| 0 <= k < found.len() implies grown.subrange(
                found[k].0 as int,
                found[k].1 as int,
            ) == seen.subrange(found[k].0 as int, found[k].1 as int) by {
                assert(grown.subrange(found[k].0 as int, found[k].1 as int) =~= seen.subrange(
                    found[k].0 as int,
                    found[k].1 as int,
                ));
            }
        }
        if is_whitespace(c) {
            inside = false;
        } else if inside {
            let last: usize = spans.len() - 1;
            let start: usize = spans[last].0;
            spans.set(last, (start, i + 1));
            proof {
                assert(grown.subrange(start as int, i + 1) =~= seen.subrange(
                    start as int,
                    i as int,
                ).push(c));
                assert forall|k: int| 0 <= k < spans@.len() implies grown.subrange(
                    (#[trigger] spans@[k]).0 as int,
                    spans@[k].1 as int,
                ) == tokens(grown)[k] by {
                    if k < last {
                        assert(spans@[k] == found[k]);
                    }
                }
            }
        } else {
            spans.push((i, i + 1));
            inside = true;
            proof {
                assert(grown.subrange(i as int, i + 1) =~= seq![c]);
                assert forall|k: int| 0 <= k < spans@.len() implies grown.subrange(
                    (#[trigger] spans@[k]).0 as int,
                    spans@[k].1 as int,
                ) == tokens(grown)[k] by {
                    if k < found.len() {
                        assert(spans@[k] == found[k]);
                    }
                }
            }
        }
        i += 1;
    }
    assert(chars@.take(i as int) =~= chars@);
    spans
}

/// Tells whether the characters of `chars` in `span` spell `word`.
fn span_is(chars: &Vec<char>, span: (usize, usize), word: &str) -> (same: bool)
    requires
        span.0 <= span.1 <= chars@.len(),
    ensures
        same == (chars@.subrange(span.0 as int, span.1 as int) == word@),
{
    let letters = chars_of(word);
    let ghost piece = chars@.subrange(span.0 as int, span.1 as int);
    if letters.len() != span.1 - span.0 {
        return false;
    }
    let mut k: usize = 0;
    while k < letters.len()
        invariant
            k <= letters@.len(),
            letters@.len() == span.1 - span.0,
            span.1 <= chars@.len(),
            letters@ == word@,
            piece == chars@.subrange(span.0 as int, span.1 as int),
            forall|j: int| 0 <= j < k ==> piece[j] == letters@[j],
        decreases letters@.len() - k,
    {
        if chars[span.0 + k] != letters[k] {
            assert(piece[k as int] != letters@[k as int]);
            return false;
        }
        k += 1;
    }
    assert(piece =~= letters@);
    true
}

/// Whether `line` is a well-formed request line: three tokens, the third of
/// which is `HTTP/1.1`.
pub open spec fn is_well_formed(line: Seq<char>) -> bool {
    tokens(line).len() == 3 && tokens(line)[2] == "HTTP/1.1"@
}

/// Whether `line` is a well-formed request line whose method is `CONNECT`.
pub open spec fn is_connect(line: Seq<char>) -> bool {
    is_well_formed(line) && tokens(line)[0] == "CONNECT"@
}

/// The request target of a well-formed request line: its second token.
pub open spec fn target_of(line: Seq<char>) -> Seq<char> {
    tokens(line)[1]
}

/// What a request line asks for.
#[derive(Debug, PartialEq, Eq)]
pub enum RequestLine {
    /// A tunnel to this target.
    Connect(String),
    /// Something else than a tunnel, by another method.
    OtherMethod,
    /// Nothing that can be understood.
    Malformed,
}

/// Reads a request line.
pub fn parse_request_line(line: &str) -> (request: RequestLine)
    ensures
        match request {
            RequestLine::Connect(target) => is_connect(line@) && target@ == target_of(line@),
            RequestLine::OtherMethod => is_well_formed(line@) && !is_connect(line@),
            RequestLine::Malformed => !is_well_formed(line@),
        },
{
    let chars = chars_of(line);
    let spans = split_whitespace(&chars);
    if spans.len() != 3 {
        return RequestLine::Malformed;
    }
    if !span_is(&chars, spans[2], "HTTP/1.1") {
        return RequestLine::Malformed;
    }
    if !span_is(&chars, spans[0], "CONNECT") {
        return RequestLine::OtherMethod;
    }
    let target = line.substring_char(spans[1].0, spans[1].1);
    RequestLine::Connect(target.to_owned())
}

/// The port that a target without a port stands for.
pub const DEFAULT_PORT: u16 = 443;

/// Whether `c` is one of the digits `0` to `9`.
pub open spec fn is_digit(c: char) -> bool {
    0x30 <= c as u32 <= 0x39
}

/// Whether `s` is made of digits only.
pub open spec fn all_digits(s: Seq<char>) -> bool {
    forall|i: int| 0 <= i < s.len() ==> is_digit(#[trigger] s[i])
}

/// The number that the digits `s` spell in base ten.
pub open spec fn decimal_value(s: Seq<char>) -> nat
    decreases s.len(),
{
    if s.len() == 0 {
        0
    } else {
        decimal_value(s.drop_last()) * 10 + (s.last() as u32 - 0x30) as nat
    }
}

/// The port that `text` spells: at least one digit, with or without a `+`
/// before the first, and a value that fits into 16 bits.
pub open spec fn port_of(text: Seq<char>) -> Option<u16> {
    let digits = if text.len() > 0 && text[0] == '+' {
        text.drop_first()
    } else {
        text
    };
    if digits.len() > 0 && all_digits(digits) && decimal_value(digits) <= 0xffff {
        Some(decimal_value(digits) as u16)
    } else {
        None
    }
}

/// The host and the port that `target` names. The host is what stands before
/// the first colon and the port what stands after it; without a colon the
/// target is the host and the port is 443. `None` where the port is no port.
pub open spec fn resolve(target: Seq<char>) -> Option<(Seq<char>, u16)> {
    match target.index_of_first(':') {
        None => Some((target, DEFAULT_PORT)),
        Some(n) => match port_of(target.skip(n + 1)) {
            Some(port) => Some((target.take(n), port)),
            None => None,
        },
    }
}

/// A number spelled by digits is at least the number that its first digits
/// spell.
proof fn lemma_decimal_value_grows(s: Seq<char>, i: int)
    requires
        0 <= i <= s.len(),
        all_digits(s),
    ensures
        decimal_value(s.take(i)) <= decimal_value(s),
    decreases s.len() - i,
{
    if i < s.len() {
        assert(s.take(i + 1).drop_last() =~= s.take(i));
        assert(is_digit(s[i]));
        lemma_decimal_value_grows(s, i + 1);
    } else {
        assert(s.take(i) =~= s);
    }
}

/// Reads a port from the characters of `chars` from position `from` on.
#[verifier::loop_isolation(false)]
fn parse_port(chars: &Vec<char>, from: usize) -> (port: Option<u16>)
    requires
        from <= chars@.len(),
    ensures
        port == port_of(chars@.skip(from as int)),
{
    let ghost text = chars@.skip(from as int);
    let mut i: usize = from;
    if i < chars.len() && chars[i] == '+' {
        i += 1;
    }
    let first: usize = i;
    let ghost digits = chars@.skip(first as int);
    assert(digits =~= if text.len() > 0 && text[0] == '+' {
        text.drop_first()
    } else {
        text
    });
    if first == chars.len() {
        return None;
    }
    let mut value: u32 = 0;
    while i < chars.len()
        invariant
            first <= i <= chars@.len(),
            first < chars@.len(),
            digits == chars@.skip(first as int),
            all_digits(digits.take(i - first)),
            value == decimal_value(digits.take(i - first)) <= 0xffff,
        decreases chars@.len() - i,
    {
        let code: u32 = chars[i] as u32;
        proof {
            assert(digits[i - first] == chars@[i as int]);
            assert(digits.take(i - first + 1).drop_last() =~= digits.take(i - first));
        }
        if code < 0x30 || code > 0x39 {
            assert(!all_digits(digits));
            return None;
        }
        value = value * 10 + (code - 0x30);
        proof {
            assert(all_digits(digits.take(i - first + 1))) by {
                assert forall|j: int| 0 <= j < i - first + 1 implies is_digit(
                    #[trigger] digits.take(i - first + 1)[j],
                ) by {
                    if j < i - first {
                        assert(digits.take(i - first)[j] == digits.take(i - first + 1)[j]);
                    }
                }
            }
        }
        if value > 0xffff {
            proof {
                if all_digits(digits) {
                    lemma_decimal_value_grows(digits, i - first + 1);
                }
            }
            return None;
        }
        i += 1;
    }
    assert(digits.take(i - first) =~= digits);
    Some(value as u16)
}

/// A host and a port to connect to.
#[derive(Debug, PartialEq, Eq)]
pub struct Target {
    pub host: String,
    pub port: u16,
}

/// A request target whose port is no port.
#[derive(Debug, PartialEq, Eq)]
pub struct InvalidPort;

/// Splits a request target into host and port.
pub fn resolve_target(target: &str) -> (resolved: Result<Target, InvalidPort>)
    ensures
        match resolve(target@) {
            Some((host, port)) => resolved matches Ok(t) && t.host@ == host && t.port == port,
            None => resolved is Err,
        },
{
    let chars = chars_of(target);
    let mut n: usize = 0;
    while n < chars.len() && chars[n] != ':'
        invariant
            n <= chars@.len(),
            forall|j: int| 0 <= j < n ==> chars@[j] != ':',
        decreases chars@.len() - n,
    {
        n += 1;
    }
    proof {
        chars@.index_of_first_ensures(':');
        if n < chars@.len() {
            assert(chars@.contains(':'));
        }
    }
    if n == chars.len() {
        return Ok(Target { host: target.to_owned(), port: DEFAULT_PORT });
    }
    match parse_port(&chars, n + 1) {
        Some(port) => {
            let host = target.substring_char(0, n);
            assert(target@.subrange(0, n as int) =~= target@.take(n as int));
            Ok(Target { host: host.to_owned(), port })
        },
        None => Err(InvalidPort),
    }
}

/// The digit that stands for `d`.
pub open spec fn digit_char(d: nat) -> char {
    if d == 0 {
        '0'
    } else if d == 1 {
        '1'
    } else if d == 2 {
        '2'
    } else if d == 3 {
        '3'
    } else if d == 4 {
        '4'
    } else if d == 5 {
        '5'
    } else if d == 6 {
        '6'
    } else if d == 7 {
        '7'
    } else if d == 8 {
        '8'
    } else {
        '9'
    }
}

/// `n` in base ten, without leading zeros.
pub open spec fn decimal_text(n: nat) -> Seq<char>
    decreases n,
{
    if n < 10 {
        seq![digit_char(n)]
    } else {
        decimal_text(n / 10).push(digit_char(n % 10))
    }
}

/// The text of a response with status `code` and this body. The reason phrase
/// is the same for every status.
pub open spec fn response_text(code: nat, body: Seq<char>) -> Seq<char> {
    "HTTP/1.1 "@ + decimal_text(code) + " Connection Established\r\n\r\n"@ + body
}

/// The digit that stands for `d`, as text.
fn digit_text(d: u32) -> (text: &'static str)
    requires
        d < 10,
    ensures
        text@ == seq![digit_char(d as nat)],
{
    proof {
        reveal_strlit("0");
        reveal_strlit("1");
        reveal_strlit("2");
        reveal_strlit("3");
        reveal_strlit("4");
        reveal_strlit("5");
        reveal_strlit("6");
        reveal_strlit("7");
        reveal_strlit("8");
        reveal_strlit("9");
    }
    let text = if d == 0 {
        "0"
    } else if d == 1 {
        "1"
    } else if d == 2 {
        "2"
    } else if d == 3 {
        "3"
    } else if d == 4 {
        "4"
    } else if d == 5 {
        "5"
    } else if d == 6 {
        "6"
    } else if d == 7 {
        "7"
    } else if d == 8 {
        "8"
    } else {
        "9"
    };
    assert(text@ =~= seq![digit_char(d as nat)]);
    text
}

/// `n` in base ten.
fn decimal(n: u32) -> (text: String)
    ensures
        text@ == decimal_text(n as nat),
    decreases n,
{
    if n < 10 {
        String::from_str(digit_text(n))
    } else {
        let mut text = decimal(n / 10);
        text.append(digit_text(n % 10));
        assert(text@ =~= decimal_text(n as nat));
        text
    }
}

/// The response that turns a request down, with status `code` and this body.
pub fn error_response(code: u32, body: &str) -> (response: String)
    ensures
        response@ == response_text(code as nat, body@),
{
    let mut response = String::from_str("HTTP/1.1 ");
    response.append(decimal(code).as_str());
    response.append(" Connection Established\r\n\r\n");
    response.append(body);
    response
}

/// The response that tells the client that its tunnel stands.
pub fn established_response() -> (response: String)
    ensures
        response@ == response_text(200, Seq::empty()),
        response@ == "HTTP/1.1 200 Connection Established\r\n\r\n"@,
{
    proof {
        reveal_strlit("HTTP/1.1 ");
        reveal_strlit(" Connection Established\r\n\r\n");
        reveal_strlit("HTTP/1.1 200 Connection Established\r\n\r\n");
        reveal_with_fuel(decimal_text, 3);
        assert(decimal_text(200) =~= seq!['2', '0', '0']);
        assert("HTTP/1.1 200 Connection Established\r\n\r\n"@ =~= response_text(
            200,
            Seq::empty(),
        ));
    }
    String::from_str("HTTP/1.1 200 Connection Established\r\n\r\n")
}

} // verus!
