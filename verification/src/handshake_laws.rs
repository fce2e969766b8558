//! What holds of the handshake for every request.
use crate::handshake::{
    bad_request, established, method_not_allowed, step, ActionView, EventView, HandshakeView,
};
use crate::request::{
    all_digits, decimal_text, decimal_value, is_connect, is_digit, is_space, is_well_formed,
    resolve, target_of, tokens,
};
use vstd::prelude::*;

verus! {

/// The state after the lines `lines` have arrived one after the other.
pub open spec fn state_after(state: HandshakeView, lines: Seq<Seq<char>>) -> HandshakeView
    decreases lines.len(),
{
    if lines.len() == 0 {
        state
    } else {
        step(state_after(state, lines.drop_last()), EventView::Line(lines.last())).0
    }
}

/// What is to be done when the last of the lines `lines` has arrived.
pub open spec fn last_action(state: HandshakeView, lines: Seq<Seq<char>>) -> ActionView
    recommends
        lines.len() > 0,
{
    step(state_after(state, lines.drop_last()), EventView::Line(lines.last())).1
}

/// Whether none of `lines` is empty.
pub open spec fn none_empty(lines: Seq<Seq<char>>) -> bool {
    forall|i: int| 0 <= i < lines.len() ==> (#[trigger] lines[i]).len() > 0
}

/// Whether `word` has at least one character and no white space.
pub open spec fn is_word(word: Seq<char>) -> bool {
    word.len() > 0 && forall|i: int| 0 <= i < word.len() ==> !is_space(#[trigger] word[i])
}

/// A request line that is not well formed is answered by 400, whatever its
/// method, and the handshake is over.
pub proof fn lemma_malformed_is_rejected(line: Seq<char>)
    requires
        !is_well_formed(line),
    ensures
        step(HandshakeView::ExpectRequestLine, EventView::Line(line)) == (
            HandshakeView::Rejected,
            ActionView::Reject(bad_request()),
        ),
{
}

/// A well-formed request line with another method than `CONNECT` is answered
/// by 405, and the handshake is over.
pub proof fn lemma_other_method_is_rejected(line: Seq<char>)
    requires
        is_well_formed(line),
        tokens(line)[0] != "CONNECT"@,
    ensures
        step(HandshakeView::ExpectRequestLine, EventView::Line(line)) == (
            HandshakeView::Rejected,
            ActionView::Reject(method_not_allowed()),
        ),
{
}

/// Once the client was turned away, nothing that arrives leads to a tunnel,
/// or to anything else: the state stays and nothing is to be done.
pub proof fn lemma_rejected_stays(lines: Seq<Seq<char>>)
    ensures
        state_after(HandshakeView::Rejected, lines) == HandshakeView::Rejected,
        lines.len() > 0 ==> last_action(HandshakeView::Rejected, lines) == ActionView::Nothing,
    decreases lines.len(),
{
    if lines.len() > 0 {
        lemma_rejected_stays(lines.drop_last());
    }
}

/// A tunnel is decided in one place only: when the empty line arrives that
/// ends the headers of a `CONNECT` request.
pub proof fn lemma_tunnel_only_after_headers(state: HandshakeView, event: EventView)
    requires
        step(state, event).1 is Tunnel,
    ensures
        state is ExpectHeaders,
        event == EventView::Line(Seq::empty()),
        step(state, event).0 == HandshakeView::Tunneling,
{
    assert(event->Line_0 =~= Seq::empty());
}

/// While header lines arrive, the handshake waits for the next one and keeps
/// the target.
pub proof fn lemma_headers_are_skipped(target: Seq<char>, headers: Seq<Seq<char>>)
    requires
        none_empty(headers),
    ensures
        state_after(HandshakeView::ExpectHeaders(target), headers) == HandshakeView::ExpectHeaders(
            target,
        ),
        headers.len() > 0 ==> last_action(HandshakeView::ExpectHeaders(target), headers)
            == ActionView::ReadLine,
    decreases headers.len(),
{
    if headers.len() > 0 {
        assert(none_empty(headers.drop_last())) by {
            assert forall|i: int| 0 <= i < headers.drop_last().len() implies (
            #[trigger] headers.drop_last()[i]).len() > 0 by {
                assert(headers.drop_last()[i] == headers[i]);
            }
        }
        lemma_headers_are_skipped(target, headers.drop_last());
        assert(headers.last() == headers[headers.len() - 1]);
    }
}

/// A `CONNECT` request whose target names a host and a port, followed by any
/// header lines and the empty line, ends in the decision to tunnel to that
/// host and port, with the acknowledgment `200` as the one response.
pub proof fn lemma_connect_is_tunneled(
    line: Seq<char>,
    headers: Seq<Seq<char>>,
    host: Seq<char>,
    port: u16,
)
    requires
        is_connect(line),
        resolve(target_of(line)) == Some((host, port)),
        none_empty(headers),
    ensures
        state_after(
            HandshakeView::ExpectRequestLine,
            (seq![line] + headers).push(Seq::empty()),
        ) == HandshakeView::Tunneling,
        last_action(HandshakeView::ExpectRequestLine, (seq![line] + headers).push(Seq::empty()))
            == ActionView::Tunnel(host, port, established()),
        established() == "HTTP/1.1 200 Connection Established\r\n\r\n"@,
{
    let all = (seq![line] + headers).push(Seq::<char>::empty());
    let first = seq![line] + headers;
    assert(all.drop_last() =~= first);
    lemma_state_after_first(HandshakeView::ExpectRequestLine, line, headers);
    assert(state_after(HandshakeView::ExpectRequestLine, seq![line])
        == HandshakeView::ExpectHeaders(target_of(line))) by {
        assert(seq![line].drop_last() =~= Seq::<Seq<char>>::empty());
        assert(seq![line].last() == line);
        assert(state_after(HandshakeView::ExpectRequestLine, seq![line].drop_last())
            == HandshakeView::ExpectRequestLine);
    }
    lemma_headers_are_skipped(target_of(line), headers);
    lemma_established();
}

/// The lines after the first meet the state that the first one left.
proof fn lemma_state_after_first(state: HandshakeView, line: Seq<char>, rest: Seq<Seq<char>>)
    ensures
        state_after(state, seq![line] + rest) == state_after(state_after(state, seq![line]), rest),
    decreases rest.len(),
{
    if rest.len() == 0 {
        assert(seq![line] + rest =~= seq![line]);
    } else {
        assert((seq![line] + rest).drop_last() =~= seq![line] + rest.drop_last());
        lemma_state_after_first(state, line, rest.drop_last());
    }
}

/// The acknowledgment, letter by letter.
pub proof fn lemma_established()
    ensures
        established() == "HTTP/1.1 200 Connection Established\r\n\r\n"@,
{
    reveal_strlit("HTTP/1.1 ");
    reveal_strlit(" Connection Established\r\n\r\n");
    reveal_strlit("HTTP/1.1 200 Connection Established\r\n\r\n");
    reveal_with_fuel(decimal_text, 3);
    assert(decimal_text(200) =~= seq!['2', '0', '0']);
    assert("HTTP/1.1 200 Connection Established\r\n\r\n"@ =~= established());
}

/// White space at the end of a text adds no token.
pub proof fn lemma_tokens_push_space(s: Seq<char>, c: char)
    requires
        is_space(c),
    ensures
        tokens(s.push(c)) == tokens(s),
{
    assert(s.push(c).drop_last() =~= s);
}

/// A word that follows white space, or that starts the text, is one more
/// token.
pub proof fn lemma_tokens_append_word(s: Seq<char>, word: Seq<char>)
    requires
        is_word(word),
        s.len() == 0 || is_space(s.last()),
    ensures
        tokens(s + word) == tokens(s).push(word),
    decreases word.len(),
{
    let whole = s + word;
    assert(whole.drop_last() =~= s + word.drop_last());
    assert(whole.last() == word.last());
    assert(!is_space(word[word.len() - 1]));
    if word.len() == 1 {
        assert(s + word.drop_last() =~= s);
        assert(seq![word.last()] =~= word);
        if s.len() > 0 {
            assert(whole[whole.len() - 2] == s.last());
        }
    } else {
        let front = word.drop_last();
        assert(is_word(front)) by {
            assert forall|i: int| 0 <= i < front.len() implies !is_space(#[trigger] front[i]) by {
                assert(front[i] == word[i]);
            }
        }
        lemma_tokens_append_word(s, front);
        assert(whole[whole.len() - 2] == word[word.len() - 2]);
        assert(!is_space(word[word.len() - 2]));
        let before = tokens(s).push(front);
        assert(before.drop_last() =~= tokens(s));
        assert(before.last().push(word.last()) =~= word);
    }
}

/// The request line `CONNECT host:port HTTP/1.1` is a `CONNECT` request, its
/// target is `host:port`, and that target names this host and this port.
pub proof fn lemma_connect_line(host: Seq<char>, digits: Seq<char>)
    requires
        forall|i: int| 0 <= i < host.len() ==> !is_space(#[trigger] host[i]) && host[i] != ':',
        digits.len() > 0,
        all_digits(digits),
        decimal_value(digits) <= 0xffff,
    ensures
        is_connect("CONNECT"@ + seq![' '] + (host + seq![':'] + digits) + seq![' '] + "HTTP/1.1"@),
        target_of("CONNECT"@ + seq![' '] + (host + seq![':'] + digits) + seq![' '] + "HTTP/1.1"@)
            == host + seq![':'] + digits,
        resolve(host + seq![':'] + digits) == Some((host, decimal_value(digits) as u16)),
{
    let method = "CONNECT"@;
    let protocol = "HTTP/1.1"@;
    let target = host + seq![':'] + digits;
    reveal_strlit("CONNECT");
    reveal_strlit("HTTP/1.1");
    assert(is_word(method));
    assert(is_word(protocol));
    assert(is_word(target)) by {
        assert forall|i: int| 0 <= i < target.len() implies !is_space(#[trigger] target[i]) by {
            if i < host.len() {
                assert(target[i] == host[i]);
            } else if i > host.len() {
                assert(target[i] == digits[i - host.len() - 1]);
            }
        }
    }
    let none = Seq::<char>::empty();
    assert(tokens(none) =~= Seq::<Seq<char>>::empty());
    lemma_tokens_append_word(none, method);
    assert(none + method =~= method);
    lemma_tokens_push_space(method, ' ');
    let s1 = method.push(' ');
    lemma_tokens_append_word(s1, target);
    lemma_tokens_push_space(s1 + target, ' ');
    let s2 = (s1 + target).push(' ');
    lemma_tokens_append_word(s2, protocol);
    let line = method + seq![' '] + target + seq![' '] + protocol;
    assert(line =~= s2 + protocol);
    assert(tokens(line) =~= seq![method, target, protocol]);

    target.index_of_first_ensures(':');
    assert(target[host.len() as int] == ':');
    assert(target.contains(':'));
    let n = target.index_of_first(':')->Some_0;
    if n < host.len() {
        assert(target[n] == host[n]);
    }
    assert(n == host.len());
    assert(target.take(n) =~= host);
    assert(target.skip(n + 1) =~= digits);
    assert(is_digit(digits[0]));
}

} // verus!
