//! The URL shortener on top of the store: shortening a URL and following a
//! short key, both carried out as protocol commands.

use vstd::prelude::*;
use vstd::utf8::is_ascii_chars;
use crate::command::{CommandView, ascii_upper, spec_parse, uppercase};
use crate::error::ParseErrorView;
use crate::handler::process_command_at;
use crate::response::Response;
use crate::storage::{Storage, ValueView, expiry, later, spec_get, spec_set_ttl};
use crate::storage::converter::{is_short_key, short_key};
use crate::text::{
    decimal_text, is_white_space, lemma_words_append, lemma_words_push_white_space,
    digit_char, lemma_words_single, push_decimal_text, words,
};

verus! {

broadcast use vstd::string::group_string_axioms;

/// How long a short key lives after it is made or followed, in seconds.
pub const URL_TTL_SECONDS: u64 = 300;

/// A request to shorten `url`.
pub struct ShortenRequest {
    pub url: String,
}

/// The short URL made for a request.
pub struct ShortenResponse {
    pub short_url: String,
}

/// The short URL of `key` on the local host at `port`.
pub open spec fn short_url_text(port: Seq<char>, key: Seq<char>) -> Seq<char> {
    "http://localhost:"@ + port + "/"@ + key
}

proof fn lemma_keyword(w: Seq<char>)
    requires
        w.len() > 0,
        forall|i: int|
            0 <= i < w.len() ==> 65 <= (#[trigger] w[i] as u32) <= 90 && 'A' <= w[i] <= 'Z',
    ensures
        words(w) == seq![w],
        uppercase(w) == w,
{
    assert forall|i: int| 0 <= i < w.len() implies !is_white_space(#[trigger] w[i]) by {}
    lemma_words_single(w);
    assert forall|i: int| 0 <= i < w.len() implies '\0' <= #[trigger] w[i] <= '\u{7f}' by {
    }
    assert(is_ascii_chars(w));
    assert(ascii_upper(w) =~= w);
}

/// The line `SETURL ` followed by `url` is the command to store the one word
/// of `url`; it is refused when `url` has no word or more than one.
pub proof fn lemma_seturl_line(url: Seq<char>)
    ensures
        spec_parse("SETURL "@ + url) == if words(url).len() == 1 {
            Ok::<CommandView, ParseErrorView>(CommandView::SetUrl { url: words(url)[0] })
        } else {
            Err::<CommandView, ParseErrorView>(ParseErrorView::InvalidArguments)
        },
{
    reveal_strlit("SET");
    reveal_strlit("GET");
    reveal_strlit("DEL");
    reveal_strlit("DELETE");
    reveal_strlit("EXISTS");
    reveal_strlit("CLEAR");
    reveal_strlit("INFO");
    reveal_strlit("KEYS");
    reveal_strlit("SETURL");
    reveal_strlit("SETTTL");
    reveal_strlit("SETURL ");
    let name = "SETURL"@;
    assert(name =~= seq!['S', 'E', 'T', 'U', 'R', 'L']);
    assert("SETURL "@ =~= name.push(' '));
    lemma_words_append("SETURL "@, url);
    lemma_words_push_white_space(name, ' ');
    lemma_keyword(name);
    let parts = words("SETURL "@ + url);
    assert(parts == seq![name] + words(url));
    assert(parts[0] == name);
    if words(url).len() == 1 {
        assert(parts[1] == words(url)[0]);
    }
}

/// The line `SETTTL `, `key`, a space and the decimal digits of `n` is the
/// command to give the one word of `key` `n` seconds to live; it is refused
/// when `key` has no word or more than one.
pub proof fn lemma_setttl_line(key: Seq<char>, n: u64)
    ensures
        spec_parse("SETTTL "@ + key + " "@ + decimal_text(n as nat)) == if words(key).len() == 1 {
            Ok::<CommandView, ParseErrorView>(CommandView::SetTtl { key: words(key)[0], ttl_secs: n })
        } else {
            Err::<CommandView, ParseErrorView>(ParseErrorView::InvalidArguments)
        },
{
    reveal_strlit("SET");
    reveal_strlit("GET");
    reveal_strlit("DEL");
    reveal_strlit("DELETE");
    reveal_strlit("EXISTS");
    reveal_strlit("CLEAR");
    reveal_strlit("INFO");
    reveal_strlit("KEYS");
    reveal_strlit("SETURL");
    reveal_strlit("SETTTL");
    reveal_strlit("SETTTL ");
    reveal_strlit(" ");
    let name = "SETTTL"@;
    assert(name =~= seq!['S', 'E', 'T', 'T', 'T', 'L']);
    let digits = decimal_text(n as nat);
    lemma_decimal_text_digits(n as nat);
    let head = "SETTTL "@ + key + " "@;
    assert("SETTTL "@ =~= name.push(' '));
    assert(head == ("SETTTL "@ + key).push(' '));
    lemma_words_append(head, digits);
    lemma_words_push_white_space("SETTTL "@ + key, ' ');
    lemma_words_append("SETTTL "@, key);
    lemma_words_push_white_space(name, ' ');
    lemma_keyword(name);
    lemma_words_single(digits);
    let parts = words(head + digits);
    assert(parts == seq![name] + words(key) + seq![digits]);
    assert(parts[0] == name);
    crate::laws::law_decimal_text_reads_back(n);
    if words(key).len() == 1 {
        assert(parts[1] == words(key)[0]);
        assert(parts[2] == digits);
    }
}

/// Each character of the decimal text of `n` is a digit, so none is white space.
proof fn lemma_decimal_text_digits(n: nat)
    ensures
        decimal_text(n).len() > 0,
        forall|i: int|
            0 <= i < decimal_text(n).len() ==> !is_white_space(#[trigger] decimal_text(n)[i]),
    decreases n,
{
    if n < 10 {
        assert(((digit_char(n as int)) as u32) == 48 + n);
    } else {
        lemma_decimal_text_digits(n / 10);
        let d = (n % 10) as int;
        assert(((digit_char(d)) as u32) == 48 + d);
        assert forall|i: int| 0 <= i < decimal_text(n).len() implies !is_white_space(
            #[trigger] decimal_text(n)[i],
        ) by {
            if i < decimal_text(n / 10).len() {
                assert(decimal_text(n)[i] == decimal_text(n / 10)[i]);
            }
        }
    }
}

/// Shortens the URL of `request`, as the line `SETURL` and the URL followed by
/// `SETTTL`, the short key and 300: the one word of the URL is stored under its
/// short key, to live for five minutes from the time `now`, and the reply is
/// the short URL on the local host at `port`.  A URL of no word or of more than
/// one is refused, and the store is left as it was.
pub fn shorten(storage: &mut Storage, request: &ShortenRequest, port: &str, now: u128) -> (r: Option<
    ShortenResponse,
>)
    requires
        old(storage).wf(),
    ensures
        final(storage).wf(),
        words(request.url@).len() == 1 ==> {
            let u = words(request.url@)[0];
            &&& final(storage)@ == old(storage)@.insert(
                short_key(u),
                ValueView { value: u, expires_at: Some(expiry(now, URL_TTL_SECONDS)) },
            )
            &&& final(storage).key_order() == if old(storage)@.contains_key(short_key(u)) {
                old(storage).key_order()
            } else {
                old(storage).key_order().push(short_key(u))
            }
            &&& final(storage).clock_floor() == later(old(storage).clock_floor(), now)
            &&& r matches Some(resp) && resp.short_url@ == short_url_text(port@, short_key(u))
        },
        words(request.url@).len() != 1 ==> *final(storage) == *old(storage) && r is None,
{
    let mut line = "SETURL ".to_string();
    line.append(request.url.as_str());
    proof {
        lemma_seturl_line(request.url@);
    }
    match process_command_at(storage, line.as_str(), now) {
        Ok(Response::BulkString(Some(key))) => {
            let ghost u = words(request.url@)[0];
            let ghost m1 = storage@;
            let mut ttl_line = "SETTTL ".to_string();
            ttl_line.append(key.as_str());
            ttl_line.append(" ");
            push_decimal_text(&mut ttl_line, URL_TTL_SECONDS);
            proof {
                lemma_setttl_line(key@, URL_TTL_SECONDS);
                lemma_words_single_key(key@);
            }
            if process_command_at(storage, ttl_line.as_str(), now).is_err() {
                return None;
            }
            proof {
                assert(storage@ =~= old(storage)@.insert(
                    short_key(u),
                    ValueView { value: u, expires_at: Some(expiry(now, URL_TTL_SECONDS)) },
                ));
            }
            Some(ShortenResponse { short_url: short_url_for(port, key.as_str()) })
        },
        _ => None,
    }
}

proof fn lemma_words_single_key(k: Seq<char>)
    requires
        is_short_key(k),
    ensures
        words(k) == seq![k],
{
    lemma_words_single(k);
}

/// Follows the short key `short_url` at time `now`: replies with the live URL
/// stored under it, if any, and then, as the line `SETTTL`, the key and 300,
/// gives it five minutes more to live.
pub fn resolve(storage: &mut Storage, short_url: &str, now: u128) -> (r: Option<String>)
    requires
        old(storage).wf(),
    ensures
        final(storage).wf(),
        (match r {
            Some(u) => Some(u@),
            None => None,
        }) == spec_get(old(storage)@, short_url@, now),
        final(storage).key_order() == old(storage).key_order(),
        final(storage).clock_floor() == if spec_get(old(storage)@, short_url@, now) is Some && words(
            short_url@,
        ).len() == 1 {
            later(old(storage).clock_floor(), now)
        } else {
            old(storage).clock_floor()
        },
        final(storage)@ == if spec_get(old(storage)@, short_url@, now) is Some && words(
            short_url@,
        ).len() == 1 {
            spec_set_ttl(old(storage)@, words(short_url@)[0], URL_TTL_SECONDS, now)
        } else {
            old(storage)@
        },
{
    match storage.get_at(short_url, now) {
        Response::BulkString(Some(url)) => {
            let mut ttl_line = "SETTTL ".to_string();
            ttl_line.append(short_url);
            ttl_line.append(" ");
            push_decimal_text(&mut ttl_line, URL_TTL_SECONDS);
            proof {
                lemma_setttl_line(short_url@, URL_TTL_SECONDS);
            }
            let _ = process_command_at(storage, ttl_line.as_str(), now);
            Some(url)
        },
        _ => None,
    }
}

/// The short URL of `key` on the local host at `port`.
pub fn short_url_for(port: &str, key: &str) -> (r: String)
    ensures
        r@ == short_url_text(port@, key@),
{
    let mut url = "http://localhost:".to_string();
    url.append(port);
    url.append("/");
    url.append(key);
    url
}

} // verus!
