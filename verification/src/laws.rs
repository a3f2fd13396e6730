//! What holds of the store and its commands across calls.

use vstd::prelude::*;
use crate::command::CommandView;
use crate::controller::{URL_TTL_SECONDS, lemma_setttl_line};
use crate::command::spec_parse;
use crate::error::ParseErrorView;
use crate::handler::spec_next;
use crate::storage::{
    Storage, ValueView, expiry, is_live, key_matches, matching_keys, spec_get, spec_purge,
};
use crate::storage::converter::{base64url, blake3_digest, lemma_base64url_six_injective, short_key};
use crate::handler::spec_reply;
use crate::response::Response;
use vstd::utf8::encode_utf8;
use crate::text::{decimal_text, has_substring, read_digits, spec_parse_u64, without_stars, words};

verus! {

/// The key that a command writes or removes, if it touches a single key.
pub open spec fn written_key(c: CommandView) -> Option<Seq<char>> {
    match c {
        CommandView::SetValue { key, .. } => Some(key),
        CommandView::SetEx { key, .. } => Some(key),
        CommandView::Delete { key } => Some(key),
        CommandView::SetUrl { url } => Some(short_key(url)),
        CommandView::SetTtl { key, .. } => Some(key),
        _ => None,
    }
}

/// A read after `SET key value` gives `value`, at any later time.
pub proof fn law_read_after_set(
    m: Map<Seq<char>, ValueView>,
    key: Seq<char>,
    value: Seq<char>,
    t: u128,
    now: u128,
)
    ensures
        spec_get(spec_next(CommandView::SetValue { key, value }, m, t), key, now) == Some(value),
{
}

/// A read after `SET key value EX ttl` at time `t` gives `value` until the
/// expiry time, and nothing from then on.
pub proof fn law_read_after_set_ex(
    m: Map<Seq<char>, ValueView>,
    key: Seq<char>,
    value: Seq<char>,
    ttl_secs: u64,
    t: u128,
    now: u128,
)
    ensures
        spec_get(spec_next(CommandView::SetEx { key, value, ttl_secs }, m, t), key, now) == if now
            < expiry(t, ttl_secs) {
            Some(value)
        } else {
            None
        },
        t + ttl_secs * 1_000_000_000 <= u128::MAX ==> spec_get(
            spec_next(CommandView::SetEx { key, value, ttl_secs }, m, t),
            key,
            now,
        ) == if now < t + ttl_secs * 1_000_000_000 {
            Some(value)
        } else {
            None
        },
{
}

/// A value given `ttl_secs` seconds to live at time `t` expires `ttl_secs`
/// seconds later, or at the end of the clock's range if that comes first; with
/// no time to live it has expired at once.
pub proof fn law_expiry(t: u128, ttl_secs: u64)
    ensures
        t + ttl_secs * 1_000_000_000 <= u128::MAX ==> expiry(t, ttl_secs) == t + ttl_secs
            * 1_000_000_000,
        t + ttl_secs * 1_000_000_000 > u128::MAX ==> expiry(t, ttl_secs) == u128::MAX,
        expiry(t, 0) == t,
        expiry(t, ttl_secs) >= t,
{
}

/// A command that writes or removes one key leaves what is read under every
/// other key as it was.
pub proof fn law_other_keys_unchanged(
    c: CommandView,
    m: Map<Seq<char>, ValueView>,
    t: u128,
    other: Seq<char>,
    now: u128,
)
    requires
        written_key(c) matches Some(k) && k != other,
    ensures
        spec_get(spec_next(c, m, t), other, now) == spec_get(m, other, now),
{
}

/// Commands that only read leave the store as it was.
pub proof fn law_reads_change_nothing(c: CommandView, m: Map<Seq<char>, ValueView>, t: u128)
    requires
        c is Get || c is Exists || c is Keys || c is Info,
    ensures
        spec_next(c, m, t) == m,
{
}

/// After `DEL key` nothing is read under `key`, and the key is no longer stored.
pub proof fn law_read_after_delete(m: Map<Seq<char>, ValueView>, key: Seq<char>, t: u128, now: u128)
    ensures
        spec_get(spec_next(CommandView::Delete { key }, m, t), key, now) is None,
        !spec_next(CommandView::Delete { key }, m, t).contains_key(key),
{
}

/// After `CLEAR` the store is empty.
pub proof fn law_clear_empties(m: Map<Seq<char>, ValueView>, t: u128)
    ensures
        spec_next(CommandView::Clear, m, t) == Map::<Seq<char>, ValueView>::empty(),
{
}

/// After `SETURL url` the URL is read under its short key, at any later time.
pub proof fn law_read_after_seturl(m: Map<Seq<char>, ValueView>, url: Seq<char>, t: u128, now: u128)
    ensures
        spec_get(spec_next(CommandView::SetUrl { url }, m, t), short_key(url), now) == Some(url),
{
}

/// A shortened URL is read under its short key until five minutes after it
/// was shortened at time `t`, and not from then on.
pub proof fn law_shortened_url_lives_five_minutes(
    m: Map<Seq<char>, ValueView>,
    url: Seq<char>,
    t: u128,
    now: u128,
)
    ensures
        spec_get(
            m.insert(
                short_key(url),
                ValueView { value: url, expires_at: Some(expiry(t, URL_TTL_SECONDS)) },
            ),
            short_key(url),
            now,
        ) == if now < expiry(t, URL_TTL_SECONDS) {
            Some(url)
        } else {
            None
        },
        t + 300_000_000_000 <= u128::MAX ==> expiry(t, URL_TTL_SECONDS) == t + 300_000_000_000,
{
}

/// The same URL always gets the same short key.
pub proof fn law_short_key_is_a_function(a: Seq<char>, b: Seq<char>)
    requires
        a == b,
    ensures
        short_key(a) == short_key(b),
{
}

/// `SETTTL key ttl` at time `t` on a key with a live value keeps the value and
/// makes it expire `ttl` seconds later; on a key without one it changes nothing.
pub proof fn law_set_ttl(
    m: Map<Seq<char>, ValueView>,
    key: Seq<char>,
    ttl_secs: u64,
    t: u128,
    now: u128,
)
    ensures
        spec_get(m, key, t) matches Some(v) ==> spec_get(
            spec_next(CommandView::SetTtl { key, ttl_secs }, m, t),
            key,
            now,
        ) == if now < expiry(t, ttl_secs) {
            Some(v)
        } else {
            None
        },
        spec_get(m, key, t) is None ==> spec_next(CommandView::SetTtl { key, ttl_secs }, m, t)
            == m,
{
}

/// A value that has expired at time `t1` has expired at every later time.
pub proof fn law_expired_stays_expired(
    m: Map<Seq<char>, ValueView>,
    key: Seq<char>,
    t1: u128,
    t2: u128,
)
    requires
        t1 <= t2,
    ensures
        spec_get(m, key, t1) is None ==> spec_get(m, key, t2) is None,
{
}

/// The line `SETTTL key n`, for a key of one word, gives the live value under
/// `key` at time `t` `n` seconds to live: it is read until then, with no time
/// to live it has expired at once, and a key without a live value is left alone.
pub proof fn law_setttl_command(
    m: Map<Seq<char>, ValueView>,
    key: Seq<char>,
    n: u64,
    t: u128,
    now: u128,
)
    requires
        words(key) == seq![key],
        t <= now,
    ensures
        spec_parse("SETTTL "@ + key + " "@ + decimal_text(n as nat)) == Ok::<
            CommandView,
            ParseErrorView,
        >(CommandView::SetTtl { key, ttl_secs: n }),
        spec_get(m, key, t) matches Some(v) ==> spec_get(
            spec_next(CommandView::SetTtl { key, ttl_secs: n }, m, t),
            key,
            now,
        ) == if now < expiry(t, n) {
            Some(v)
        } else {
            None
        },
        spec_get(m, key, t) is None ==> spec_next(CommandView::SetTtl { key, ttl_secs: n }, m, t)
            == m,
        n == 0 ==> spec_get(spec_next(CommandView::SetTtl { key, ttl_secs: n }, m, t), key, now) is None,
{
    lemma_setttl_line(key, n);
}

/// Removing the values that have expired at time `t` changes nothing that is
/// read at `t` or later.
pub proof fn law_purge_keeps_reads(m: Map<Seq<char>, ValueView>, t: u128, key: Seq<char>, now: u128)
    requires
        t <= now,
    ensures
        spec_get(spec_purge(m, t), key, now) == spec_get(m, key, now),
{
}

/// The keys that `KEYS` lists are exactly the stored keys, expired or not,
/// that match the pattern, each once; without a pattern, all of them, as many
/// as `INFO` counts.
pub proof fn law_keys_lists_stored_keys(s: &Storage, pattern: Option<Seq<char>>)
    requires
        s.wf(),
    ensures
        forall|k: Seq<char>|
            #[trigger] matching_keys(s.key_order(), pattern).contains(k) <==> s@.contains_key(k)
                && key_matches(k, pattern),
        matching_keys(s.key_order(), pattern).no_duplicates(),
        matching_keys(s.key_order(), None).len() == s.total_keys(),
        s.total_keys() == s@.len(),
{
    s.lemma_wf();
    lemma_matching_keys(s.key_order(), pattern);
    lemma_matching_keys_all(s.key_order());
}

/// Every key that `KEYS` lists for a pattern with a `*` contains the pattern
/// without its stars.
pub proof fn law_star_pattern_keys_contain(ks: Seq<Seq<char>>, p: Seq<char>, i: int)
    requires
        p.contains('*'),
        0 <= i < matching_keys(ks, Some(p)).len(),
    ensures
        has_substring(matching_keys(ks, Some(p))[i], without_stars(p)),
{
    lemma_matching_keys_match(ks, Some(p));
}

proof fn lemma_matching_keys(ks: Seq<Seq<char>>, pattern: Option<Seq<char>>)
    requires
        ks.no_duplicates(),
    ensures
        forall|k: Seq<char>|
            #[trigger] matching_keys(ks, pattern).contains(k) <==> ks.contains(k) && key_matches(
                k,
                pattern,
            ),
        matching_keys(ks, pattern).no_duplicates(),
    decreases ks.len(),
{
    if ks.len() > 0 {
        let d = ks.drop_last();
        assert(d.no_duplicates()) by {
            assert forall|a: int, b: int| 0 <= a < d.len() && 0 <= b < d.len() && a != b implies d[a]
                != d[b] by {
                assert(d[a] == ks[a] && d[b] == ks[b]);
            }
        }
        lemma_matching_keys(d, pattern);
        let last = ks.last();
        assert(!d.contains(last)) by {
            if d.contains(last) {
                let j = choose|j: int| 0 <= j < d.len() && d[j] == last;
                assert(ks[j] == ks[ks.len() - 1]);
            }
        }
        assert forall|k: Seq<char>| #[trigger] ks.contains(k) <==> d.contains(k) || k == last by {
            if ks.contains(k) {
                let j = choose|j: int| 0 <= j < ks.len() && ks[j] == k;
                if j < d.len() {
                    assert(d[j] == k);
                }
            }
            if d.contains(k) {
                let j = choose|j: int| 0 <= j < d.len() && d[j] == k;
                assert(ks[j] == k);
            }
            if k == last {
                assert(ks[ks.len() - 1] == k);
            }
        }
        let r = matching_keys(d, pattern);
        if key_matches(last, pattern) {
            assert forall|k: Seq<char>| #[trigger] r.push(last).contains(k) <==> r.contains(k) || k
                == last by {
                if r.push(last).contains(k) {
                    let j = choose|j: int| 0 <= j < r.push(last).len() && r.push(last)[j] == k;
                    if j < r.len() {
                        assert(r[j] == k);
                    }
                }
                if r.contains(k) {
                    let j = choose|j: int| 0 <= j < r.len() && r[j] == k;
                    assert(r.push(last)[j] == k);
                }
                if k == last {
                    assert(r.push(last)[r.len() as int] == k);
                }
            }
            assert(r.push(last).no_duplicates()) by {
                assert forall|a: int, b: int|
                    0 <= a < r.push(last).len() && 0 <= b < r.push(last).len() && a != b implies r.push(
                    last,
                )[a] != r.push(last)[b] by {
                    if a < r.len() && b == r.len() {
                        assert(r.contains(r[a]));
                    }
                    if b < r.len() && a == r.len() {
                        assert(r.contains(r[b]));
                    }
                }
            }
        }
    }
}

proof fn lemma_matching_keys_match(ks: Seq<Seq<char>>, pattern: Option<Seq<char>>)
    ensures
        forall|i: int|
            0 <= i < matching_keys(ks, pattern).len() ==> key_matches(
                #[trigger] matching_keys(ks, pattern)[i],
                pattern,
            ),
    decreases ks.len(),
{
    if ks.len() > 0 {
        let r = matching_keys(ks.drop_last(), pattern);
        lemma_matching_keys_match(ks.drop_last(), pattern);
        if key_matches(ks.last(), pattern) {
            assert forall|i: int| 0 <= i < r.push(ks.last()).len() implies key_matches(
                #[trigger] r.push(ks.last())[i],
                pattern,
            ) by {
                if i < r.len() {
                    assert(r.push(ks.last())[i] == r[i]);
                }
            }
        }
    }
}

proof fn lemma_matching_keys_all(ks: Seq<Seq<char>>)
    ensures
        matching_keys(ks, None) == ks,
    decreases ks.len(),
{
    if ks.len() > 0 {
        lemma_matching_keys_all(ks.drop_last());
        assert(ks.drop_last().push(ks.last()) =~= ks);
    }
}

/// The decimal text of a number reads back as that number.
pub proof fn law_decimal_text_reads_back(n: u64)
    ensures
        spec_parse_u64(decimal_text(n as nat)) == Ok::<u64, crate::text::IntParseError>(n),
{
    lemma_read_decimal(n as nat);
    lemma_decimal_text_first(n as nat);
}

proof fn lemma_decimal_text_first(n: nat)
    ensures
        decimal_text(n).len() > 0,
        decimal_text(n)[0] != '+' && decimal_text(n)[0] != '-',
    decreases n,
{
    if n >= 10 {
        lemma_decimal_text_first(n / 10);
    }
}

proof fn lemma_read_digits_push(d: Seq<char>, c: char, acc: int, v: int)
    requires
        read_digits(d, acc) == Ok::<int, crate::text::IntParseError>(v),
        48 <= (c as u32) <= 57,
        v * 10 + ((c as u32) - 48) <= u64::MAX,
    ensures
        read_digits(d.push(c), acc) == Ok::<int, crate::text::IntParseError>(
            v * 10 + ((c as u32) - 48),
        ),
    decreases d.len(),
{
    reveal_with_fuel(read_digits, 2);
    assert(d.push(c)[d.len() as int] == c);
    if d.len() == 0 {
        assert(d.push(c).drop_first() =~= Seq::<char>::empty());
        assert(d.push(c)[0] == c);
    } else {
        assert(d.push(c)[0] == d[0]);
        assert(d.push(c).drop_first() =~= d.drop_first().push(c));
        let a2 = acc * 10 + ((d[0] as u32) - 48);
        lemma_read_digits_push(d.drop_first(), c, a2, v);
    }
}

proof fn lemma_read_decimal(n: nat)
    requires
        n <= u64::MAX,
    ensures
        read_digits(decimal_text(n), 0) == Ok::<int, crate::text::IntParseError>(n as int),
    decreases n,
{
    reveal_with_fuel(read_digits, 2);
    if n < 10 {
        assert(decimal_text(n).drop_first() =~= Seq::<char>::empty());
        assert(((crate::text::digit_char(n as int)) as u32) == 48 + n);
    } else {
        assert(((crate::text::digit_char((n % 10) as int)) as u32) == 48 + n % 10);
        lemma_read_decimal(n / 10);
        lemma_read_digits_push(decimal_text(n / 10), crate::text::digit_char((n % 10) as int), 0, (n / 10) as int);
    }
}

/// The reply to `GET key` at time `now` is the value stored under `key` when
/// it has no expiry or its expiry is later than `now`, and the null bulk string
/// otherwise.
pub proof fn law_get_reply(
    m: Map<Seq<char>, ValueView>,
    order: Seq<Seq<char>>,
    total: nat,
    key: Seq<char>,
    now: u128,
    r: Response,
)
    requires
        spec_reply(CommandView::Get { key }, m, order, total, now, r),
    ensures
        m.contains_key(key) && (m[key].expires_at matches Some(e) ==> now < e) ==> (r matches Response::BulkString(
            Some(v),
        ) && v@ == m[key].value),
        !(m.contains_key(key) && (m[key].expires_at matches Some(e) ==> now < e)) ==> r
            == Response::BulkString(None),
{
}

/// `EXISTS key` and `GET key` at the same time agree: `EXISTS` replies 1 when
/// `GET` gives a value, and 0 when it gives the null bulk string.  It replies 1
/// exactly when a value is stored under `key` with no expiry or an expiry
/// later than `now`.
pub proof fn law_exists_agrees_with_get(
    m: Map<Seq<char>, ValueView>,
    order: Seq<Seq<char>>,
    total: nat,
    key: Seq<char>,
    now: u128,
    g: Response,
    e: Response,
)
    requires
        spec_reply(CommandView::Get { key }, m, order, total, now, g),
        spec_reply(CommandView::Exists { key }, m, order, total, now, e),
    ensures
        e == Response::Integer(1) <==> g matches Response::BulkString(Some(_)),
        e == Response::Integer(0) <==> g == Response::BulkString(None),
        e == Response::Integer(1) <==> m.contains_key(key) && (m[key].expires_at matches Some(x) ==> now
            < x),
        e == Response::Integer(0) || e == Response::Integer(1),
{
}

/// `SETTTL key ttl` and `GET key` at the same time agree: `SETTTL` replies 1
/// when `GET` gives a value, and 0 when it gives the null bulk string.
pub proof fn law_setttl_reply_agrees_with_get(
    m: Map<Seq<char>, ValueView>,
    order: Seq<Seq<char>>,
    total: nat,
    key: Seq<char>,
    ttl_secs: u64,
    now: u128,
    g: Response,
    e: Response,
)
    requires
        spec_reply(CommandView::Get { key }, m, order, total, now, g),
        spec_reply(CommandView::SetTtl { key, ttl_secs }, m, order, total, now, e),
    ensures
        e == Response::Integer(1) <==> g matches Response::BulkString(Some(_)),
        e == Response::Integer(0) <==> g == Response::BulkString(None),
{
}

/// `DEL key` replies 1 when a value is stored under `key`, expired or not, and
/// 0 otherwise; either way nothing is stored under `key` afterwards and every
/// other key keeps its value.
pub proof fn law_delete_reply(
    m: Map<Seq<char>, ValueView>,
    order: Seq<Seq<char>>,
    total: nat,
    key: Seq<char>,
    now: u128,
    r: Response,
    other: Seq<char>,
)
    requires
        spec_reply(CommandView::Delete { key }, m, order, total, now, r),
    ensures
        r == Response::Integer(1) <==> m.contains_key(key),
        r == Response::Integer(0) <==> !m.contains_key(key),
        !spec_next(CommandView::Delete { key }, m, now).contains_key(key),
        other != key ==> (spec_next(CommandView::Delete { key }, m, now).contains_key(other)
            <==> m.contains_key(other)),
        other != key && m.contains_key(other) ==> spec_next(CommandView::Delete { key }, m, now)[other]
            == m[other],
{
}

/// The short key of a URL is the URL-safe Base64, without padding, of the
/// first six bytes of the BLAKE3 hash of all of the URL's UTF-8 bytes.
pub proof fn law_short_key_hashes_whole_url(url: Seq<char>)
    ensures
        short_key(url) == base64url(blake3_digest(encode_utf8(url)).take(6)),
{
}

/// URLs whose hashes differ in their first six bytes get different short keys.
pub proof fn law_different_hashes_give_different_keys(a: Seq<char>, b: Seq<char>)
    requires
        blake3_digest(encode_utf8(a)).len() >= 6,
        blake3_digest(encode_utf8(b)).len() >= 6,
        blake3_digest(encode_utf8(a)).take(6) != blake3_digest(encode_utf8(b)).take(6),
    ensures
        short_key(a) != short_key(b),
{
    if short_key(a) == short_key(b) {
        lemma_base64url_six_injective(
            blake3_digest(encode_utf8(a)).take(6),
            blake3_digest(encode_utf8(b)).take(6),
        );
    }
}

/// `SETURL b` after `SETURL a` leaves `a` readable under its short key when
/// the hashes of the two URLs differ in their first six bytes.
pub proof fn law_seturl_keeps_other_urls(
    m: Map<Seq<char>, ValueView>,
    a: Seq<char>,
    b: Seq<char>,
    t1: u128,
    t2: u128,
    now: u128,
)
    requires
        blake3_digest(encode_utf8(a)).len() >= 6,
        blake3_digest(encode_utf8(b)).len() >= 6,
        blake3_digest(encode_utf8(a)).take(6) != blake3_digest(encode_utf8(b)).take(6),
    ensures
        spec_get(
            spec_next(CommandView::SetUrl { url: b }, spec_next(CommandView::SetUrl { url: a }, m, t1), t2),
            short_key(a),
            now,
        ) == Some(a),
{
    law_different_hashes_give_different_keys(a, b);
}

/// For a pattern with a `*`, `KEYS` lists each stored key exactly when it
/// contains the pattern without its stars; for a pattern without one, it
/// lists a stored key exactly when the key is the pattern; with no pattern it
/// lists every stored key.
pub proof fn law_keys_pattern_lists(s: &Storage, p: Seq<char>, k: Seq<char>)
    requires
        s.wf(),
        s@.contains_key(k),
    ensures
        p.contains('*') ==> (matching_keys(s.key_order(), Some(p)).contains(k) <==> has_substring(
            k,
            without_stars(p),
        )),
        !p.contains('*') ==> (matching_keys(s.key_order(), Some(p)).contains(k) <==> k == p),
        matching_keys(s.key_order(), None::<Seq<char>>).contains(k),
{
    law_keys_lists_stored_keys(s, Some(p));
    law_keys_lists_stored_keys(s, None);
    assert(matching_keys(s.key_order(), Some(p)).contains(k) <==> key_matches(k, Some(p)));
    assert(matching_keys(s.key_order(), None::<Seq<char>>).contains(k));
}

/// Taking the stars out of a pattern keeps its other characters, in order.
pub proof fn law_without_stars_keeps_the_rest(p: Seq<char>)
    ensures
        without_stars(p) == p.filter(|c: char| c != '*'),
        !without_stars(p).contains('*'),
        !p.contains('*') ==> without_stars(p) == p,
    decreases p.len(),
{
    reveal(Seq::filter);
    if p.len() > 0 {
        law_without_stars_keeps_the_rest(p.drop_last());
        assert(p.drop_last().push(p.last()) =~= p);
    } else {
        assert(without_stars(p) =~= p);
    }
    assert(!without_stars(p).contains('*')) by {
        if without_stars(p).contains('*') {
            let i = choose|i: int| 0 <= i < without_stars(p).len() && without_stars(p)[i] == '*';
            p.lemma_filter_pred(|c: char| c != '*', i);
        }
    }
    if !p.contains('*') && p.len() > 0 {
        assert(!p.drop_last().contains('*')) by {
            if p.drop_last().contains('*') {
                let i = choose|i: int| 0 <= i < p.drop_last().len() && p.drop_last()[i] == '*';
                assert(p[i] == '*');
            }
        }
        assert(p.last() != '*') by {
            assert(p[p.len() - 1] == p.last());
        }
    }
}

/// Every text contains itself, anything it is put between, and the empty text.
pub proof fn law_substring_of_surrounded(a: Seq<char>, q: Seq<char>, b: Seq<char>)
    ensures
        has_substring(a + q + b, q),
        has_substring(q, q),
        has_substring(a, Seq::<char>::empty()),
        q.len() > a.len() ==> !has_substring(a, q),
{
    let s = a + q + b;
    assert(s.subrange(a.len() as int, (a.len() + q.len()) as int) =~= q);
    assert(q.subrange(0int, 0int + q.len()) =~= q);
    let e = Seq::<char>::empty();
    assert(a.subrange(0int, 0int + e.len()) =~= e);
}

} // verus!
