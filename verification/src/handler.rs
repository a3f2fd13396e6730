//! Carrying out commands on the store.

use vstd::prelude::*;
use crate::command::{Command, CommandView, spec_parse};
use crate::error::{CommandError, StorageError};
use crate::response::Response;
use crate::storage::{
    Storage, ValueView, expiry, info_text, later, is_bulk, is_key_list, is_ok_reply, matching_keys,
    spec_get, spec_set_ttl, without_key,
};
use crate::storage::converter::{generate_short_url, is_short_key, short_key};

verus! {

/// The contents of the store after `c` is carried out on `m` at time `now`.
pub open spec fn spec_next(c: CommandView, m: Map<Seq<char>, ValueView>, now: u128) -> Map<
    Seq<char>,
    ValueView,
> {
    match c {
        CommandView::SetValue { key, value } => m.insert(
            key,
            ValueView { value, expires_at: None },
        ),
        CommandView::SetEx { key, value, ttl_secs } => m.insert(
            key,
            ValueView { value, expires_at: Some(expiry(now, ttl_secs)) },
        ),
        CommandView::Delete { key } => m.remove(key),
        CommandView::Clear => Map::empty(),
        CommandView::SetUrl { url } => m.insert(
            short_key(url),
            ValueView { value: url, expires_at: None },
        ),
        CommandView::SetTtl { key, ttl_secs } => spec_set_ttl(m, key, ttl_secs, now),
        _ => m,
    }
}

/// The order of the stored keys after `c` is carried out on a store with
/// contents `m` and keys in the order `order`: a new key goes last, a removed
/// key leaves its place, and the others keep theirs.
pub open spec fn spec_next_order(c: CommandView, m: Map<Seq<char>, ValueView>, order: Seq<Seq<char>>) -> Seq<
    Seq<char>,
> {
    match c {
        CommandView::SetValue { key, .. } => if m.contains_key(key) {
            order
        } else {
            order.push(key)
        },
        CommandView::SetEx { key, .. } => if m.contains_key(key) {
            order
        } else {
            order.push(key)
        },
        CommandView::SetUrl { url } => if m.contains_key(short_key(url)) {
            order
        } else {
            order.push(short_key(url))
        },
        CommandView::Delete { key } => without_key(order, key),
        CommandView::Clear => Seq::empty(),
        _ => order,
    }
}

/// Whether `r` is the reply to `c` on a store with contents `m`, keys in the
/// order `order` and key count `total`, at time `now`.
pub open spec fn spec_reply(
    c: CommandView,
    m: Map<Seq<char>, ValueView>,
    order: Seq<Seq<char>>,
    total: nat,
    now: u128,
    r: Response,
) -> bool {
    match c {
        CommandView::SetValue { .. } => is_ok_reply(r),
        CommandView::SetEx { .. } => is_ok_reply(r),
        CommandView::Clear => is_ok_reply(r),
        CommandView::Get { key } => is_bulk(r, spec_get(m, key, now)),
        CommandView::Delete { key } => r == Response::Integer(
            if m.contains_key(key) {
                1
            } else {
                0
            },
        ),
        CommandView::Exists { key } => r == Response::Integer(
            if spec_get(m, key, now) is Some {
                1
            } else {
                0
            },
        ),
        CommandView::SetTtl { key, .. } => r == Response::Integer(
            if spec_get(m, key, now) is Some {
                1
            } else {
                0
            },
        ),
        CommandView::Info => is_bulk(r, Some(info_text(total))),
        CommandView::Keys { pattern } => is_key_list(r, matching_keys(order, pattern)),
        CommandView::SetUrl { url } => is_bulk(r, Some(short_key(url))),
    }
}

/// Carries out `command` on `storage` at time `now`.
pub fn execute(storage: &mut Storage, command: Command, now: u128) -> (r: Result<
    Response,
    StorageError,
>)
    requires
        old(storage).wf(),
    ensures
        final(storage).wf(),
        final(storage)@ == spec_next(command@, old(storage)@, now),
        final(storage).key_order() == spec_next_order(
            command@,
            old(storage)@,
            old(storage).key_order(),
        ),
        final(storage).clock_floor() == later(old(storage).clock_floor(), now),
        command@ matches CommandView::SetUrl { url } ==> is_short_key(short_key(url)),
        r matches Ok(resp) && spec_reply(
            command@,
            old(storage)@,
            old(storage).key_order(),
            old(storage).total_keys(),
            now,
            resp,
        ),
{
    storage.note_time(now);
    match command {
        Command::SetValue { key, value } => Ok(storage.set_at(key, value, now)),
        Command::SetEx { key, value, ttl_secs } => Ok(storage.set_ex_at(key, value, ttl_secs, now)),
        Command::Get { key } => Ok(storage.get_at(key.as_str(), now)),
        Command::Delete { key } => storage.delete(key.as_str()),
        Command::Exists { key } => Ok(storage.key_exists_at(key.as_str(), now)),
        Command::Keys { pattern } => {
            let p = match &pattern {
                Some(s) => Some(s.as_str()),
                None => None,
            };
            storage.keys(p)
        },
        Command::Clear => storage.clear(),
        Command::Info => storage.info(),
        Command::SetUrl { url } => {
            let key = generate_short_url(url.as_str());
            let reply = key.clone();
            storage.set_at(key, url, now);
            Ok(Response::BulkString(Some(reply)))
        },
        Command::SetTtl { key, ttl_secs } => Ok(storage.set_ttl_at(key.as_str(), ttl_secs, now)),
    }
}

/// Reads the line `input` as a command and carries it out on `storage` at
/// time `now`; a line that is not a command leaves the store as it was.
pub fn process_command_at(storage: &mut Storage, input: &str, now: u128) -> (r: Result<
    Response,
    CommandError,
>)
    requires
        old(storage).wf(),
    ensures
        final(storage).wf(),
        match spec_parse(input@) {
            Ok(c) => {
                &&& final(storage)@ == spec_next(c, old(storage)@, now)
                &&& final(storage).key_order() == spec_next_order(
                    c,
                    old(storage)@,
                    old(storage).key_order(),
                )
                &&& final(storage).clock_floor() == later(old(storage).clock_floor(), now)
                &&& (c matches CommandView::SetUrl { url } ==> is_short_key(short_key(url)))
                &&& r matches Ok(resp) && spec_reply(
                    c,
                    old(storage)@,
                    old(storage).key_order(),
                    old(storage).total_keys(),
                    now,
                    resp,
                )
            },
            Err(e) => {
                &&& *final(storage) == *old(storage)
                &&& r matches Err(CommandError::Parse(pe)) && pe@ == e
            },
        },
{
    let command = match Command::parse(input) {
        Ok(c) => c,
        Err(e) => return Err(CommandError::Parse(e)),
    };
    match execute(storage, command, now) {
        Ok(resp) => Ok(resp),
        Err(e) => Err(CommandError::Storage(e)),
    }
}

/// Reads the line `input` as a command and carries it out on `storage` at the
/// present time of its clock.
pub fn process_command(storage: &mut Storage, input: &str) -> (r: Result<Response, CommandError>)
    requires
        old(storage).wf(),
    ensures
        final(storage).wf(),
        match spec_parse(input@) {
            Ok(c) => (c matches CommandView::SetUrl { url } ==> is_short_key(short_key(url)))
                && exists|now: u128|
                {
                    &&& now >= old(storage).clock_floor()
                    &&& final(storage).clock_floor() == now
                    &&& final(storage)@ == #[trigger] spec_next(c, old(storage)@, now)
                    &&& final(storage).key_order() == spec_next_order(
                        c,
                        old(storage)@,
                        old(storage).key_order(),
                    )
                    &&& r matches Ok(resp) && spec_reply(
                        c,
                        old(storage)@,
                        old(storage).key_order(),
                        old(storage).total_keys(),
                        now,
                        resp,
                    )
                },
            Err(e) => {
                &&& *final(storage) == *old(storage)
                &&& r matches Err(CommandError::Parse(pe)) && pe@ == e
            },
        },
{
    let now = storage.now();
    process_command_at(storage, input, now)
}

} // verus!
