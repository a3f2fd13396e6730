//! The commands of the text protocol and how a line of text is read as one.

use vstd::prelude::*;
use vstd::utf8::is_ascii_chars;
use crate::error::{ParseError, ParseErrorView};
use crate::text::{IntParseError, parse_u64, spec_parse_u64, split_whitespace, words};

verus! {

broadcast use vstd::string::group_string_axioms;

/// A command of the protocol.
#[derive(Debug, PartialEq, Eq)]
pub enum Command {
    /// Stores `value` under `key`, without a time to live.
    SetValue { key: String, value: String },
    /// Reads the value under `key`.
    Get { key: String },
    /// Removes `key`.
    Delete { key: String },
    /// Tells whether a live value is stored under `key`.
    Exists { key: String },
    /// Stores `value` under `key` for `ttl_secs` seconds.
    SetEx { key: String, value: String, ttl_secs: u64 },
    /// Reports how many keys are stored.
    Info,
    /// Lists the stored keys, all of them or those that match `pattern`.
    Keys { pattern: Option<String> },
    /// Removes every key.
    Clear,
    /// Stores `url` under its short key and replies with that key.
    SetUrl { url: String },
    /// Gives the live value under `key` a time to live of `ttl_secs` seconds from now.
    SetTtl { key: String, ttl_secs: u64 },
}

/// A `Command` with its texts taken as characters.
pub enum CommandView {
    SetValue { key: Seq<char>, value: Seq<char> },
    Get { key: Seq<char> },
    Delete { key: Seq<char> },
    Exists { key: Seq<char> },
    SetEx { key: Seq<char>, value: Seq<char>, ttl_secs: u64 },
    Info,
    Keys { pattern: Option<Seq<char>> },
    Clear,
    SetUrl { url: Seq<char> },
    SetTtl { key: Seq<char>, ttl_secs: u64 },
}

impl View for Command {
    type V = CommandView;

    open spec fn view(&self) -> CommandView {
        match self {
            Command::SetValue { key, value } => CommandView::SetValue { key: key@, value: value@ },
            Command::Get { key } => CommandView::Get { key: key@ },
            Command::Delete { key } => CommandView::Delete { key: key@ },
            Command::Exists { key } => CommandView::Exists { key: key@ },
            Command::SetEx { key, value, ttl_secs } => CommandView::SetEx {
                key: key@,
                value: value@,
                ttl_secs: *ttl_secs,
            },
            Command::Info => CommandView::Info,
            Command::Keys { pattern } => CommandView::Keys {
                pattern: match pattern {
                    Some(p) => Some(p@),
                    None => None,
                },
            },
            Command::Clear => CommandView::Clear,
            Command::SetUrl { url } => CommandView::SetUrl { url: url@ },
            Command::SetTtl { key, ttl_secs } => CommandView::SetTtl {
                key: key@,
                ttl_secs: *ttl_secs,
            },
        }
    }
}

/// The outcome of reading a command, with its texts taken as characters.
pub open spec fn parse_outcome(r: Result<Command, ParseError>) -> Result<CommandView, ParseErrorView> {
    match r {
        Ok(c) => Ok(c@),
        Err(e) => Err(e@),
    }
}

/// What `str::to_uppercase` gives for a text that is not all ASCII, by the
/// Unicode case mapping.
pub uninterp spec fn unicode_uppercase(s: Seq<char>) -> Seq<char>;

/// `s` with the ASCII letters `a` to `z` turned into `A` to `Z`.
pub open spec fn ascii_upper(s: Seq<char>) -> Seq<char> {
    s.map_values(
        |c: char|
            if 97 <= (c as u32) <= 122 {
                ((c as u32) - 32) as char
            } else {
                c
            },
    )
}

/// What `str::to_uppercase` gives for the text `s`: on ASCII text, the ASCII
/// letters in upper case and the rest unchanged; on other text, the result of
/// the Unicode case mapping, which is only named.
pub open spec fn uppercase(s: Seq<char>) -> Seq<char> {
    if is_ascii_chars(s) {
        ascii_upper(s)
    } else {
        unicode_uppercase(s)
    }
}

/// Calls `str::to_uppercase`.  Claimed: on ASCII text it upper-cases the
/// letters `a` to `z` and keeps the other characters; on any other text its
/// result is only named (`unicode_uppercase`), the Unicode case mapping is not
/// written out.
#[verifier::external_body]
fn to_uppercase(s: &str) -> (r: String)
    ensures
        is_ascii_chars(s@) ==> r@ == ascii_upper(s@),
        !is_ascii_chars(s@) ==> r@ == unicode_uppercase(s@),
{
    s.to_uppercase()
}

/// The command that the words `parts` make, given `name`, the upper-case form
/// of the first word, and `marker`, the upper-case form of the fourth word when
/// there are at least five words.
pub open spec fn spec_command(parts: Seq<Seq<char>>, name: Seq<char>, marker: Seq<char>) -> Result<
    CommandView,
    ParseErrorView,
> {
    if parts.len() == 0 {
        Err(ParseErrorView::Empty)
    } else if name == "SET"@ {
        if parts.len() < 3 {
            Err(ParseErrorView::InvalidArguments)
        } else if parts.len() >= 5 && marker == "EX"@ {
            match spec_parse_u64(parts[4]) {
                Ok(t) => Ok(CommandView::SetEx { key: parts[1], value: parts[2], ttl_secs: t }),
                Err(e) => Err(ParseErrorView::InvalidTTL(e)),
            }
        } else {
            Ok(CommandView::SetValue { key: parts[1], value: parts[2] })
        }
    } else if name == "GET"@ {
        if parts.len() != 2 {
            Err(ParseErrorView::InvalidArguments)
        } else {
            Ok(CommandView::Get { key: parts[1] })
        }
    } else if name == "DEL"@ || name == "DELETE"@ {
        if parts.len() != 2 {
            Err(ParseErrorView::InvalidArguments)
        } else {
            Ok(CommandView::Delete { key: parts[1] })
        }
    } else if name == "EXISTS"@ {
        if parts.len() != 2 {
            Err(ParseErrorView::InvalidArguments)
        } else {
            Ok(CommandView::Exists { key: parts[1] })
        }
    } else if name == "CLEAR"@ {
        Ok(CommandView::Clear)
    } else if name == "INFO"@ {
        Ok(CommandView::Info)
    } else if name == "KEYS"@ {
        Ok(
            CommandView::Keys {
                pattern: if parts.len() >= 2 {
                    Some(parts[1])
                } else {
                    None
                },
            },
        )
    } else if name == "SETURL"@ {
        if parts.len() != 2 {
            Err(ParseErrorView::InvalidArguments)
        } else {
            Ok(CommandView::SetUrl { url: parts[1] })
        }
    } else if name == "SETTTL"@ {
        if parts.len() != 3 {
            Err(ParseErrorView::InvalidArguments)
        } else {
            match spec_parse_u64(parts[2]) {
                Ok(t) => Ok(CommandView::SetTtl { key: parts[1], ttl_secs: t }),
                Err(e) => Err(ParseErrorView::InvalidTTL(e)),
            }
        }
    } else {
        Err(ParseErrorView::UnknownCommand(name))
    }
}

/// The command that the line `s` holds: its words, with the first one and,
/// when there are at least five, the fourth one read in upper case.
pub open spec fn spec_parse(s: Seq<char>) -> Result<CommandView, ParseErrorView> {
    let parts = words(s);
    if parts.len() == 0 {
        Err(ParseErrorView::Empty)
    } else {
        spec_command(
            parts,
            uppercase(parts[0]),
            if parts.len() >= 5 {
                uppercase(parts[3])
            } else {
                Seq::empty()
            },
        )
    }
}

/// The characters of the texts in `v`.
pub open spec fn texts(v: Seq<String>) -> Seq<Seq<char>> {
    v.map_values(|s: String| s@)
}

/// Whether `s` holds exactly the characters of `lit`.
fn is_keyword(s: &String, lit: &str) -> (r: bool)
    ensures
        r == (s@ == lit@),
{
    let l = lit.to_string();
    *s == l
}

/// Reads a time to live from `s`.
fn read_ttl(s: &String) -> (r: Result<u64, ParseError>)
    ensures
        r matches Ok(t) ==> spec_parse_u64(s@) == Ok::<u64, IntParseError>(t),
        r matches Err(e) ==> spec_parse_u64(s@) matches Err(k) && e@ == ParseErrorView::InvalidTTL(
            k,
        ),
{
    match parse_u64(s.as_str()) {
        Ok(t) => Ok(t),
        Err(k) => Err(ParseError::InvalidTTL(k)),
    }
}

impl Command {
    /// The command that the words `parts` make, given `name`, the upper-case
    /// form of the first word, and `marker`, the upper-case form of the fourth
    /// word when there are at least five words (it is not read otherwise).
    pub fn from_words(parts: &Vec<String>, name: &String, marker: &String) -> (r: Result<
        Command,
        ParseError,
    >)
        ensures
            parse_outcome(r) == spec_command(texts(parts@), name@, marker@),
    {
        let ghost p = texts(parts@);
        let n = parts.len();
        assert(p.len() == n);
        if n == 0 {
            return Err(ParseError::Empty);
        }
        if is_keyword(name, "SET") {
            if n < 3 {
                return Err(ParseError::InvalidArguments);
            }
            let key = parts[1].clone();
            let value = parts[2].clone();
            assert(p[1] == parts@[1]@ && p[2] == parts@[2]@);
            if n >= 5 && is_keyword(marker, "EX") {
                assert(p[4] == parts@[4]@);
                let ttl_secs = read_ttl(&parts[4])?;
                Ok(Command::SetEx { key, value, ttl_secs })
            } else {
                Ok(Command::SetValue { key, value })
            }
        } else if is_keyword(name, "GET") {
            if n != 2 {
                return Err(ParseError::InvalidArguments);
            }
            assert(p[1] == parts@[1]@);
            Ok(Command::Get { key: parts[1].clone() })
        } else if is_keyword(name, "DEL") || is_keyword(name, "DELETE") {
            if n != 2 {
                return Err(ParseError::InvalidArguments);
            }
            assert(p[1] == parts@[1]@);
            Ok(Command::Delete { key: parts[1].clone() })
        } else if is_keyword(name, "EXISTS") {
            if n != 2 {
                return Err(ParseError::InvalidArguments);
            }
            assert(p[1] == parts@[1]@);
            Ok(Command::Exists { key: parts[1].clone() })
        } else if is_keyword(name, "CLEAR") {
            Ok(Command::Clear)
        } else if is_keyword(name, "INFO") {
            Ok(Command::Info)
        } else if is_keyword(name, "KEYS") {
            let pattern = if n >= 2 {
                assert(p[1] == parts@[1]@);
                Some(parts[1].clone())
            } else {
                None
            };
            Ok(Command::Keys { pattern })
        } else if is_keyword(name, "SETURL") {
            if n != 2 {
                return Err(ParseError::InvalidArguments);
            }
            assert(p[1] == parts@[1]@);
            Ok(Command::SetUrl { url: parts[1].clone() })
        } else if is_keyword(name, "SETTTL") {
            if n != 3 {
                return Err(ParseError::InvalidArguments);
            }
            assert(p[1] == parts@[1]@ && p[2] == parts@[2]@);
            let ttl_secs = read_ttl(&parts[2])?;
            Ok(Command::SetTtl { key: parts[1].clone(), ttl_secs })
        } else {
            Err(ParseError::UnknownCommand(name.clone()))
        }
    }

    /// Reads a line of text as a command: the line is cut into words at white
    /// space; the first word, in upper case, names the command and the others
    /// are its arguments.
    pub fn parse(input: &str) -> (r: Result<Self, ParseError>)
        ensures
            parse_outcome(r) == spec_parse(input@),
    {
        let parts = split_whitespace(input);
        proof {
            assert(texts(parts@) =~= words(input@));
        }
        if parts.len() == 0 {
            return Err(ParseError::Empty);
        }
        let name = to_uppercase(parts[0].as_str());
        let marker = if parts.len() >= 5 {
            to_uppercase(parts[3].as_str())
        } else {
            String::new()
        };
        Command::from_words(&parts, &name, &marker)
    }
}

} // verus!
