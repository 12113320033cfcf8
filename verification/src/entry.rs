//! Service entries, and the parser of one line.

use vstd::prelude::*;
use vstd::pervasive::unreached;
use crate::chars::{collect_chars, is_whitespace, starts_with_marker};
use crate::field::{find_slash, parse_port, port_of, slash_index, lemma_slash_index_bounds};
use crate::tokens::{is_word, lemma_tokens_are_words, next_token, tokens};

verus! {

/// Why a source or one of its lines was refused.
#[derive(Debug, Clone, Copy, PartialEq, Eq, Structural)]
pub enum ServiceError {
    /// The designated path is missing or names no regular file.
    InvalidSource,
    /// The source exists but could not be opened for reading.
    OpenFailed,
    /// Reading the source failed part-way.
    ReadFailed,
    /// The first token of a line begins with the comment marker.
    MalformedInput,
    /// The line has no second token, or a comment stands where the port should.
    MissingPortProtocolField,
    /// The port is not a decimal number, or is too large.
    MalformedPort,
    /// No protocol follows the port, or a comment stands in its place.
    MissingProtocolField,
}

impl ServiceError {
    /// The text of the message of each kind of error.
    pub open spec fn message_text(self) -> Seq<char> {
        match self {
            ServiceError::InvalidSource => "File does not exist or is not a regular file"@,
            ServiceError::OpenFailed => "Could not open file"@,
            ServiceError::ReadFailed => "Error reading file"@,
            ServiceError::MalformedInput => "Malformed input"@,
            ServiceError::MissingPortProtocolField => "Could not find port and protocol field"@,
            ServiceError::MalformedPort => "Malformed port"@,
            ServiceError::MissingProtocolField => "Could not find protocol"@,
        }
    }

    /// A short message for the error.
    pub fn message(&self) -> (r: &'static str)
        ensures
            r@ == self.message_text(),
    {
        match self {
            ServiceError::InvalidSource => "File does not exist or is not a regular file",
            ServiceError::OpenFailed => "Could not open file",
            ServiceError::ReadFailed => "Error reading file",
            ServiceError::MalformedInput => "Malformed input",
            ServiceError::MissingPortProtocolField => "Could not find port and protocol field",
            ServiceError::MalformedPort => "Malformed port",
            ServiceError::MissingProtocolField => "Could not find protocol",
        }
    }
}

/// A line of the services database that has a service on it.
#[derive(Debug, PartialEq)]
pub struct ServiceEntry {
    pub name: String,
    pub port: usize,
    pub protocol: String,
    pub aliases: Vec<String>,
}

/// A service entry as mathematical values.
pub ghost struct EntryView {
    pub name: Seq<char>,
    pub port: nat,
    pub protocol: Seq<char>,
    pub aliases: Seq<Seq<char>>,
}

/// A name token: not empty, free of whitespace, and no comment.
pub open spec fn is_name(t: Seq<char>) -> bool {
    t.len() > 0 && is_word(t) && t[0] != '#'
}

impl EntryView {
    /// What holds of every entry that the parser builds: the name, the
    /// protocol and each alias are name tokens, and the port fits `usize`.
    pub open spec fn well_formed(self) -> bool {
        &&& is_name(self.name)
        &&& is_name(self.protocol)
        &&& self.port <= usize::MAX
        &&& forall|i: int| 0 <= i < self.aliases.len() ==> is_name(#[trigger] self.aliases[i])
    }
}

impl View for ServiceEntry {
    type V = EntryView;

    open spec fn view(&self) -> EntryView {
        EntryView {
            name: self.name@,
            port: self.port as nat,
            protocol: self.protocol@,
            aliases: self.aliases@.map_values(|a: String| a@),
        }
    }
}

/// The aliases among the tokens that follow the `port/protocol` field: those
/// before the first token that begins with the comment marker.
pub open spec fn aliases_of(rest: Seq<Seq<char>>) -> Seq<Seq<char>>
    decreases rest.len(),
{
    if rest.len() == 0 || starts_with_marker(rest[0]) {
        Seq::empty()
    } else {
        seq![rest[0]] + aliases_of(rest.drop_first())
    }
}

/// The entry that a line's tokens describe, or the reason why they describe
/// none. The checks come in this order: the name, the presence of the second
/// token, the port text, the port's value, the protocol.
pub open spec fn parse_tokens(toks: Seq<Seq<char>>) -> Result<EntryView, ServiceError>
    recommends
        toks.len() > 0,
{
    if starts_with_marker(toks[0]) {
        Err(ServiceError::MalformedInput)
    } else if toks.len() < 2 {
        Err(ServiceError::MissingPortProtocolField)
    } else {
        let field = toks[1];
        let slash = slash_index(field) as int;
        let port_text = field.take(slash);
        let protocol = field.skip(slash + 1);
        if starts_with_marker(port_text) {
            Err(ServiceError::MissingPortProtocolField)
        } else if port_of(port_text) is None {
            Err(ServiceError::MalformedPort)
        } else if slash >= field.len() || protocol.len() == 0 || starts_with_marker(protocol) {
            Err(ServiceError::MissingProtocolField)
        } else {
            Ok(
                EntryView {
                    name: toks[0],
                    port: port_of(port_text).unwrap() as nat,
                    protocol,
                    aliases: aliases_of(toks.skip(2)),
                },
            )
        }
    }
}

/// What the line parser makes of a line.
pub open spec fn parse_line_spec(line: Seq<char>) -> Result<EntryView, ServiceError>
    recommends
        tokens(line).len() > 0,
{
    parse_tokens(tokens(line))
}

/// An outcome of the line parser as mathematical values.
pub open spec fn outcome_view(r: Result<ServiceEntry, ServiceError>) -> Result<
    EntryView,
    ServiceError,
> {
    match r {
        Ok(entry) => Ok(entry@),
        Err(kind) => Err(kind),
    }
}

/// The aliases are the tokens before the first comment token, and no more:
/// none of them begins with the comment marker, and they end where the
/// tokens end or a comment token stands.
pub proof fn lemma_aliases_end_at_comment(rest: Seq<Seq<char>>)
    ensures
        aliases_of(rest).len() <= rest.len(),
        aliases_of(rest) == rest.take(aliases_of(rest).len() as int),
        forall|i: int| 0 <= i < aliases_of(rest).len() ==> !starts_with_marker(#[trigger] rest[i]),
        aliases_of(rest).len() == rest.len() || starts_with_marker(
            rest[aliases_of(rest).len() as int],
        ),
    decreases rest.len(),
{
    if rest.len() == 0 || starts_with_marker(rest[0]) {
        assert(aliases_of(rest) =~= rest.take(0));
    } else {
        let tail = rest.drop_first();
        lemma_aliases_end_at_comment(tail);
        let n = aliases_of(tail).len() as int;
        assert(aliases_of(rest) == seq![rest[0]] + aliases_of(tail));
        assert(seq![rest[0]] + tail.take(n) =~= rest.take(n + 1));
        assert forall|i: int| 0 <= i < n + 1 implies !starts_with_marker(#[trigger] rest[i]) by {
            if i > 0 {
                assert(rest[i] == tail[i - 1]);
            }
        }
        if n < tail.len() {
            assert(rest[n + 1] == tail[n]);
        }
    }
}

/// An entry made from the tokens of a line is well formed.
pub proof fn lemma_parsed_entry_is_well_formed(line: Seq<char>)
    requires
        tokens(line).len() > 0,
    ensures
        parse_line_spec(line) is Ok ==> parse_line_spec(line)->Ok_0.well_formed(),
{
    let toks = tokens(line);
    lemma_tokens_are_words(line);
    if parse_line_spec(line) is Ok {
        let entry = parse_line_spec(line)->Ok_0;
        let field = toks[1];
        let slash = slash_index(field) as int;
        lemma_slash_index_bounds(field);
        assert(is_name(entry.name));
        assert forall|i: int| 0 <= i < entry.protocol.len() implies !is_whitespace(
            #[trigger] entry.protocol[i],
        ) by {
            assert(entry.protocol[i] == field[slash + 1 + i]);
        }
        let rest = toks.skip(2);
        lemma_aliases_end_at_comment(rest);
        assert forall|i: int| 0 <= i < entry.aliases.len() implies is_name(
            #[trigger] entry.aliases[i],
        ) by {
            assert(entry.aliases[i] == rest.take(entry.aliases.len() as int)[i]);
            assert(rest[i] == toks[i + 2]);
        }
    }
}

/// An owned copy of the characters `begin..end` of `text`.
fn copy_range(text: &str, begin: usize, end: usize) -> (r: String)
    requires
        begin <= end <= text@.len(),
    ensures
        r@ == text@.subrange(begin as int, end as int),
{
    text.substring_char(begin, end).to_owned()
}

/// Parses one line of the services database.
///
/// The line must hold a token. Its first token is the name, its second the
/// port and the protocol with a `/` between them; the tokens after these are
/// aliases, up to the first that begins with `#`.
pub fn parse_line(text: &str) -> (r: Result<ServiceEntry, ServiceError>)
    requires
        tokens(text@).len() > 0,
    ensures
        outcome_view(r) == parse_line_spec(text@),
        r is Ok ==> r->Ok_0@.well_formed(),
{
    proof {
        lemma_parsed_entry_is_well_formed(text@);
    }
    let chars = collect_chars(text);
    let ghost line = chars@;
    let ghost toks = tokens(line);
    proof {
        assert(line.skip(0) =~= line);
    }
    let (name_begin, name_end) = match next_token(&chars, 0) {
        Some(bounds) => bounds,
        None => unreached(),
    };
    proof {
        assert(toks[0] == line.subrange(name_begin as int, name_end as int));
        assert(toks.skip(1) =~= tokens(line.skip(name_end as int)));
    }
    if chars[name_begin] == '#' {
        return Err(ServiceError::MalformedInput);
    }
    let (field_begin, field_end) = match next_token(&chars, name_end) {
        Some(bounds) => bounds,
        None => {
            return Err(ServiceError::MissingPortProtocolField);
        },
    };
    let ghost field = line.subrange(field_begin as int, field_end as int);
    proof {
        assert(toks.skip(1)[0] == field);
        assert(toks[1] == field);
        assert(toks.skip(2) =~= tokens(line.skip(field_end as int)));
    }
    let slash = find_slash(&chars, field_begin, field_end);
    proof {
        assert(field.take(slash - field_begin) =~= line.subrange(
            field_begin as int,
            slash as int,
        ));
    }
    if slash > field_begin && chars[field_begin] == '#' {
        return Err(ServiceError::MissingPortProtocolField);
    }
    let port = match parse_port(&chars, field_begin, slash) {
        Some(port) => port,
        None => {
            return Err(ServiceError::MalformedPort);
        },
    };
    if slash >= field_end || slash + 1 >= field_end || chars[slash + 1] == '#' {
        return Err(ServiceError::MissingProtocolField);
    }
    proof {
        assert(field.skip(slash - field_begin + 1) =~= line.subrange(
            slash + 1,
            field_end as int,
        ));
    }
    let name = copy_range(text, name_begin, name_end);
    let protocol = copy_range(text, slash + 1, field_end);
    let mut aliases: Vec<String> = Vec::new();
    let mut pos: usize = field_end;
    loop
        invariant
            line == chars@,
            line == text@,
            field_end <= pos <= line.len(),
            aliases_of(toks.skip(2)) == aliases@.map_values(|a: String| a@) + aliases_of(
                tokens(line.skip(pos as int)),
            ),
        ensures
            aliases_of(toks.skip(2)) == aliases@.map_values(|a: String| a@),
        decreases line.len() - pos,
    {
        let ghost rest = tokens(line.skip(pos as int));
        let ghost found = aliases@.map_values(|a: String| a@);
        match next_token(&chars, pos) {
            None => {
                assert(found + aliases_of(rest) =~= found);
                break ;
            },
            Some((begin, end)) => {
                assert(rest[0] == line.subrange(begin as int, end as int));
                if chars[begin] == '#' {
                    assert(found + aliases_of(rest) =~= found);
                    break ;
                }
                let alias = copy_range(text, begin, end);
                aliases.push(alias);
                pos = end;
                proof {
                    assert(rest.drop_first() =~= tokens(line.skip(end as int)));
                    assert(aliases@.map_values(|a: String| a@) =~= found + seq![rest[0]]);
                    assert(found + aliases_of(rest) =~= (found + seq![rest[0]]) + aliases_of(
                        rest.drop_first(),
                    ));
                }
            },
        }
    }
    Ok(ServiceEntry { name, port, protocol, aliases })
}

} // verus!
