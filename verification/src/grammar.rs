//! The grammar of an entry line, and the law that the line parser reads
//! every line of the grammar as what it was written from.
//!
//! ```text
//! Entry := WS* Name WS+ Port '/' Protocol (WS+ Alias)* (WS+ Comment?)?
//! ```

use vstd::prelude::*;
use crate::chars::{is_whitespace, starts_with_marker};
use crate::entry::{aliases_of, is_name, parse_line_spec, EntryView, ServiceError};
use crate::field::{decimal_value, is_decimal, is_digit, lemma_slash_index_is, slash_index};
use crate::source::{is_skipped, significant};
use crate::tokens::{
    is_blank,
    is_word,
    lemma_tokens_after_blank,
    lemma_tokens_after_word,
    lemma_tokens_skip_ws,
    lemma_word_len_bounds,
    tokens,
    word_len,
};

verus! {

/// A separator: one whitespace character or more.
pub open spec fn is_gap(t: Seq<char>) -> bool {
    t.len() > 0 && is_blank(t)
}

/// What may follow the last token of an entry: nothing, or whitespace and
/// then nothing or a comment.
pub open spec fn is_trailer(t: Seq<char>) -> bool {
    t.len() == 0 || (is_whitespace(t[0]) && is_skipped(t))
}

/// The text of the aliases, each after its separator, and of the trailer.
pub open spec fn after_field(
    gaps: Seq<Seq<char>>,
    aliases: Seq<Seq<char>>,
    trailer: Seq<char>,
) -> Seq<char>
    decreases aliases.len(),
{
    if aliases.len() == 0 || gaps.len() == 0 {
        trailer
    } else {
        gaps[0] + (aliases[0] + after_field(gaps.drop_first(), aliases.drop_first(), trailer))
    }
}

/// The parts that an entry line is written from.
pub ghost struct EntryLine {
    /// The whitespace before the name.
    pub lead: Seq<char>,
    pub name: Seq<char>,
    /// The whitespace between the name and the port.
    pub gap: Seq<char>,
    /// The digits of the port.
    pub port: Seq<char>,
    pub protocol: Seq<char>,
    /// The whitespace before each alias.
    pub gaps: Seq<Seq<char>>,
    pub aliases: Seq<Seq<char>>,
    /// The rest of the line: whitespace, and a comment where there is one.
    pub trailer: Seq<char>,
}

impl EntryLine {
    /// The parts are those of a line of the grammar.
    pub open spec fn well_formed(self) -> bool {
        &&& is_blank(self.lead)
        &&& is_name(self.name)
        &&& is_gap(self.gap)
        &&& is_decimal(self.port)
        &&& is_name(self.protocol)
        &&& self.gaps.len() == self.aliases.len()
        &&& forall|i: int| 0 <= i < self.gaps.len() ==> is_gap(#[trigger] self.gaps[i])
        &&& forall|i: int| 0 <= i < self.aliases.len() ==> is_name(#[trigger] self.aliases[i])
        &&& is_trailer(self.trailer)
    }

    /// The `port/protocol` field of the line.
    pub open spec fn field(self) -> Seq<char> {
        self.port + seq!['/'] + self.protocol
    }

    /// The line as text.
    pub open spec fn text(self) -> Seq<char> {
        self.lead + (self.name + (self.gap + (self.field() + after_field(
            self.gaps,
            self.aliases,
            self.trailer,
        ))))
    }

    /// The entry that the line describes.
    pub open spec fn entry(self) -> EntryView {
        EntryView {
            name: self.name,
            port: decimal_value(self.port),
            protocol: self.protocol,
            aliases: self.aliases,
        }
    }
}

/// The tokens of a trailer hold no alias.
proof fn lemma_trailer_has_no_alias(trailer: Seq<char>)
    requires
        is_trailer(trailer),
    ensures
        aliases_of(tokens(trailer)) == Seq::<Seq<char>>::empty(),
{
    lemma_tokens_skip_ws(trailer);
    let rest = significant(trailer);
    if rest.len() > 0 {
        lemma_word_len_bounds(rest);
        assert(word_len(rest) >= 1);
        assert(tokens(rest)[0] == rest.take(word_len(rest) as int));
        assert(starts_with_marker(tokens(rest)[0]));
    } else {
        assert(tokens(rest).len() == 0);
    }
}

/// The tokens after the field give the aliases that the line was written
/// from, in their order, and nothing of the trailer.
proof fn lemma_aliases_are_read_back(
    gaps: Seq<Seq<char>>,
    aliases: Seq<Seq<char>>,
    trailer: Seq<char>,
)
    requires
        gaps.len() == aliases.len(),
        forall|i: int| 0 <= i < gaps.len() ==> is_gap(#[trigger] gaps[i]),
        forall|i: int| 0 <= i < aliases.len() ==> is_name(#[trigger] aliases[i]),
        is_trailer(trailer),
    ensures
        aliases_of(tokens(after_field(gaps, aliases, trailer))) == aliases,
        after_field(gaps, aliases, trailer).len() == 0 || is_whitespace(
            after_field(gaps, aliases, trailer)[0],
        ),
    decreases aliases.len(),
{
    if aliases.len() == 0 {
        lemma_trailer_has_no_alias(trailer);
        assert(aliases =~= Seq::<Seq<char>>::empty());
    } else {
        let more_gaps = gaps.drop_first();
        let more = aliases.drop_first();
        let rest = after_field(more_gaps, more, trailer);
        assert forall|i: int| 0 <= i < more_gaps.len() implies is_gap(#[trigger] more_gaps[i]) by {
            assert(more_gaps[i] == gaps[i + 1]);
        }
        assert forall|i: int| 0 <= i < more.len() implies is_name(#[trigger] more[i]) by {
            assert(more[i] == aliases[i + 1]);
        }
        lemma_aliases_are_read_back(more_gaps, more, trailer);
        assert(is_gap(gaps[0]));
        assert(is_name(aliases[0]));
        lemma_tokens_after_blank(gaps[0], aliases[0] + rest);
        lemma_tokens_after_word(aliases[0], rest);
        let toks = tokens(after_field(gaps, aliases, trailer));
        assert(toks == seq![aliases[0]] + tokens(rest));
        assert(toks.drop_first() =~= tokens(rest));
        assert(seq![aliases[0]] + more =~= aliases);
        assert(after_field(gaps, aliases, trailer)[0] == gaps[0][0]);
    }
}

/// The line parser succeeds on every line of the grammar whose port fits
/// `usize`, and gives the name, the port, the protocol and the aliases that
/// the line was written from: every alias in its place, and nothing of the
/// comment.
pub proof fn lemma_grammar_lines_parse(line: EntryLine)
    requires
        line.well_formed(),
        decimal_value(line.port) <= usize::MAX,
    ensures
        parse_line_spec(line.text()) == Ok::<EntryView, ServiceError>(line.entry()),
{
    let field = line.field();
    let rest = after_field(line.gaps, line.aliases, line.trailer);
    let split = line.port.len() as int;
    lemma_aliases_are_read_back(line.gaps, line.aliases, line.trailer);
    assert forall|i: int| 0 <= i < field.len() implies !is_whitespace(#[trigger] field[i]) by {
        if i < split {
            assert(field[i] == line.port[i]);
            assert(is_digit(line.port[i]));
        } else if i > split {
            assert(field[i] == line.protocol[i - split - 1]);
        }
    }
    assert forall|i: int| 0 <= i < split implies field[i] != '/' by {
        assert(field[i] == line.port[i]);
        assert(is_digit(line.port[i]));
    }
    assert(field[split] == '/');
    lemma_slash_index_is(field, split);
    assert(field.take(split) =~= line.port);
    assert(field.skip(split + 1) =~= line.protocol);
    assert(is_digit(line.port[0]));

    let from_field = field + rest;
    let from_gap = line.gap + from_field;
    let from_name = line.name + from_gap;
    lemma_tokens_after_word(field, rest);
    lemma_tokens_after_blank(line.gap, from_field);
    assert(from_gap[0] == line.gap[0]);
    lemma_tokens_after_word(line.name, from_gap);
    lemma_tokens_after_blank(line.lead, from_name);
    let toks = tokens(line.text());
    assert(toks == seq![line.name] + (seq![field] + tokens(rest)));
    assert(toks[0] == line.name);
    assert(toks[1] == field);
    assert(toks.skip(2) =~= tokens(rest));
}

} // verus!
