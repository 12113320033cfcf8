//! The aggregator: from the lines of a source to the list of its entries.

use vstd::prelude::*;
use vstd::string::StrSliceExecFns;
use crate::chars::{is_comment, is_whitespace};
use crate::entry::{
    lemma_parsed_entry_is_well_formed,
    parse_line,
    parse_line_spec,
    EntryView,
    ServiceEntry,
    ServiceError,
};
use crate::tokens::{discard_ws, leading_ws, lemma_has_token, lemma_leading_ws_bounds, tokens};

verus! {

/// Where the system keeps its services database.
pub fn services_path() -> (r: &'static str)
    ensures
        r@ == "/etc/services"@,
{
    "/etc/services"
}

/// What was found at the place that a source designates.
#[derive(Debug)]
pub enum Source {
    /// Nothing is there, or what is there is no regular file.
    NotRegularFile,
    /// A regular file that could not be opened for reading.
    Unopenable,
    /// A file that was opened: the lines read from it, in order, and whether
    /// reading failed after the last of them.
    Opened { lines: Vec<String>, read_failed: bool },
}

/// A source as mathematical values.
pub ghost enum SourceView {
    NotRegularFile,
    Unopenable,
    Opened { lines: Seq<Seq<char>>, read_failed: bool },
}

impl SourceView {
    /// The source was opened and read to its end without a fault.
    pub open spec fn read_to_end(self) -> bool {
        match self {
            SourceView::Opened { lines, read_failed } => !read_failed,
            _ => false,
        }
    }
}

impl View for Source {
    type V = SourceView;

    open spec fn view(&self) -> SourceView {
        match self {
            Source::NotRegularFile => SourceView::NotRegularFile,
            Source::Unopenable => SourceView::Unopenable,
            Source::Opened { lines, read_failed } => SourceView::Opened {
                lines: lines@.map_values(|l: String| l@),
                read_failed: *read_failed,
            },
        }
    }
}

/// A line from its first significant character on.
pub open spec fn significant(line: Seq<char>) -> Seq<char> {
    line.skip(leading_ws(line) as int)
}

/// A line that holds no entry: it is blank, or its first significant
/// character is the comment marker.
pub open spec fn is_skipped(line: Seq<char>) -> bool {
    significant(line).len() == 0 || significant(line)[0] == '#'
}

/// The entries of `lines` in order, or the first error that is not
/// tolerated. A line that is skipped gives neither; a line that does not
/// parse is dropped where `ignore_errs` holds, and else ends the whole with
/// its error.
pub open spec fn aggregate(lines: Seq<Seq<char>>, ignore_errs: bool) -> Result<
    Seq<EntryView>,
    ServiceError,
>
    decreases lines.len(),
{
    if lines.len() == 0 {
        Ok(Seq::empty())
    } else {
        match aggregate(lines.drop_last(), ignore_errs) {
            Err(kind) => Err(kind),
            Ok(found) => if is_skipped(lines.last()) {
                Ok(found)
            } else {
                match parse_line_spec(significant(lines.last())) {
                    Ok(entry) => Ok(found.push(entry)),
                    Err(kind) => if ignore_errs {
                        Ok(found)
                    } else {
                        Err(kind)
                    },
                }
            },
        }
    }
}

/// What the aggregator makes of a source: its faults come first, in the
/// order in which they would be met; a fault while reading is never
/// tolerated.
pub open spec fn parse_source_spec(source: SourceView, ignore_errs: bool) -> Result<
    Seq<EntryView>,
    ServiceError,
> {
    match source {
        SourceView::NotRegularFile => Err(ServiceError::InvalidSource),
        SourceView::Unopenable => Err(ServiceError::OpenFailed),
        SourceView::Opened { lines, read_failed } => match aggregate(lines, ignore_errs) {
            Err(kind) => Err(kind),
            Ok(found) => if read_failed {
                Err(ServiceError::ReadFailed)
            } else {
                Ok(found)
            },
        },
    }
}

/// An outcome of the aggregator as mathematical values.
pub open spec fn aggregate_view(r: Result<Vec<ServiceEntry>, ServiceError>) -> Result<
    Seq<EntryView>,
    ServiceError,
> {
    match r {
        Ok(entries) => Ok(entries@.map_values(|e: ServiceEntry| e@)),
        Err(kind) => Err(kind),
    }
}

/// Parses a source in the format of `services(5)`.
///
/// Where `ignore_errs` holds, lines that do not parse are left out: some
/// systems keep lines that do not respect the format.
pub fn parse_file(source: &Source, ignore_errs: bool) -> (r: Result<
    Vec<ServiceEntry>,
    ServiceError,
>)
    ensures
        aggregate_view(r) == parse_source_spec(source@, ignore_errs),
        ignore_errs && source@.read_to_end() ==> r is Ok,
        r is Ok ==> forall|i: int|
            0 <= i < r->Ok_0@.len() ==> (#[trigger] r->Ok_0@[i])@.well_formed(),
{
    match source {
        Source::NotRegularFile => Err(ServiceError::InvalidSource),
        Source::Unopenable => Err(ServiceError::OpenFailed),
        Source::Opened { lines, read_failed } => {
            let ghost all = lines@.map_values(|l: String| l@);
            let mut entries: Vec<ServiceEntry> = Vec::new();
            let mut i: usize = 0;
            proof {
                assert(all.take(0).len() == 0);
                assert(entries@.map_values(|e: ServiceEntry| e@) =~= Seq::empty());
            }
            while i < lines.len()
                invariant
                    i <= lines@.len(),
                    all == lines@.map_values(|l: String| l@),
                    source@ == (SourceView::Opened { lines: all, read_failed: *read_failed }),
                    aggregate(all.take(i as int), ignore_errs) == Ok::<
                        Seq<EntryView>,
                        ServiceError,
                    >(entries@.map_values(|e: ServiceEntry| e@)),
                decreases lines@.len() - i,
            {
                let ghost found = entries@.map_values(|e: ServiceEntry| e@);
                let line: &str = lines[i].as_str();
                proof {
                    assert(all.take(i + 1).drop_last() =~= all.take(i as int));
                    assert(all.take(i + 1).last() == line@);
                    lemma_leading_ws_bounds(line@);
                }
                let end = line.unicode_len();
                let start = discard_ws(line, 0);
                let entryline = line.substring_char(start, end);
                proof {
                    assert(line@.skip(0) =~= line@);
                    assert(entryline@ =~= significant(line@));
                }
                if start < end && !is_comment(entryline) {
                    assert(!is_skipped(line@));
                    assert(tokens(entryline@).len() > 0);
                    match parse_line(entryline) {
                        Ok(entry) => {
                            entries.push(entry);
                            assert(entries@.map_values(|e: ServiceEntry| e@) =~= found.push(
                                entry@,
                            ));
                        },
                        Err(kind) => {
                            if !ignore_errs {
                                proof {
                                    assert(aggregate(all.take(i + 1), ignore_errs) == Err::<
                                        Seq<EntryView>,
                                        ServiceError,
                                    >(kind));
                                    lemma_aggregate_stops(all, i + 1, ignore_errs);
                                }
                                return Err(kind);
                            }
                        },
                    }
                }
                i += 1;
            }
            proof {
                assert(all.take(i as int) =~= all);
                let found = entries@.map_values(|e: ServiceEntry| e@);
                assert(aggregate(all, ignore_errs) == Ok::<Seq<EntryView>, ServiceError>(found));
                lemma_entries_are_well_formed(all, ignore_errs);
                assert forall|k: int| 0 <= k < entries@.len() implies (#[trigger] entries@[k])@
                    .well_formed() by {
                    assert(found[k] == entries@[k]@);
                    assert(aggregate(all, ignore_errs)->Ok_0[k].well_formed());
                }
            }
            if *read_failed {
                Err(ServiceError::ReadFailed)
            } else {
                Ok(entries)
            }
        },
    }
}

/// Parses the system's services database, as it was found at
/// [`services_path`].
pub fn parse_servicefile(source: &Source, ignore_errs: bool) -> (r: Result<
    Vec<ServiceEntry>,
    ServiceError,
>)
    ensures
        aggregate_view(r) == parse_source_spec(source@, ignore_errs),
        ignore_errs && source@.read_to_end() ==> r is Ok,
        r is Ok ==> forall|i: int|
            0 <= i < r->Ok_0@.len() ==> (#[trigger] r->Ok_0@[i])@.well_formed(),
{
    parse_file(source, ignore_errs)
}

/// An error among the first `n` lines is the error of the whole.
pub proof fn lemma_aggregate_stops(lines: Seq<Seq<char>>, n: int, ignore_errs: bool)
    requires
        0 <= n <= lines.len(),
        aggregate(lines.take(n), ignore_errs) is Err,
    ensures
        aggregate(lines, ignore_errs) == aggregate(lines.take(n), ignore_errs),
    decreases lines.len(),
{
    if n < lines.len() {
        assert(lines.drop_last().take(n) =~= lines.take(n));
        lemma_aggregate_stops(lines.drop_last(), n, ignore_errs);
    } else {
        assert(lines.take(n) =~= lines);
    }
}

/// Every entry that the lines give is well formed.
pub proof fn lemma_entries_are_well_formed(lines: Seq<Seq<char>>, ignore_errs: bool)
    ensures
        aggregate(lines, ignore_errs) is Ok ==> forall|i: int|
            0 <= i < aggregate(lines, ignore_errs)->Ok_0.len() ==> (#[trigger] aggregate(
                lines,
                ignore_errs,
            )->Ok_0[i]).well_formed(),
    decreases lines.len(),
{
    if lines.len() > 0 {
        let last = lines.last();
        lemma_entries_are_well_formed(lines.drop_last(), ignore_errs);
        if !is_skipped(last) {
            lemma_leading_ws_bounds(last);
            assert(!is_whitespace(significant(last)[0]));
            lemma_has_token(significant(last));
            lemma_parsed_entry_is_well_formed(significant(last));
        }
    }
}

/// A line on which the line parser is run and fails.
pub open spec fn is_malformed(line: Seq<char>) -> bool {
    !is_skipped(line) && parse_line_spec(significant(line)) is Err
}

/// A line on which the line parser is run and gives an entry.
pub open spec fn holds_entry(line: Seq<char>) -> bool {
    !is_skipped(line) && parse_line_spec(significant(line)) is Ok
}

/// The entry of a line that holds one.
pub open spec fn entry_of(line: Seq<char>) -> EntryView {
    parse_line_spec(significant(line))->Ok_0
}

/// The entries of the lines that hold one, in the order of the lines.
pub open spec fn entries_of(lines: Seq<Seq<char>>) -> Seq<EntryView> {
    lines.filter(|l: Seq<char>| holds_entry(l)).map_values(|l: Seq<char>| entry_of(l))
}

/// Where malformed lines are ignored, or where there is none, the lines
/// give the entries of exactly those that hold one, in their order.
pub proof fn lemma_aggregate_keeps_entries(lines: Seq<Seq<char>>, ignore_errs: bool)
    requires
        ignore_errs || forall|i: int| 0 <= i < lines.len() ==> !is_malformed(#[trigger] lines[i]),
    ensures
        aggregate(lines, ignore_errs) == Ok::<Seq<EntryView>, ServiceError>(entries_of(lines)),
    decreases lines.len(),
{
    reveal(Seq::filter);
    let holds = |l: Seq<char>| holds_entry(l);
    let entry = |l: Seq<char>| entry_of(l);
    if lines.len() == 0 {
        assert(lines.filter(holds).map_values(entry) =~= Seq::empty());
    } else {
        let before = lines.drop_last();
        let last = lines.last();
        assert forall|i: int| 0 <= i < before.len() implies before[i] == lines[i] by {}
        lemma_aggregate_keeps_entries(before, ignore_errs);
        if holds_entry(last) {
            assert(lines.filter(holds) == before.filter(holds).push(last));
            assert(before.filter(holds).push(last).map_values(entry) =~= before.filter(
                holds,
            ).map_values(entry).push(entry_of(last)));
        } else {
            assert(lines.filter(holds) == before.filter(holds));
            assert(!is_malformed(last) || ignore_errs);
        }
    }
}

/// A source made of comments and blank lines only has no entry and no
/// error, whether malformed lines are ignored or not.
pub proof fn lemma_comments_give_nothing(lines: Seq<Seq<char>>, ignore_errs: bool)
    requires
        forall|i: int| 0 <= i < lines.len() ==> is_skipped(#[trigger] lines[i]),
    ensures
        parse_source_spec(SourceView::Opened { lines, read_failed: false }, ignore_errs) == Ok::<
            Seq<EntryView>,
            ServiceError,
        >(Seq::empty()),
    decreases lines.len(),
{
    if lines.len() > 0 {
        let before = lines.drop_last();
        assert forall|i: int| 0 <= i < before.len() implies is_skipped(#[trigger] before[i]) by {
            assert(before[i] == lines[i]);
        }
        lemma_comments_give_nothing(before, ignore_errs);
    }
}

/// Where malformed lines are ignored, a source that was read to its end
/// gives the entries of exactly its well-formed lines, in their order.
pub proof fn lemma_ignoring_keeps_the_well_formed(lines: Seq<Seq<char>>)
    ensures
        parse_source_spec(SourceView::Opened { lines, read_failed: false }, true) == Ok::<
            Seq<EntryView>,
            ServiceError,
        >(entries_of(lines)),
{
    lemma_aggregate_keeps_entries(lines, true);
}

/// Where malformed lines are not ignored, the first of them ends the whole
/// with its own error, whatever came before it and whatever follows.
pub proof fn lemma_first_malformed_line_aborts(
    lines: Seq<Seq<char>>,
    read_failed: bool,
    first: int,
)
    requires
        0 <= first < lines.len(),
        is_malformed(lines[first]),
        forall|i: int| 0 <= i < first ==> !is_malformed(#[trigger] lines[i]),
    ensures
        parse_source_spec(SourceView::Opened { lines, read_failed }, false) == Err::<
            Seq<EntryView>,
            ServiceError,
        >(parse_line_spec(significant(lines[first]))->Err_0),
{
    let before = lines.take(first);
    let upto = lines.take(first + 1);
    assert forall|i: int| 0 <= i < before.len() implies !is_malformed(#[trigger] before[i]) by {
        assert(before[i] == lines[i]);
    }
    lemma_aggregate_keeps_entries(before, false);
    assert(upto.drop_last() =~= before);
    assert(upto.last() == lines[first]);
    lemma_aggregate_stops(lines, first + 1, false);
}

/// Two runs of the aggregator on one source under one policy give the same
/// entries in the same order, or the same error.
pub proof fn lemma_parsing_is_repeatable(
    source: Source,
    ignore_errs: bool,
    first: Result<Vec<ServiceEntry>, ServiceError>,
    second: Result<Vec<ServiceEntry>, ServiceError>,
)
    requires
        aggregate_view(first) == parse_source_spec(source@, ignore_errs),
        aggregate_view(second) == parse_source_spec(source@, ignore_errs),
    ensures
        aggregate_view(first) == aggregate_view(second),
        first is Ok <==> second is Ok,
        first is Ok ==> first->Ok_0@.len() == second->Ok_0@.len(),
        first is Ok ==> forall|i: int|
            0 <= i < first->Ok_0@.len() ==> (#[trigger] first->Ok_0@[i])@ == second->Ok_0@[i]@,
        first is Err ==> first->Err_0 == second->Err_0,
{
    if first is Ok {
        let a = first->Ok_0@.map_values(|e: ServiceEntry| e@);
        let b = second->Ok_0@.map_values(|e: ServiceEntry| e@);
        assert(a == b);
        assert(a.len() == b.len());
        assert forall|i: int| 0 <= i < first->Ok_0@.len() implies (#[trigger] first->Ok_0@[i])@
            == second->Ok_0@[i]@ by {
            assert(a[i] == b[i]);
        }
    }
}

} // verus!
