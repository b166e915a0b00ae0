//! The list of networks that an address registry publishes.
use crate::net::{ipnet_parse, parse_ipnet, IpNet};
use crate::text::{
    chars_of, keep_somes, lines, lines_of, somes, string_of, string_views, trim, trimmed,
};
use vstd::prelude::*;

verus! {

/// How often the list is asked for.
pub const ASN_MAX_RETRIES: usize = 3;

/// The pause between two attempts.
pub const ASN_RETRY_DELAY_SECS: u64 = 2;

/// Whether a line, without the space round it, holds an entry: it is neither
/// empty nor a comment.
pub open spec fn is_entry(line: Seq<char>) -> bool {
    line.len() > 0 && line[0] != '#'
}

/// The entries of a list, without the space round them.
pub open spec fn entries_of(text: Seq<char>) -> Seq<Seq<char>> {
    lines_of(text).map_values(|l: Seq<char>| trimmed(l)).filter(|l: Seq<char>| is_entry(l))
}

/// Reads the entries of a list: each line that is not empty and does not start
/// with `#`, without the space round it.
pub fn cidr_entries(text: &str) -> (entries: Vec<String>)
    ensures
        string_views(entries@) == entries_of(text@),
{
    let all: Vec<Vec<char>> = lines(&chars_of(text));
    let ghost trimmed_lines: Seq<Seq<char>> = lines_of(text@).map_values(
        |l: Seq<char>| trimmed(l),
    );
    let mut entries: Vec<String> = Vec::new();
    let mut i: usize = 0;
    assert(string_views(entries@) =~= trimmed_lines.take(0).filter(|l: Seq<char>| is_entry(l))) by {
        reveal(Seq::filter);
    }
    while i < all.len()
        invariant
            i <= all@.len(),
            crate::text::views(all@) == lines_of(text@),
            trimmed_lines == lines_of(text@).map_values(|l: Seq<char>| trimmed(l)),
            string_views(entries@) == trimmed_lines.take(i as int).filter(
                |l: Seq<char>| is_entry(l),
            ),
        decreases all@.len() - i,
    {
        let line: Vec<char> = trim(&all[i]);
        assert(lines_of(text@)[i as int] == all@[i as int]@);
        assert(trimmed_lines[i as int] == line@);
        proof {
            let taken = trimmed_lines.take(i + 1);
            assert(taken.drop_last() =~= trimmed_lines.take(i as int));
            reveal(Seq::filter);
        }
        if line.len() > 0 && line[0] != '#' {
            let entry: String = string_of(&line);
            let ghost before: Seq<String> = entries@;
            entries.push(entry);
            assert(string_views(entries@) =~= string_views(before).push(line@));
        }
        i = i + 1;
    }
    assert(trimmed_lines.take(i as int) =~= trimmed_lines);
    entries
}

/// Keeps the entries that could be read as networks.
pub fn keep_networks(parsed: &Vec<Option<IpNet>>) -> (nets: Vec<IpNet>)
    ensures
        nets@ == somes(parsed@),
{
    keep_somes(parsed)
}

/// What the entries of a list are read as.
pub open spec fn parsed_entries(text: Seq<char>) -> Seq<Option<IpNet>> {
    entries_of(text).map_values(|l: Seq<char>| ipnet_parse(l))
}

/// Reads a list of networks, one a line. Empty lines, comments and lines that
/// are no network are passed over.
pub fn parse_cidr_list(text: &str) -> (nets: Vec<IpNet>)
    ensures
        nets@ == somes(parsed_entries(text@)),
        forall|i: int| 0 <= i < nets@.len() ==> (#[trigger] nets@[i]).wf(),
{
    let entries: Vec<String> = cidr_entries(text);
    let mut parsed: Vec<Option<IpNet>> = Vec::new();
    let mut i: usize = 0;
    while i < entries.len()
        invariant
            i <= entries@.len(),
            string_views(entries@) == entries_of(text@),
            parsed@ =~= parsed_entries(text@).take(i as int),
            forall|j: int| 0 <= j < parsed@.len() ==> wf_if_there(#[trigger] parsed@[j]),
        decreases entries@.len() - i,
    {
        assert(entries_of(text@)[i as int] == entries@[i as int]@);
        parsed.push(parse_ipnet(entries[i].as_str()));
        i = i + 1;
    }
    assert(parsed@ =~= parsed_entries(text@));
    proof {
        lemma_somes_wf(parsed@);
    }
    keep_networks(&parsed)
}

spec fn wf_if_there(net: Option<IpNet>) -> bool {
    match net {
        Some(net) => net.wf(),
        None => true,
    }
}

proof fn lemma_somes_wf(parsed: Seq<Option<IpNet>>)
    requires
        forall|j: int| 0 <= j < parsed.len() ==> wf_if_there(#[trigger] parsed[j]),
    ensures
        forall|i: int| 0 <= i < somes(parsed).len() ==> (#[trigger] somes(parsed)[i]).wf(),
    decreases parsed.len(),
{
    if parsed.len() > 0 {
        let init = parsed.drop_last();
        assert forall|j: int| 0 <= j < init.len() implies wf_if_there(#[trigger] init[j]) by {
            assert(init[j] == parsed[j]);
        }
        lemma_somes_wf(init);
        assert(wf_if_there(parsed[parsed.len() - 1]));
        assert forall|i: int| 0 <= i < somes(parsed).len() implies (#[trigger] somes(
            parsed,
        )[i]).wf() by {
            if i < somes(init).len() {
                assert(somes(init)[i].wf());
            }
        }
    }
}

/// What to do after an attempt to get the list.
#[derive(Debug)]
pub enum FetchStep {
    /// The list is there.
    Done(Vec<IpNet>),
    /// Wait, then try again.
    Retry { delay_secs: u64 },
    /// Give up with the error of this attempt.
    GiveUp,
}

/// The pause after an attempt that failed; none where it was the last.
pub open spec fn pause_after(attempt: usize) -> Option<u64> {
    if attempt < ASN_MAX_RETRIES {
        Some(ASN_RETRY_DELAY_SECS)
    } else {
        None
    }
}

/// Decides what to do after an attempt, counted from one. `fetched` is the text
/// that came, or nothing where the attempt failed.
pub fn after_attempt(attempt: usize, fetched: Option<&str>) -> (step: FetchStep)
    ensures
        match fetched {
            Some(text) => step matches FetchStep::Done(nets) && nets@ == somes(
                parsed_entries(text@),
            ) && (forall|i: int| 0 <= i < nets@.len() ==> (#[trigger] nets@[i]).wf()),
            None => match pause_after(attempt) {
                Some(delay_secs) => step == (FetchStep::Retry { delay_secs }),
                None => step is GiveUp,
            },
        },
{
    match fetched {
        Some(text) => FetchStep::Done(parse_cidr_list(text)),
        None => if attempt < ASN_MAX_RETRIES {
            FetchStep::Retry { delay_secs: ASN_RETRY_DELAY_SECS }
        } else {
            FetchStep::GiveUp
        },
    }
}

/// Whether `places` are those of the lines that hold an entry, in ascending
/// order: with the space round it gone, such a line is not empty and does not
/// start with a hash.
pub open spec fn are_entry_places(places: Seq<int>, lines: Seq<Seq<char>>) -> bool {
    &&& forall|i: int| 0 <= i < places.len() ==> 0 <= #[trigger] places[i] < lines.len()
    &&& forall|i: int, j: int|
        0 <= i < j < places.len() ==> #[trigger] places[i] < #[trigger] places[j]
    &&& forall|p: int|
        0 <= p < lines.len() ==> (places.contains(p) <==> trimmed(#[trigger] lines[p]).len() > 0
            && trimmed(lines[p])[0] != '#')
}

/// The entries are the lines that are neither empty nor comments, without the
/// space round them and in order.
pub proof fn entries_are_the_other_lines(text: Seq<char>)
    ensures
        exists|places: Seq<int>| #[trigger]
            are_entry_places(places, lines_of(text)) && entries_of(text) == places.map_values(
                |p: int| trimmed(lines_of(text)[p]),
            ),
{
    lemma_entry_places(lines_of(text));
}

/// What is left of lines when those without an entry go.
proof fn lemma_entry_places(lines: Seq<Seq<char>>)
    ensures
        exists|places: Seq<int>| #[trigger]
            are_entry_places(places, lines) && lines.map_values(
                |l: Seq<char>| trimmed(l),
            ).filter(|l: Seq<char>| is_entry(l)) == places.map_values(|p: int| trimmed(lines[p])),
    decreases lines.len(),
{
    let pred = |l: Seq<char>| is_entry(l);
    let cut = |l: Seq<char>| trimmed(l);
    reveal(Seq::filter);
    if lines.len() == 0 {
        let places: Seq<int> = Seq::empty();
        assert(are_entry_places(places, lines));
        assert(lines.map_values(cut).filter(pred) =~= places.map_values(
            |p: int| trimmed(lines[p]),
        ));
    } else {
        let before: Seq<Seq<char>> = lines.drop_last();
        lemma_entry_places(before);
        let earlier = choose|places: Seq<int>| #[trigger]
            are_entry_places(places, before) && before.map_values(cut).filter(pred)
                == places.map_values(|p: int| trimmed(before[p]));
        let last: int = lines.len() - 1;
        let places: Seq<int> = if is_entry(trimmed(lines.last())) {
            earlier.push(last)
        } else {
            earlier
        };
        assert(lines.map_values(cut).drop_last() =~= before.map_values(cut));
        assert forall|p: int| 0 <= p < lines.len() implies (places.contains(p) <==> trimmed(
            #[trigger] lines[p],
        ).len() > 0 && trimmed(lines[p])[0] != '#') by {
            if p < last {
                assert(before[p] == lines[p]);
                if earlier.contains(p) {
                    let i = choose|i: int| 0 <= i < earlier.len() && earlier[i] == p;
                    assert(places[i] == p);
                }
                if places.contains(p) {
                    let i = choose|i: int| 0 <= i < places.len() && places[i] == p;
                    assert(earlier[i] == p);
                }
            } else if is_entry(trimmed(lines.last())) {
                assert(places[places.len() - 1] == p);
            } else if places.contains(p) {
                let i = choose|i: int| 0 <= i < places.len() && places[i] == p;
                assert(earlier[i] < before.len());
            }
        }
        assert(are_entry_places(places, lines));
        assert(lines.map_values(cut).filter(pred) =~= places.map_values(
            |p: int| trimmed(lines[p]),
        ));
    }
}

/// The list is asked for three times at most, with two seconds between.
pub proof fn attempts_are_three(attempt: usize)
    ensures
        attempt < 3 ==> pause_after(attempt) == Some(2u64),
        attempt >= 3 ==> pause_after(attempt) is None,
{
}

} // verus!
