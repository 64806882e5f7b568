//! What a front end shows: the names of documents without the markers of
//! their table names, and the lines that list an answer.

use crate::text::{decimal, replace_all, replaced, string_views, to_decimal};
use vstd::prelude::*;

verus! {

/// The name under which a document is shown: its table name without the
/// marker of the content directory and without the marker of the extension
/// `txt`.
pub open spec fn shown_name(name: Seq<char>) -> Seq<char> {
    replaced(replaced(name, "_DOT__IN_content_IN_"@, ""@), "_DOT_txt"@, ""@)
}

/// The line that lists the document at place `i` of an answer, counted from
/// zero: its number, counted from one, and its name as it is shown.
pub open spec fn result_line(i: nat, name: Seq<char>) -> Seq<char> {
    "   "@ + decimal(i + 1) + ". "@ + shown_name(name)
}

/// The lines that list an answer: how many documents were found, a heading,
/// and one line for each document.
pub open spec fn result_lines(names: Seq<Seq<char>>) -> Seq<Seq<char>> {
    seq!["INFO: number of results: "@ + decimal(names.len()), "RESULT: "@] + Seq::new(
        names.len(),
        |i: int| result_line(i as nat, names[i]),
    )
}

/// The name under which a document is shown.
pub fn display_name(name: &str) -> (shown: String)
    ensures
        shown@ == shown_name(name@),
{
    let inner = replace_all(name, "_DOT__IN_content_IN_", "");
    replace_all(inner.as_str(), "_DOT_txt", "")
}

/// The lines that list an answer.
pub fn format_results(names: &Vec<String>) -> (lines: Vec<String>)
    ensures
        string_views(lines@) == result_lines(string_views(names@)),
{
    let ghost all = string_views(names@);
    let mut lines: Vec<String> = Vec::new();
    let mut head = String::new();
    head.append("INFO: number of results: ");
    head.append(to_decimal(names.len() as u64).as_str());
    lines.push(head);
    let mut heading = String::new();
    heading.append("RESULT: ");
    lines.push(heading);
    let ghost top = seq!["INFO: number of results: "@ + decimal(all.len()), "RESULT: "@];
    let ghost listing = Seq::new(all.len(), |i: int| result_line(i as nat, all[i]));
    let mut k: usize = 0;
    proof {
        assert(string_views(lines@) =~= top + listing.take(0));
    }
    while k < names.len()
        invariant
            k <= names.len(),
            all == string_views(names@),
            top == seq!["INFO: number of results: "@ + decimal(all.len()), "RESULT: "@],
            listing == Seq::new(all.len(), |i: int| result_line(i as nat, all[i])),
            string_views(lines@) == top + listing.take(k as int),
        decreases names.len() - k,
    {
        let ghost before = string_views(lines@);
        let mut line = String::new();
        line.append("   ");
        line.append(to_decimal((k + 1) as u64).as_str());
        line.append(". ");
        line.append(display_name(names[k].as_str()).as_str());
        proof {
            assert(line@ =~= result_line(k as nat, names@[k as int]@));
        }
        lines.push(line);
        proof {
            assert(string_views(lines@) =~= before.push(listing[k as int]));
            assert(string_views(lines@) =~= top + listing.take(k + 1));
        }
        k = k + 1;
    }
    proof {
        assert(listing.take(names.len() as int) =~= listing);
    }
    lines
}

} // verus!
