use vstd::prelude::*;

use crate::error::ParseError;

verus! {

/// The entries that the lines describe, each read by `line`, or the failure
/// of the first line that fails.
pub open spec fn parse_all<V>(
    lines: Seq<Seq<u8>>,
    line: spec_fn(Seq<u8>) -> Result<V, ParseError>,
) -> Result<Seq<V>, ParseError>
    decreases lines.len(),
{
    if lines.len() == 0 {
        Ok(Seq::empty())
    } else {
        match parse_all(lines.drop_last(), line) {
            Err(e) => Err(e),
            Ok(t) => match line(lines.last()) {
                Ok(v) => Ok(t.push(v)),
                Err(e) => Err(e),
            },
        }
    }
}

/// A failure in the first `k` lines is the failure of the whole table.
pub proof fn lemma_parse_all_fails_on<V>(
    lines: Seq<Seq<u8>>,
    line: spec_fn(Seq<u8>) -> Result<V, ParseError>,
    k: int,
)
    requires
        0 <= k <= lines.len(),
        parse_all(lines.take(k), line) is Err,
    ensures
        parse_all(lines, line) == parse_all(lines.take(k), line),
    decreases lines.len() - k,
{
    if k < lines.len() {
        let next = lines.take(k + 1);
        assert(next.drop_last() =~= lines.take(k));
        lemma_parse_all_fails_on(lines, line, k + 1);
    } else {
        assert(lines.take(k) =~= lines);
    }
}

} // verus!
