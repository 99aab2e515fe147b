use vstd::prelude::*;
use vstd::string::*;
use vstd::utf8::*;

use crate::error::{Field, ParseError};
use crate::escape::{decode_value, decoded};
use crate::table::{lemma_parse_all_fails_on, parse_all};
use crate::number::{number_in, parse_number};
use crate::text::{bytes_equal, bytes_of, split_lines, split_words, text_lines, words};

verus! {

/// A swap entry, which defines an active swap.
#[derive(Debug, Clone, Hash, PartialEq, Eq)]
pub struct SwapInfo {
    /// The path where the swap originates from, as raw bytes.
    pub source: Vec<u8>,
    /// The kind of swap, such as `partition` or `file`, as raw bytes.
    pub kind: Vec<u8>,
    /// The size of the swap area, in the units the kernel reports.
    pub size: usize,
    /// How much of the swap area is used, in the same units.
    pub used: usize,
    /// The priority of the swap area; negative where none was set.
    pub priority: isize,
}

/// What a swap entry holds.
pub struct SwapView {
    pub source: Seq<u8>,
    pub kind: Seq<u8>,
    pub size: usize,
    pub used: usize,
    pub priority: isize,
}

impl View for SwapInfo {
    type V = SwapView;

    open spec fn view(&self) -> SwapView {
        SwapView {
            source: self.source@,
            kind: self.kind@,
            size: self.size,
            used: self.used,
            priority: self.priority,
        }
    }
}

/// A list of parsed swap entries, in file order.
#[derive(Debug, Clone, Hash, PartialEq, Eq)]
pub struct SwapList(Vec<SwapInfo>);

impl View for SwapList {
    type V = Seq<SwapView>;

    closed spec fn view(&self) -> Seq<SwapView> {
        self.0@.map_values(|s: SwapInfo| s@)
    }
}

/// A decoded text field of a swap line.
pub open spec fn swap_text(b: Seq<u8>) -> Result<Seq<u8>, ParseError> {
    match decoded(b) {
        Ok(d) => Ok(d),
        Err(e) => Err(ParseError::MalformedEscape(e)),
    }
}

/// A numeric field of a swap line: decoded, read as UTF-8 text, then as a
/// number in `lo..=hi`.
pub open spec fn swap_number(b: Seq<u8>, field: Field, signed: bool, lo: int, hi: int) -> Result<
    int,
    ParseError,
> {
    match decoded(b) {
        Err(e) => Err(ParseError::MalformedEscape(e)),
        Ok(d) => if !valid_utf8(d) {
            Err(ParseError::NonTextData)
        } else {
            match number_in(d, signed, lo, hi) {
                Ok(v) => Ok(v),
                Err(e) => Err(ParseError::InvalidField(field, e)),
            }
        },
    }
}

pub open spec fn size_of(b: Seq<u8>, field: Field) -> Result<int, ParseError> {
    swap_number(b, field, false, 0, usize::MAX as int)
}

pub open spec fn priority_of(b: Seq<u8>) -> Result<int, ParseError> {
    swap_number(b, Field::Priority, true, isize::MIN as int, isize::MAX as int)
}

/// The entry that a swap line describes, or the first failure in it. The
/// line must hold exactly five fields: a shorter line lacks the first absent
/// field, a longer one has too many. Then the fields are read in order.
pub open spec fn swap_line(line: Seq<u8>) -> Result<SwapView, ParseError> {
    let f = words(line);
    if f.len() < 5 {
        Err(ParseError::MissingField(swap_field_after(f.len() as int)))
    } else if f.len() > 5 {
        Err(ParseError::TooManyFields(f.len() as usize))
    } else if swap_text(f[0]) is Err {
        Err(swap_text(f[0])->Err_0)
    } else if swap_text(f[1]) is Err {
        Err(swap_text(f[1])->Err_0)
    } else if size_of(f[2], Field::Size) is Err {
        Err(size_of(f[2], Field::Size)->Err_0)
    } else if size_of(f[3], Field::Used) is Err {
        Err(size_of(f[3], Field::Used)->Err_0)
    } else if priority_of(f[4]) is Err {
        Err(priority_of(f[4])->Err_0)
    } else {
        Ok(
            SwapView {
                source: swap_text(f[0])->Ok_0,
                kind: swap_text(f[1])->Ok_0,
                size: size_of(f[2], Field::Size)->Ok_0 as usize,
                used: size_of(f[3], Field::Used)->Ok_0 as usize,
                priority: priority_of(f[4])->Ok_0 as isize,
            },
        )
    }
}

/// The reading of one line, as a function.
pub open spec fn swap_parser() -> spec_fn(Seq<u8>) -> Result<SwapView, ParseError> {
    |l: Seq<u8>| swap_line(l)
}

/// The table that the lines describe, or the failure of the first line that
/// fails.
pub open spec fn swap_table(lines: Seq<Seq<u8>>) -> Result<Seq<SwapView>, ParseError> {
    parse_all(lines, swap_parser())
}

/// The lines of a swap table snapshot that hold entries: all but the
/// column header.
pub open spec fn entry_lines(text: Seq<u8>) -> Seq<Seq<u8>> {
    let l = text_lines(text);
    if l.len() == 0 {
        l
    } else {
        l.drop_first()
    }
}

/// Relies on `std::str::from_utf8`: it succeeds exactly on valid UTF-8.
#[verifier::external_body]
fn is_utf8(b: &[u8]) -> (r: bool)
    ensures
        r == valid_utf8(b@),
{
    std::str::from_utf8(b).is_ok()
}

fn missing_swap_field(n: usize) -> (r: Field)
    ensures
        r == swap_field_after(n as int),
{
    if n == 0 {
        Field::Source
    } else if n == 1 {
        Field::Kind
    } else if n == 2 {
        Field::Size
    } else if n == 3 {
        Field::Used
    } else {
        Field::Priority
    }
}

fn text_field(part: &str) -> (r: Result<Vec<u8>, ParseError>)
    ensures
        match r {
            Ok(v) => swap_text(part.spec_bytes()) == Ok::<Seq<u8>, ParseError>(v@),
            Err(e) => swap_text(part.spec_bytes()) == Err::<Seq<u8>, ParseError>(e),
        },
{
    match decode_value(part.as_bytes()) {
        Ok(v) => Ok(v),
        Err(e) => Err(ParseError::MalformedEscape(e)),
    }
}

fn number_field(part: &str, field: Field, signed: bool, lo: i128, hi: i128) -> (r: Result<
    i128,
    ParseError,
>)
    requires
        lo <= 0 <= hi,
        hi < crate::number::LIMIT,
        -lo < crate::number::LIMIT,
    ensures
        match r {
            Ok(v) => swap_number(part.spec_bytes(), field, signed, lo as int, hi as int) == Ok::<
                int,
                ParseError,
            >(v as int),
            Err(e) => swap_number(part.spec_bytes(), field, signed, lo as int, hi as int) == Err::<
                int,
                ParseError,
            >(e),
        },
{
    let d = match decode_value(part.as_bytes()) {
        Ok(v) => v,
        Err(e) => {
            return Err(ParseError::MalformedEscape(e));
        },
    };
    if !is_utf8(d.as_slice()) {
        return Err(ParseError::NonTextData);
    }
    match parse_number(d.as_slice(), signed, lo, hi) {
        Ok(v) => Ok(v),
        Err(e) => Err(ParseError::InvalidField(field, e)),
    }
}

impl SwapList {
    fn parse_line(line: &str) -> (r: Result<SwapInfo, ParseError>)
        ensures
            match r {
                Ok(s) => swap_line(line.spec_bytes()) == Ok::<SwapView, ParseError>(s@),
                Err(e) => swap_line(line.spec_bytes()) == Err::<SwapView, ParseError>(e),
            },
    {
        let parts = split_words(line);
        let ghost f = words(line.spec_bytes());
        proof {
            assert(f.len() == parts@.len());
            assert(forall|i: int| 0 <= i < f.len() ==> f[i] == #[trigger] parts@[i].spec_bytes());
        }
        if parts.len() < 5 {
            return Err(ParseError::MissingField(missing_swap_field(parts.len())));
        }
        if parts.len() > 5 {
            return Err(ParseError::TooManyFields(parts.len()));
        }
        let source = text_field(parts[0])?;
        let kind = text_field(parts[1])?;
        let size = number_field(parts[2], Field::Size, false, 0, usize::MAX as i128)?;
        let used = number_field(parts[3], Field::Used, false, 0, usize::MAX as i128)?;
        let priority = number_field(
            parts[4],
            Field::Priority,
            true,
            isize::MIN as i128,
            isize::MAX as i128,
        )?;
        Ok(SwapInfo {
            source,
            kind,
            size: size as usize,
            used: used as usize,
            priority: priority as isize,
        })
    }
}

impl SwapList {
    /// Parse swaps given from a sequence of entry lines, with no header
    /// line among them. The first line that fails aborts the whole table.
    pub fn parse_from(lines: &[&str]) -> (r: Result<SwapList, ParseError>)
        ensures
            match r {
                Ok(t) => swap_table(bytes_of(lines@)) == Ok::<Seq<SwapView>, ParseError>(t@),
                Err(e) => swap_table(bytes_of(lines@)) == Err::<Seq<SwapView>, ParseError>(e),
            },
    {
        let mut out: Vec<SwapInfo> = Vec::new();
        let mut i: usize = 0;
        proof {
            assert(bytes_of(lines@.take(0)) =~= Seq::<Seq<u8>>::empty());
            assert(out@.map_values(|s: SwapInfo| s@) =~= Seq::<SwapView>::empty());
        }
        while i < lines.len()
            invariant
                i <= lines@.len(),
                swap_table(bytes_of(lines@.take(i as int))) == Ok::<Seq<SwapView>, ParseError>(
                    out@.map_values(|s: SwapInfo| s@),
                ),
            decreases lines@.len() - i,
        {
            let ghost before = out@;
            let line: &str = lines[i];
            proof {
                let pre = bytes_of(lines@.take(i as int + 1));
                assert(pre.drop_last() =~= bytes_of(lines@.take(i as int)));
                assert(pre.last() == line.spec_bytes());
            }
            match Self::parse_line(line) {
                Ok(s) => {
                    out.push(s);
                    proof {
                        assert(out@.map_values(|s: SwapInfo| s@) =~= before.map_values(
                            |s: SwapInfo| s@,
                        ).push(s@));
                    }
                },
                Err(e) => {
                    proof {
                        assert(bytes_of(lines@.take(i as int + 1)) =~= bytes_of(lines@).take(
                            i as int + 1,
                        ));
                        lemma_parse_all_fails_on(bytes_of(lines@), swap_parser(), i as int + 1);
                    }
                    return Err(e);
                },
            }
            i = i + 1;
        }
        assert(lines@.take(i as int) =~= lines@);
        let r = SwapList(out);
        assert(r@ == out@.map_values(|s: SwapInfo| s@));
        Ok(r)
    }

    /// Parse a whole snapshot of the swap table: its first line is the
    /// column header and is skipped, each other line is an entry.
    pub fn new(text: &str) -> (r: Result<SwapList, ParseError>)
        ensures
            match r {
                Ok(t) => swap_table(entry_lines(text.spec_bytes())) == Ok::<
                    Seq<SwapView>,
                    ParseError,
                >(t@),
                Err(e) => swap_table(entry_lines(text.spec_bytes())) == Err::<
                    Seq<SwapView>,
                    ParseError,
                >(e),
            },
    {
        let mut lines = split_lines(text);
        if lines.len() > 0 {
            let ghost all = lines@;
            let _header = lines.remove(0);
            assert(bytes_of(lines@) =~= bytes_of(all).drop_first());
        }
        Self::parse_from(lines.as_slice())
    }

    /// The entries, in file order.
    pub fn entries(&self) -> (r: &[SwapInfo])
        ensures
            r@.map_values(|s: SwapInfo| s@) == self@,
    {
        self.0.as_slice()
    }

    /// Returns true if the given path is the source of an entry in the swap
    /// list.
    pub fn get_swapped(&self, path: &[u8]) -> (r: bool)
        ensures
            r == exists|i: int| 0 <= i < self@.len() && #[trigger] self@[i].source == path@,
    {
        let mut i: usize = 0;
        while i < self.0.len()
            invariant
                i <= self@.len(),
                self@.len() == self.0@.len(),
                forall|j: int| 0 <= j < i ==> #[trigger] self@[j].source != path@,
            decreases self.0@.len() - i,
        {
            assert(self@[i as int] == self.0@[i as int]@);
            if bytes_equal(self.0[i].source.as_slice(), path) {
                assert(self@[i as int].source == path@);
                return true;
            }
            i = i + 1;
        }
        false
    }
}

/// The field that a swap line lacks when it has `n` fields.
pub open spec fn swap_field_after(n: int) -> Field {
    if n <= 0 {
        Field::Source
    } else if n == 1 {
        Field::Kind
    } else if n == 2 {
        Field::Size
    } else if n == 3 {
        Field::Used
    } else {
        Field::Priority
    }
}

/// A swap line with fewer than five whitespace-separated fields fails with
/// the first absent field.
pub proof fn lemma_short_swap_line_misses_field(line: Seq<u8>)
    requires
        words(line).len() < 5,
    ensures
        swap_line(line) == Err::<SwapView, ParseError>(
            ParseError::MissingField(swap_field_after(words(line).len() as int)),
        ),
{
}

/// Parsing the same lines twice gives equal tables, or the same error.
pub proof fn lemma_swap_parse_deterministic(
    lines: Seq<Seq<u8>>,
    a: Result<SwapList, ParseError>,
    b: Result<SwapList, ParseError>,
)
    requires
        match a {
            Ok(t) => swap_table(lines) == Ok::<Seq<SwapView>, ParseError>(t@),
            Err(e) => swap_table(lines) == Err::<Seq<SwapView>, ParseError>(e),
        },
        match b {
            Ok(t) => swap_table(lines) == Ok::<Seq<SwapView>, ParseError>(t@),
            Err(e) => swap_table(lines) == Err::<Seq<SwapView>, ParseError>(e),
        },
    ensures
        a is Ok <==> b is Ok,
        a is Ok ==> a->Ok_0@ == b->Ok_0@,
        a is Err ==> a->Err_0 == b->Err_0,
{
}

} // verus!
