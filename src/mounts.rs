use vstd::prelude::*;
use vstd::string::*;
use vstd::utf8::*;

use crate::error::{Field, ParseError};
use crate::escape::{decode_value, decoded};
use crate::table::{lemma_parse_all_fails_on, parse_all};
use crate::number::{number_in, parse_number};
use crate::text::{
    bytes_equal, bytes_of, has_prefix, split_by, split_fields, split_lines, starts_with_bytes,
    text_lines, Delim,
};

verus! {

broadcast use {vstd::utf8::encode_utf8_valid_utf8, vstd::utf8::encode_utf8_decode_utf8};

/// A mount entry which contains information regarding how and where a device
/// is mounted.
#[derive(Debug, Clone, Hash, PartialEq, Eq)]
pub struct MountInfo {
    /// The device which is mounted, as raw bytes.
    pub source: Vec<u8>,
    /// Where the device is mounted, as raw bytes.
    pub dest: Vec<u8>,
    /// The type of the mounted file system.
    pub fstype: String,
    /// Options specified for this file system, in file order.
    pub options: Vec<String>,
    /// Defines if the file system should be dumped.
    pub dump: i32,
    /// Defines if the file system should be checked, and in what order.
    pub pass: i32,
}

/// What a mount entry holds.
pub struct MountView {
    pub source: Seq<u8>,
    pub dest: Seq<u8>,
    pub fstype: Seq<char>,
    pub options: Seq<Seq<char>>,
    pub dump: i32,
    pub pass: i32,
}

impl View for MountInfo {
    type V = MountView;

    open spec fn view(&self) -> MountView {
        MountView {
            source: self.source@,
            dest: self.dest@,
            fstype: self.fstype@,
            options: self.options@.map_values(|o: String| o@),
            dump: self.dump,
            pass: self.pass,
        }
    }
}

/// A list of parsed mount entries, in file order.
#[derive(Debug, Clone, Hash, PartialEq, Eq)]
pub struct MountList(Vec<MountInfo>);

impl View for MountList {
    type V = Seq<MountView>;

    closed spec fn view(&self) -> Seq<MountView> {
        self.0@.map_values(|m: MountInfo| m@)
    }
}

/// The field of a mount entry that a query looks at.
#[derive(Debug, Clone, Copy, PartialEq, Eq, Structural)]
pub enum MountKey {
    Source,
    Dest,
}

pub open spec fn key_of(m: MountView, k: MountKey) -> Seq<u8> {
    match k {
        MountKey::Source => m.source,
        MountKey::Dest => m.dest,
    }
}

/// The entry that a mount line describes, or the first failure in it. The
/// line is split at each single space and must give exactly six fields: a
/// shorter line lacks the first absent field, a longer one has too many.
/// Then the numbers are checked, then the escapes of the source and of the
/// destination.
pub open spec fn mount_line(line: Seq<u8>) -> Result<MountView, ParseError> {
    let f = split_by(line, Delim::Space);
    if f.len() < 6 {
        Err(ParseError::MissingField(mount_field_after(f.len() as int)))
    } else if f.len() > 6 {
        Err(ParseError::TooManyFields(f.len() as usize))
    } else if number_in(f[4], true, i32::MIN as int, i32::MAX as int) is Err {
        Err(
            ParseError::InvalidField(
                Field::Dump,
                number_in(f[4], true, i32::MIN as int, i32::MAX as int)->Err_0,
            ),
        )
    } else if number_in(f[5], true, i32::MIN as int, i32::MAX as int) is Err {
        Err(
            ParseError::InvalidField(
                Field::Pass,
                number_in(f[5], true, i32::MIN as int, i32::MAX as int)->Err_0,
            ),
        )
    } else if decoded(f[0]) is Err {
        Err(ParseError::MalformedEscape(decoded(f[0])->Err_0))
    } else if decoded(f[1]) is Err {
        Err(ParseError::MalformedEscape(decoded(f[1])->Err_0))
    } else {
        Ok(
            MountView {
                source: decoded(f[0])->Ok_0,
                dest: decoded(f[1])->Ok_0,
                fstype: decode_utf8(f[2]),
                options: split_by(f[3], Delim::Comma).map_values(|o: Seq<u8>| decode_utf8(o)),
                dump: number_in(f[4], true, i32::MIN as int, i32::MAX as int)->Ok_0 as i32,
                pass: number_in(f[5], true, i32::MIN as int, i32::MAX as int)->Ok_0 as i32,
            },
        )
    }
}

/// The reading of one line, as a function.
pub open spec fn mount_parser() -> spec_fn(Seq<u8>) -> Result<MountView, ParseError> {
    |l: Seq<u8>| mount_line(l)
}

/// The table that the lines describe, or the failure of the first line that
/// fails.
pub open spec fn mount_table(lines: Seq<Seq<u8>>) -> Result<Seq<MountView>, ParseError> {
    parse_all(lines, mount_parser())
}

/// Owned copies of the pieces, in order.
fn owned_strings(pieces: &Vec<&str>) -> (r: Vec<String>)
    ensures
        r@.map_values(|o: String| o@) == bytes_of(pieces@).map_values(|o: Seq<u8>| decode_utf8(o)),
{
    let mut out: Vec<String> = Vec::new();
    let mut i: usize = 0;
    while i < pieces.len()
        invariant
            i <= pieces@.len(),
            out@.map_values(|o: String| o@) == bytes_of(pieces@.take(i as int)).map_values(
                |o: Seq<u8>| decode_utf8(o),
            ),
        decreases pieces@.len() - i,
    {
        let ghost before = out@;
        let p: &str = pieces[i];
        out.push(p.to_owned());
        proof {
            assert(pieces@.take(i as int + 1) =~= pieces@.take(i as int).push(p));
            assert(out@.map_values(|o: String| o@) =~= before.map_values(|o: String| o@).push(
                p@,
            ));
            assert(bytes_of(pieces@.take(i as int + 1)).map_values(|o: Seq<u8>| decode_utf8(o))
                =~= bytes_of(pieces@.take(i as int)).map_values(|o: Seq<u8>| decode_utf8(o)).push(
                decode_utf8(p.spec_bytes()),
            ));
        }
        i = i + 1;
    }
    assert(pieces@.take(i as int) =~= pieces@);
    out
}

fn missing_mount_field(n: usize) -> (r: Field)
    ensures
        r == mount_field_after(n as int),
{
    if n <= 1 {
        Field::Dest
    } else if n == 2 {
        Field::FsType
    } else if n == 3 {
        Field::Options
    } else if n == 4 {
        Field::Dump
    } else {
        Field::Pass
    }
}

fn parse_i32(s: &str) -> (r: Result<i32, crate::error::NumberError>)
    ensures
        match r {
            Ok(v) => number_in(s.spec_bytes(), true, i32::MIN as int, i32::MAX as int) == Ok::<
                int,
                crate::error::NumberError,
            >(v as int),
            Err(e) => number_in(s.spec_bytes(), true, i32::MIN as int, i32::MAX as int) == Err::<
                int,
                crate::error::NumberError,
            >(e),
        },
{
    match parse_number(s.as_bytes(), true, i32::MIN as i128, i32::MAX as i128) {
        Ok(v) => Ok(v as i32),
        Err(e) => Err(e),
    }
}

impl MountList {
    fn parse_line(line: &str) -> (r: Result<MountInfo, ParseError>)
        ensures
            match r {
                Ok(m) => mount_line(line.spec_bytes()) == Ok::<MountView, ParseError>(m@),
                Err(e) => mount_line(line.spec_bytes()) == Err::<MountView, ParseError>(e),
            },
    {
        let parts = split_fields(line, Delim::Space);
        let ghost f = split_by(line.spec_bytes(), Delim::Space);
        proof {
            assert(f.len() == parts@.len());
            assert(forall|i: int| 0 <= i < f.len() ==> f[i] == #[trigger] parts@[i].spec_bytes());
        }
        if parts.len() < 6 {
            return Err(ParseError::MissingField(missing_mount_field(parts.len())));
        }
        if parts.len() > 6 {
            return Err(ParseError::TooManyFields(parts.len()));
        }
        let dump = match parse_i32(parts[4]) {
            Ok(v) => v,
            Err(e) => {
                return Err(ParseError::InvalidField(Field::Dump, e));
            },
        };
        let pass = match parse_i32(parts[5]) {
            Ok(v) => v,
            Err(e) => {
                return Err(ParseError::InvalidField(Field::Pass, e));
            },
        };
        let source = match decode_value(parts[0].as_bytes()) {
            Ok(v) => v,
            Err(e) => {
                return Err(ParseError::MalformedEscape(e));
            },
        };
        let dest = match decode_value(parts[1].as_bytes()) {
            Ok(v) => v,
            Err(e) => {
                return Err(ParseError::MalformedEscape(e));
            },
        };
        let option_parts = split_fields(parts[3], Delim::Comma);
        let options = owned_strings(&option_parts);
        let fstype = parts[2].to_owned();
        let m = MountInfo { source, dest, fstype, options, dump, pass };
        proof {
            assert(decode_utf8(f[2]) == fstype@);
            assert(m@.options == mount_line(line.spec_bytes())->Ok_0.options);
            assert(m@ == mount_line(line.spec_bytes())->Ok_0);
        }
        Ok(m)
    }

    /// Parse mounts given from a sequence of mount entry lines. The first
    /// line that fails aborts the whole table.
    pub fn parse_from(lines: &[&str]) -> (r: Result<MountList, ParseError>)
        ensures
            match r {
                Ok(t) => mount_table(bytes_of(lines@)) == Ok::<Seq<MountView>, ParseError>(t@),
                Err(e) => mount_table(bytes_of(lines@)) == Err::<Seq<MountView>, ParseError>(e),
            },
    {
        let mut out: Vec<MountInfo> = Vec::new();
        let mut i: usize = 0;
        proof {
            assert(bytes_of(lines@.take(0)) =~= Seq::<Seq<u8>>::empty());
            assert(out@.map_values(|m: MountInfo| m@) =~= Seq::<MountView>::empty());
        }
        while i < lines.len()
            invariant
                i <= lines@.len(),
                mount_table(bytes_of(lines@.take(i as int))) == Ok::<Seq<MountView>, ParseError>(
                    out@.map_values(|m: MountInfo| m@),
                ),
            decreases lines@.len() - i,
        {
            let ghost before = out@;
            let line: &str = lines[i];
            proof {
                let pre = bytes_of(lines@.take(i as int + 1));
                assert(pre.drop_last() =~= bytes_of(lines@.take(i as int)));
                assert(pre.last() == line.spec_bytes());
            }
            match Self::parse_line(line) {
                Ok(m) => {
                    out.push(m);
                    proof {
                        assert(out@.map_values(|m: MountInfo| m@) =~= before.map_values(
                            |m: MountInfo| m@,
                        ).push(m@));
                    }
                },
                Err(e) => {
                    proof {
                        assert(bytes_of(lines@.take(i as int + 1)) =~= bytes_of(lines@).take(
                            i as int + 1,
                        ));
                        lemma_parse_all_fails_on(bytes_of(lines@), mount_parser(), i as int + 1);
                    }
                    return Err(e);
                },
            }
            i = i + 1;
        }
        assert(lines@.take(i as int) =~= lines@);
        let r = MountList(out);
        assert(r@ == out@.map_values(|m: MountInfo| m@));
        Ok(r)
    }

    /// Parse a whole snapshot of the mount table, one entry per line.
    pub fn new(text: &str) -> (r: Result<MountList, ParseError>)
        ensures
            match r {
                Ok(t) => mount_table(text_lines(text.spec_bytes())) == Ok::<
                    Seq<MountView>,
                    ParseError,
                >(t@),
                Err(e) => mount_table(text_lines(text.spec_bytes())) == Err::<
                    Seq<MountView>,
                    ParseError,
                >(e),
            },
    {
        let lines = split_lines(text);
        Self::parse_from(lines.as_slice())
    }
}

impl MountList {
    /// The entries, in file order.
    pub fn entries(&self) -> (r: &[MountInfo])
        ensures
            r@.map_values(|m: MountInfo| m@) == self@,
    {
        self.0.as_slice()
    }

    fn find_first(&self, path: &[u8], k: MountKey) -> (r: Option<&MountInfo>)
        ensures
            r is None <==> forall|i: int| 0 <= i < self@.len() ==> key_of(#[trigger] self@[i], k) != path@,
            r matches Some(m) ==> is_first_with(self@, k, path@, m@),
    {
        let mut i: usize = 0;
        while i < self.0.len()
            invariant
                i <= self@.len(),
                self@.len() == self.0@.len(),
                forall|j: int| 0 <= j < i ==> key_of(#[trigger] self@[j], k) != path@,
            decreases self.0@.len() - i,
        {
            let m = &self.0[i];
            let key = match k {
                MountKey::Source => m.source.as_slice(),
                MountKey::Dest => m.dest.as_slice(),
            };
            assert(self@[i as int] == m@);
            if bytes_equal(key, path) {
                assert(is_first_with(self@, k, path@, m@));
                return Some(m);
            }
            i = i + 1;
        }
        None
    }

    /// Find the first mount which has the `path` destination.
    pub fn get_mount_by_dest(&self, path: &[u8]) -> (r: Option<&MountInfo>)
        ensures
            r is None <==> forall|i: int| 0 <= i < self@.len() ==> #[trigger] self@[i].dest != path@,
            r matches Some(m) ==> is_first_with(self@, MountKey::Dest, path@, m@),
    {
        self.find_first(path, MountKey::Dest)
    }

    /// Find the first mount which has the source `path`.
    pub fn get_mount_by_source(&self, path: &[u8]) -> (r: Option<&MountInfo>)
        ensures
            r is None <==> forall|i: int| 0 <= i < self@.len() ==> #[trigger] self@[i].source != path@,
            r matches Some(m) ==> is_first_with(self@, MountKey::Source, path@, m@),
    {
        self.find_first(path, MountKey::Source)
    }

    fn starts_with(&self, path: &[u8], k: MountKey) -> (r: Vec<&MountInfo>)
        ensures
            r@.map_values(|m: &MountInfo| m@) == self@.filter(|m: MountView| has_prefix(key_of(m, k), path@)),
    {
        let ghost pred = |m: MountView| has_prefix(key_of(m, k), path@);
        let mut out: Vec<&MountInfo> = Vec::new();
        let mut i: usize = 0;
        proof {
            assert(self@.take(0) =~= Seq::<MountView>::empty());
            assert(out@.map_values(|m: &MountInfo| m@) =~= Seq::<MountView>::empty());
        }
        while i < self.0.len()
            invariant
                i <= self@.len(),
                self@.len() == self.0@.len(),
                pred == (|m: MountView| has_prefix(key_of(m, k), path@)),
                out@.map_values(|m: &MountInfo| m@) == self@.take(i as int).filter(pred),
            decreases self.0@.len() - i,
        {
            let ghost before = out@;
            let m = &self.0[i];
            let key = match k {
                MountKey::Source => m.source.as_slice(),
                MountKey::Dest => m.dest.as_slice(),
            };
            proof {
                assert(self@[i as int] == m@);
                assert(self@.take(i as int + 1) =~= self@.take(i as int).push(m@));
                self@.take(i as int).lemma_filter_push(m@, pred);
            }
            if starts_with_bytes(key, path) {
                out.push(m);
                assert(out@.map_values(|m: &MountInfo| m@) =~= before.map_values(|m: &MountInfo| m@).push(m@));
            }
            i = i + 1;
        }
        assert(self@.take(i as int) =~= self@);
        out
    }

    /// The mounts whose source starts with the bytes of `path`, in file
    /// order. The test is on bytes, not on path components.
    pub fn source_starts_with(&self, path: &[u8]) -> (r: Vec<&MountInfo>)
        ensures
            r@.map_values(|m: &MountInfo| m@) == self@.filter(|m: MountView| has_prefix(m.source, path@)),
    {
        let r = self.starts_with(path, MountKey::Source);
        assert((|m: MountView| has_prefix(key_of(m, MountKey::Source), path@)) =~= (|m: MountView| has_prefix(m.source, path@)));
        r
    }

    /// The mounts whose destination starts with the bytes of `path`, in file
    /// order. The test is on bytes, not on path components.
    pub fn destination_starts_with(&self, path: &[u8]) -> (r: Vec<&MountInfo>)
        ensures
            r@.map_values(|m: &MountInfo| m@) == self@.filter(|m: MountView| has_prefix(m.dest, path@)),
    {
        let r = self.starts_with(path, MountKey::Dest);
        assert((|m: MountView| has_prefix(key_of(m, MountKey::Dest), path@)) =~= (|m: MountView| has_prefix(m.dest, path@)));
        r
    }
}

/// `m` is the entry at the first index whose `k` field equals `path`.
pub open spec fn is_first_with(t: Seq<MountView>, k: MountKey, path: Seq<u8>, m: MountView) -> bool {
    exists|i: int|
        0 <= i < t.len() && #[trigger] t[i] == m && key_of(m, k) == path && forall|j: int|
            0 <= j < i ==> key_of(#[trigger] t[j], k) != path
}

/// The field that a mount line lacks when it has `n` fields.
pub open spec fn mount_field_after(n: int) -> Field {
    if n <= 1 {
        Field::Dest
    } else if n == 2 {
        Field::FsType
    } else if n == 3 {
        Field::Options
    } else if n == 4 {
        Field::Dump
    } else {
        Field::Pass
    }
}

/// A mount line with fewer than six space-separated fields fails with the
/// first absent field.
pub proof fn lemma_short_mount_line_misses_field(line: Seq<u8>)
    requires
        split_by(line, Delim::Space).len() < 6,
    ensures
        mount_line(line) == Err::<MountView, ParseError>(
            ParseError::MissingField(mount_field_after(split_by(line, Delim::Space).len() as int)),
        ),
{
    crate::text::lemma_split_by_nonempty(line, Delim::Space);
}

/// Parsing the same lines twice gives equal tables, or the same error.
pub proof fn lemma_mount_parse_deterministic(
    lines: Seq<Seq<u8>>,
    a: Result<MountList, ParseError>,
    b: Result<MountList, ParseError>,
)
    requires
        match a {
            Ok(t) => mount_table(lines) == Ok::<Seq<MountView>, ParseError>(t@),
            Err(e) => mount_table(lines) == Err::<Seq<MountView>, ParseError>(e),
        },
        match b {
            Ok(t) => mount_table(lines) == Ok::<Seq<MountView>, ParseError>(t@),
            Err(e) => mount_table(lines) == Err::<Seq<MountView>, ParseError>(e),
        },
    ensures
        a is Ok <==> b is Ok,
        a is Ok ==> a->Ok_0@ == b->Ok_0@,
        a is Err ==> a->Err_0 == b->Err_0,
{
}

} // verus!
