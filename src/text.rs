use vstd::prelude::*;
use vstd::string::*;
use vstd::utf8::*;

verus! {

broadcast use vstd::utf8::encode_utf8_valid_utf8;

/// What separates the fields of a line.
#[derive(Debug, Clone, Copy, PartialEq, Eq, Structural)]
pub enum Delim {
    /// A single ASCII space.
    Space,
    /// A single comma.
    Comma,
    /// A line feed.
    Newline,
}

pub open spec fn is_delim(b: u8, d: Delim) -> bool {
    match d {
        Delim::Space => b == 0x20,
        Delim::Comma => b == 0x2c,
        Delim::Newline => b == 0x0a,
    }
}

/// The pieces between the delimiters of `s`, in order, empty ones included:
/// `n` delimiters give `n + 1` pieces.
pub open spec fn split_by(s: Seq<u8>, d: Delim) -> Seq<Seq<u8>>
    decreases s.len(),
{
    if s.len() == 0 {
        seq![Seq::empty()]
    } else {
        let t = split_by(s.drop_first(), d);
        if is_delim(s[0], d) {
            seq![Seq::empty()] + t
        } else {
            t.update(0, seq![s[0]] + t[0])
        }
    }
}

pub proof fn lemma_split_by_nonempty(s: Seq<u8>, d: Delim)
    ensures
        split_by(s, d).len() >= 1,
    decreases s.len(),
{
    if s.len() > 0 {
        lemma_split_by_nonempty(s.drop_first(), d);
    }
}

/// Bytes free of delimiters join the first piece of what follows them.
pub proof fn lemma_split_by_piece(piece: Seq<u8>, rest: Seq<u8>, d: Delim)
    requires
        forall|i: int| 0 <= i < piece.len() ==> !is_delim(#[trigger] piece[i], d),
    ensures
        split_by(piece + rest, d) == split_by(rest, d).update(0, piece + split_by(rest, d)[0]),
    decreases piece.len(),
{
    lemma_split_by_nonempty(rest, d);
    if piece.len() == 0 {
        assert(piece + rest =~= rest);
        assert(piece + split_by(rest, d)[0] =~= split_by(rest, d)[0]);
        assert(split_by(rest, d).update(0, split_by(rest, d)[0]) =~= split_by(rest, d));
    } else {
        let p2 = piece.drop_first();
        assert forall|i: int| 0 <= i < p2.len() implies !is_delim(#[trigger] p2[i], d) by {
            assert(p2[i] == piece[i + 1]);
        }
        lemma_split_by_piece(p2, rest, d);
        assert((piece + rest).drop_first() =~= p2 + rest);
        assert(!is_delim(piece[0], d));
        assert(seq![piece[0]] + (p2 + split_by(rest, d)[0]) =~= piece + split_by(rest, d)[0]);
        assert(split_by(piece + rest, d) =~= split_by(rest, d).update(
            0,
            piece + split_by(rest, d)[0],
        ));
    }
}

pub fn is_delim_byte(b: u8, d: Delim) -> (r: bool)
    ensures
        r == is_delim(b, d),
{
    match d {
        Delim::Space => b == 0x20,
        Delim::Comma => b == 0x2c,
        Delim::Newline => b == 0x0a,
    }
}

/// The UTF-8 bytes of each piece in `v`.
pub open spec fn bytes_of(v: Seq<&str>) -> Seq<Seq<u8>> {
    v.map_values(|p: &str| p.spec_bytes())
}

/// Splits `s` at each delimiter, as `split_by` describes.
pub fn split_fields<'a>(s: &'a str, d: Delim) -> (r: Vec<&'a str>)
    ensures
        bytes_of(r@) == split_by(s.spec_bytes(), d),
{
    let mut out: Vec<&'a str> = Vec::new();
    let mut rem: &'a str = s;
    loop
        invariant
            split_by(s.spec_bytes(), d) == bytes_of(out@) + split_by(rem.spec_bytes(), d),
        decreases rem.spec_bytes().len(),
    {
        let rb = rem.as_bytes();
        let n = rb.len();
        let mut j: usize = 0;
        while j < n && !is_delim_byte(rb[j], d)
            invariant
                rb@ == rem.spec_bytes(),
                n == rb@.len(),
                j <= n,
                forall|k: int| 0 <= k < j ==> !is_delim(#[trigger] rb@[k], d),
            decreases n - j,
        {
            j = j + 1;
        }
        if j == n {
            proof {
                lemma_split_by_piece(rb@, Seq::empty(), d);
                assert(split_by(Seq::<u8>::empty(), d) =~= seq![Seq::<u8>::empty()]);
                assert(rb@ + Seq::<u8>::empty() =~= rb@);
                assert(split_by(rb@, d) =~= seq![rb@]);
            }
            let ghost before = out@;
            out.push(rem);
            proof {
                assert(bytes_of(out@) =~= bytes_of(before) + seq![rb@]);
            }
            return out;
        }
        proof {
            assert(is_char_boundary(rb@, j as int)) by {
                is_char_boundary_iff_not_is_continuation_byte(rb@, j as int);
            }
        }
        let (piece, tail) = rem.split_at(j);
        proof {
            let tb = tail.spec_bytes();
            assert(tb[0] == rb@[j as int]);
            reveal_with_fuel(is_char_boundary, 2);
            assert(is_char_boundary(tb, 1));
        }
        let (_sep, next) = tail.split_at(1);
        proof {
            let pb = piece.spec_bytes();
            let tb = tail.spec_bytes();
            let nb = next.spec_bytes();
            assert(rb@ =~= pb + tb);
            assert(tb =~= seq![tb[0]] + nb);
            lemma_split_by_piece(pb, tb, d);
            assert(tb.drop_first() =~= nb);
            lemma_split_by_nonempty(nb, d);
            assert(split_by(rb@, d) =~= seq![pb] + split_by(nb, d));
        }
        let ghost before = out@;
        out.push(piece);
        proof {
            assert(bytes_of(out@) =~= bytes_of(before) + seq![piece.spec_bytes()]);
        }
        rem = next;
    }
}

} // verus!

verus! {

/// `p` is a byte prefix of `s`.
pub open spec fn has_prefix(s: Seq<u8>, p: Seq<u8>) -> bool {
    p.len() <= s.len() && s.subrange(0, p.len() as int) == p
}

/// Compares two byte strings.
pub fn bytes_equal(a: &[u8], b: &[u8]) -> (r: bool)
    ensures
        r == (a@ == b@),
{
    if a.len() != b.len() {
        return false;
    }
    let mut i: usize = 0;
    while i < a.len()
        invariant
            a@.len() == b@.len(),
            i <= a@.len(),
            forall|k: int| 0 <= k < i ==> a@[k] == b@[k],
        decreases a@.len() - i,
    {
        if a[i] != b[i] {
            return false;
        }
        i = i + 1;
    }
    assert(a@ =~= b@);
    true
}

/// Tells whether `s` begins with the bytes of `p`.
pub fn starts_with_bytes(s: &[u8], p: &[u8]) -> (r: bool)
    ensures
        r == has_prefix(s@, p@),
{
    if p.len() > s.len() {
        return false;
    }
    let mut i: usize = 0;
    while i < p.len()
        invariant
            p@.len() <= s@.len(),
            i <= p@.len(),
            forall|k: int| 0 <= k < i ==> s@[k] == p@[k],
        decreases p@.len() - i,
    {
        if s[i] != p[i] {
            assert(s@.subrange(0, p@.len() as int)[i as int] != p@[i as int]);
            return false;
        }
        i = i + 1;
    }
    assert(s@.subrange(0, p@.len() as int) =~= p@);
    true
}

} // verus!

verus! {

/// The length in bytes of the whitespace character that `s` starts with, or
/// 0 if it starts with none. Whitespace is what Unicode calls White_Space:
/// the ASCII tab, line feed, vertical tab, form feed, carriage return and
/// space, and U+0085, U+00A0, U+1680, U+2000 to U+200A, U+2028, U+2029,
/// U+202F, U+205F and U+3000 in their UTF-8 form.
pub open spec fn ws_width(s: Seq<u8>) -> int {
    if s.len() >= 1 && (s[0] == 0x20 || 0x09 <= s[0] <= 0x0d) {
        1
    } else if s.len() >= 2 && s[0] == 0xc2 && (s[1] == 0x85 || s[1] == 0xa0) {
        2
    } else if s.len() >= 3 && s[0] == 0xe1 && s[1] == 0x9a && s[2] == 0x80 {
        3
    } else if s.len() >= 3 && s[0] == 0xe2 && s[1] == 0x80 && ((0x80 <= s[2] <= 0x8a) || s[2]
        == 0xa8 || s[2] == 0xa9 || s[2] == 0xaf) {
        3
    } else if s.len() >= 3 && s[0] == 0xe2 && s[1] == 0x81 && s[2] == 0x9f {
        3
    } else if s.len() >= 3 && s[0] == 0xe3 && s[1] == 0x80 && s[2] == 0x80 {
        3
    } else {
        0
    }
}

/// The pieces between whitespace characters, empty ones included.
pub open spec fn split_ws(s: Seq<u8>) -> Seq<Seq<u8>>
    decreases s.len(),
{
    if s.len() == 0 {
        seq![Seq::empty()]
    } else if ws_width(s) > 0 {
        seq![Seq::empty()] + split_ws(s.subrange(ws_width(s), s.len() as int))
    } else {
        let t = split_ws(s.drop_first());
        t.update(0, seq![s[0]] + t[0])
    }
}

pub proof fn lemma_split_ws_nonempty(s: Seq<u8>)
    ensures
        split_ws(s).len() >= 1,
    decreases s.len(),
{
    if s.len() > 0 {
        if ws_width(s) > 0 {
            lemma_split_ws_nonempty(s.subrange(ws_width(s), s.len() as int));
        } else {
            lemma_split_ws_nonempty(s.drop_first());
        }
    }
}

/// The first `j` bytes, where no whitespace character starts, join the first
/// piece of what follows them.
pub proof fn lemma_split_ws_piece(s: Seq<u8>, j: int)
    requires
        0 <= j <= s.len(),
        forall|k: int| 0 <= k < j ==> ws_width(#[trigger] s.subrange(k, s.len() as int)) == 0,
    ensures
        split_ws(s) == split_ws(s.subrange(j, s.len() as int)).update(
            0,
            s.subrange(0, j) + split_ws(s.subrange(j, s.len() as int))[0],
        ),
    decreases j,
{
    let rest = s.subrange(j, s.len() as int);
    lemma_split_ws_nonempty(rest);
    if j == 0 {
        assert(s.subrange(0, s.len() as int) =~= s);
        assert(s.subrange(0, 0) + split_ws(rest)[0] =~= split_ws(rest)[0]);
        assert(split_ws(rest).update(0, split_ws(rest)[0]) =~= split_ws(rest));
    } else {
        let t = s.drop_first();
        assert forall|k: int| 0 <= k < j - 1 implies ws_width(
            #[trigger] t.subrange(k, t.len() as int),
        ) == 0 by {
            assert(t.subrange(k, t.len() as int) =~= s.subrange(k + 1, s.len() as int));
        }
        lemma_split_ws_piece(t, j - 1);
        assert(t.subrange(j - 1, t.len() as int) =~= rest);
        assert(s.subrange(0, s.len() as int) =~= s);
        assert(ws_width(s) == 0);
        assert(seq![s[0]] + (t.subrange(0, j - 1) + split_ws(rest)[0]) =~= s.subrange(0, j)
            + split_ws(rest)[0]);
        assert(split_ws(s) =~= split_ws(rest).update(0, s.subrange(0, j) + split_ws(rest)[0]));
    }
}

/// The width of the whitespace character at `j`, as `ws_width` gives it.
pub fn ws_width_at(b: &[u8], j: usize) -> (r: usize)
    requires
        j <= b@.len(),
    ensures
        r as int == ws_width(b@.subrange(j as int, b@.len() as int)),
{
    let n = b.len();
    let ghost s = b@.subrange(j as int, n as int);
    let left = n - j;
    if left >= 1 && (b[j] == 0x20 || (0x09 <= b[j] && b[j] <= 0x0d)) {
        1
    } else if left >= 2 && b[j] == 0xc2 && (b[j + 1] == 0x85 || b[j + 1] == 0xa0) {
        2
    } else if left >= 3 && b[j] == 0xe1 && b[j + 1] == 0x9a && b[j + 2] == 0x80 {
        3
    } else if left >= 3 && b[j] == 0xe2 && b[j + 1] == 0x80 && ((0x80 <= b[j + 2] && b[j + 2]
        <= 0x8a) || b[j + 2] == 0xa8 || b[j + 2] == 0xa9 || b[j + 2] == 0xaf) {
        3
    } else if left >= 3 && b[j] == 0xe2 && b[j + 1] == 0x81 && b[j + 2] == 0x9f {
        3
    } else if left >= 3 && b[j] == 0xe3 && b[j + 1] == 0x80 && b[j + 2] == 0x80 {
        3
    } else {
        0
    }
}

/// Splits `s` at each whitespace character, as `split_ws` describes.
pub fn split_ws_fields<'a>(s: &'a str) -> (r: Vec<&'a str>)
    ensures
        bytes_of(r@) == split_ws(s.spec_bytes()),
{
    let mut out: Vec<&'a str> = Vec::new();
    let mut rem: &'a str = s;
    loop
        invariant
            split_ws(s.spec_bytes()) == bytes_of(out@) + split_ws(rem.spec_bytes()),
        decreases rem.spec_bytes().len(),
    {
        let rb = rem.as_bytes();
        let n = rb.len();
        let mut j: usize = 0;
        let mut w: usize = 0;
        let mut found = false;
        while j < n && !found
            invariant
                rb@ == rem.spec_bytes(),
                n == rb@.len(),
                j <= n,
                forall|k: int| 0 <= k < j ==> ws_width(#[trigger] rb@.subrange(k, n as int)) == 0,
                found ==> j < n && w > 0 && ws_width(rb@.subrange(j as int, n as int)) == w,
            decreases n - j + (if found { 0int } else { 1int }),
        {
            w = ws_width_at(rb, j);
            if w > 0 {
                found = true;
            } else {
                j = j + 1;
            }
        }
        if j == n {
            proof {
                lemma_split_ws_piece(rb@, n as int);
                assert(rb@.subrange(n as int, n as int) =~= Seq::<u8>::empty());
                assert(split_ws(Seq::<u8>::empty()) =~= seq![Seq::<u8>::empty()]);
                assert(rb@.subrange(0, n as int) + Seq::<u8>::empty() =~= rb@);
                assert(split_ws(rb@) =~= seq![rb@]);
            }
            let ghost before = out@;
            out.push(rem);
            proof {
                assert(bytes_of(out@) =~= bytes_of(before) + seq![rb@]);
            }
            return out;
        }
        let ghost ws = rb@.subrange(j as int, n as int);
        assert(ws_width(ws) == w && w > 0);
        proof {
            assert(ws[0] == rb@[j as int]);
            assert(is_char_boundary(rb@, j as int)) by {
                is_char_boundary_iff_not_is_continuation_byte(rb@, j as int);
            }
        }
        let (piece, tail) = rem.split_at(j);
        proof {
            let tb = tail.spec_bytes();
            assert(tb =~= ws);
            reveal_with_fuel(is_char_boundary, 2);
            if w == 1 {
                assert(is_leading_byte_width_1(tb[0]));
            } else if w == 2 {
                assert(is_leading_byte_width_2(tb[0]));
            } else {
                assert(is_leading_byte_width_3(tb[0]));
            }
            assert(length_of_first_scalar(tb) == w);
            assert(is_char_boundary(tb, w as int));
        }
        let (_space, next) = tail.split_at(w);
        proof {
            let pb = piece.spec_bytes();
            let nb = next.spec_bytes();
            lemma_split_ws_piece(rb@, j as int);
            assert(pb =~= rb@.subrange(0, j as int));
            assert(nb =~= ws.subrange(w as int, ws.len() as int));
            lemma_split_ws_nonempty(nb);
            assert(split_ws(ws) =~= seq![Seq::<u8>::empty()] + split_ws(nb));
            assert(pb + Seq::<u8>::empty() =~= pb);
            assert(split_ws(rb@) =~= seq![pb] + split_ws(nb));
        }
        let ghost before = out@;
        out.push(piece);
        proof {
            assert(bytes_of(out@) =~= bytes_of(before) + seq![piece.spec_bytes()]);
        }
        rem = next;
    }
}

pub open spec fn is_nonempty(p: Seq<u8>) -> bool {
    p.len() > 0
}

/// The runs of bytes between runs of whitespace; whitespace at either end
/// gives no field.
pub open spec fn words(s: Seq<u8>) -> Seq<Seq<u8>> {
    split_ws(s).filter(|p: Seq<u8>| is_nonempty(p))
}

/// Splits `s` into the runs that `words` describes.
pub fn split_words<'a>(s: &'a str) -> (r: Vec<&'a str>)
    ensures
        bytes_of(r@) == words(s.spec_bytes()),
{
    let pieces = split_ws_fields(s);
    let ghost all = bytes_of(pieces@);
    let ghost pred = |p: Seq<u8>| is_nonempty(p);
    let mut out: Vec<&'a str> = Vec::new();
    let mut i: usize = 0;
    proof {
        assert(all.take(0) =~= Seq::<Seq<u8>>::empty());
        assert(bytes_of(out@) =~= Seq::<Seq<u8>>::empty());
    }
    while i < pieces.len()
        invariant
            i <= pieces@.len(),
            all == bytes_of(pieces@),
            pred == (|p: Seq<u8>| is_nonempty(p)),
            bytes_of(out@) == all.take(i as int).filter(pred),
        decreases pieces@.len() - i,
    {
        let ghost before = out@;
        let p: &'a str = pieces[i];
        proof {
            assert(all.take(i as int + 1) =~= all.take(i as int).push(p.spec_bytes()));
            all.take(i as int).lemma_filter_push(p.spec_bytes(), pred);
        }
        if !p.is_empty() {
            out.push(p);
            assert(bytes_of(out@) =~= bytes_of(before).push(p.spec_bytes()));
        } else {
            assert(p.spec_bytes().len() == 0);
        }
        i = i + 1;
    }
    assert(all.take(i as int) =~= all);
    out
}

/// A line without the carriage return that ends it, if one does.
pub open spec fn strip_cr(l: Seq<u8>) -> Seq<u8> {
    if l.len() > 0 && l.last() == 0x0d {
        l.drop_last()
    } else {
        l
    }
}

/// The lines of a text: split at each line feed, with a carriage return
/// before the line feed dropped, and no empty line after a final line feed.
pub open spec fn text_lines(s: Seq<u8>) -> Seq<Seq<u8>> {
    let p = split_by(s, Delim::Newline);
    let q = if p.last().len() == 0 {
        p.drop_last()
    } else {
        p
    };
    Seq::new(q.len(), |i: int| if i < p.len() - 1 { strip_cr(q[i]) } else { q[i] })
}

fn without_cr<'a>(l: &'a str) -> (r: &'a str)
    ensures
        r.spec_bytes() == strip_cr(l.spec_bytes()),
{
    let b = l.as_bytes();
    let n = b.len();
    if n > 0 && b[n - 1] == 0x0d {
        proof {
            vstd::utf8::is_char_boundary_iff_not_is_continuation_byte(b@, n - 1);
        }
        let (head, _cr) = l.split_at(n - 1);
        assert(head.spec_bytes() =~= b@.drop_last());
        head
    } else {
        l
    }
}

/// Splits a text into its lines, as `text_lines` describes.
pub fn split_lines<'a>(s: &'a str) -> (r: Vec<&'a str>)
    ensures
        bytes_of(r@) == text_lines(s.spec_bytes()),
{
    let pieces = split_fields(s, Delim::Newline);
    let ghost p = bytes_of(pieces@);
    proof {
        lemma_split_by_nonempty(s.spec_bytes(), Delim::Newline);
    }
    let n = pieces.len();
    let count = if pieces[n - 1].is_empty() { n - 1 } else { n };
    let ghost q = if p.last().len() == 0 { p.drop_last() } else { p };
    proof {
        assert(pieces[n - 1].is_empty() == (p.last().len() == 0));
    }
    let mut out: Vec<&'a str> = Vec::new();
    let mut i: usize = 0;
    while i < count
        invariant
            p == bytes_of(pieces@),
            n == pieces@.len(),
            n >= 1,
            count <= n,
            count == q.len(),
            q == (if p.last().len() == 0 { p.drop_last() } else { p }),
            i <= count,
            bytes_of(out@) == Seq::new(
                i as nat,
                |k: int| if k < p.len() - 1 { strip_cr(q[k]) } else { q[k] },
            ),
        decreases count - i,
    {
        let ghost before = out@;
        let l = if i < n - 1 { without_cr(pieces[i]) } else { pieces[i] };
        out.push(l);
        assert(q[i as int] == p[i as int]);
        assert(p[i as int] == pieces@[i as int].spec_bytes());
        assert(bytes_of(out@) =~= bytes_of(before).push(l.spec_bytes()));
        assert(bytes_of(out@) =~= Seq::new(
            (i + 1) as nat,
            |k: int| if k < p.len() - 1 { strip_cr(q[k]) } else { q[k] },
        ));
        i = i + 1;
    }
    assert(bytes_of(out@) =~= text_lines(s.spec_bytes()));
    out
}

} // verus!
