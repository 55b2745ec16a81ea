//! Read-only bookmarks as stock Mercurial keeps them in a flat file: one
//! record per line, `<40 hex chars><space><name bytes>`, lines separated by
//! a single line-feed byte. Names are arbitrary byte strings; the latest
//! line for a name wins.

use vstd::prelude::*;

use crate::hash::{NodeHash, bytes_of_hex, hash_views, is_hex_digit};
use crate::kvlist::KvList;

verus! {

/// How a bookmark file fails to parse.
#[derive(Debug)]
pub enum ErrorKind {
    /// A line shorter than 42 bytes, or whose 41st byte is not a space.
    /// Carries the whole offending line, lossily decoded.
    InvalidBookmarkLine(String),
    /// A structurally sound line whose 40-byte hash field is not 40 hex
    /// digits. Carries the offending hash field, lossily decoded.
    InvalidHash(String),
}

/// The text that lossy UTF-8 decoding gives for a byte string.
pub uninterp spec fn lossy_of(b: Seq<u8>) -> Seq<char>;

/// Relies on `String::from_utf8_lossy`: the text depends on the bytes
/// alone, and bytes that are valid UTF-8 — in particular pure ASCII —
/// decode to themselves.
#[verifier::external_body]
fn lossy_string(b: &Vec<u8>) -> (r: String)
    ensures
        r@ == lossy_of(b@),
        (forall|i: int| 0 <= i < b@.len() ==> b@[i] < 128) ==> r@ == Seq::new(
            b@.len(),
            |i: int| b@[i] as char,
        ),
{
    String::from_utf8_lossy(b).into_owned()
}

/// The lossily decoded text of a byte string, exactly as the parse
/// errors carry it: callers can learn from it what text a given bad
/// line raises — for pure ASCII bytes, the bytes themselves.
pub fn lossy_text(b: &Vec<u8>) -> (r: String)
    ensures
        r@ == lossy_of(b@),
        (forall|i: int| 0 <= i < b@.len() ==> b@[i] < 128) ==> r@ == Seq::new(
            b@.len(),
            |i: int| b@[i] as char,
        ),
{
    lossy_string(b)
}

/// Relies on `ascii::AsciiStr::from_ascii`, which accepts a byte string
/// exactly when every byte is ASCII (below 128).
#[verifier::external_body]
fn check_ascii(bytes: &Vec<u8>) -> (r: bool)
    ensures
        r <==> (forall|i: int| 0 <= i < bytes@.len() ==> bytes@[i] < 128),
{
    ascii::AsciiStr::from_ascii(bytes.as_slice()).is_ok()
}

/// A version tag for a stored bookmark value. The read-only reader hands
/// out a fixed tag; a future versioned store would vary it.
#[derive(Clone, Copy, Debug, PartialEq, Eq, Structural)]
pub struct Version(pub u64);

/// The segments of a byte string split on line-feed bytes, as a buffered
/// line reader yields them: the separator is dropped, and a trailing
/// separator does not open a final empty segment.
pub open spec fn split_lines(s: Seq<u8>) -> Seq<Seq<u8>>
    decreases s.len(),
{
    if s.len() == 0 {
        Seq::empty()
    } else {
        let rest = split_lines(s.drop_first());
        if s.first() == 10 {
            seq![Seq::<u8>::empty()] + rest
        } else {
            if rest.len() == 0 {
                seq![seq![s.first()]]
            } else {
                seq![seq![s.first()] + rest.first()] + rest.drop_first()
            }
        }
    }
}

/// A line too short to hold a hash, a space and a one-byte name, or one
/// whose 41st byte is not a space.
pub open spec fn line_malformed(line: Seq<u8>) -> bool {
    line.len() < 42 || line[40] != 32
}

/// The 40-byte hash field holds only hex digits.
pub open spec fn line_hash_ok(line: Seq<u8>) -> bool
    recommends
        !line_malformed(line),
{
    forall|i: int| 0 <= i < 40 ==> is_hex_digit(line[i])
}

/// A line the reader accepts.
pub open spec fn good_line(line: Seq<u8>) -> bool {
    !line_malformed(line) && line_hash_ok(line)
}

/// The bookmark name on a good line: everything after the space.
pub open spec fn bm_name(line: Seq<u8>) -> Seq<u8>
    recommends
        !line_malformed(line),
{
    line.skip(41)
}

/// The hash bytes a good line denotes.
pub open spec fn bm_hash(line: Seq<u8>) -> Seq<u8>
    recommends
        good_line(line),
{
    bytes_of_hex(line.take(40))
}

/// Every line parses.
pub open spec fn all_lines_good(lines: Seq<Seq<u8>>) -> bool {
    forall|i: int| 0 <= i < lines.len() ==> good_line(#[trigger] lines[i])
}

/// The mapping the lines build over a starting mapping, first line first,
/// a later line overriding an earlier one with the same name.
pub open spec fn bm_fold(acc: Map<Seq<u8>, Seq<u8>>, lines: Seq<Seq<u8>>) -> Map<Seq<u8>, Seq<u8>>
    decreases lines.len(),
{
    if lines.len() == 0 {
        acc
    } else {
        bm_fold(acc.insert(bm_name(lines.first()), bm_hash(lines.first())), lines.drop_first())
    }
}

/// Every line of the file parses.
pub open spec fn data_well_formed(data: Seq<u8>) -> bool {
    all_lines_good(split_lines(data))
}

/// The name-to-hash mapping a well-formed file denotes.
pub open spec fn bookmarks_of(data: Seq<u8>) -> Map<Seq<u8>, Seq<u8>>
    recommends
        data_well_formed(data),
{
    bm_fold(Map::empty(), split_lines(data))
}

/// Line `i` is the first bad line, and `e` is its error.
pub open spec fn first_error_is(e: ErrorKind, lines: Seq<Seq<u8>>, i: int) -> bool {
    0 <= i < lines.len() && !good_line(lines[i]) && (forall|j: int|
        0 <= j < i ==> good_line(#[trigger] lines[j])) && error_matches(e, lines[i])
}

/// The error a bad line raises.
pub open spec fn error_matches(e: ErrorKind, line: Seq<u8>) -> bool {
    if line_malformed(line) {
        e matches ErrorKind::InvalidBookmarkLine(s) && s@ == lossy_of(line)
    } else {
        e matches ErrorKind::InvalidHash(s) && s@ == lossy_of(line.take(40))
    }
}

/// A byte string without separators is one segment, or none when empty.
proof fn lemma_split_no_newline(s: Seq<u8>)
    requires
        forall|i: int| 0 <= i < s.len() ==> s[i] != 10,
    ensures
        split_lines(s) == if s.len() == 0 {
            Seq::<Seq<u8>>::empty()
        } else {
            seq![s]
        },
    decreases s.len(),
{
    if s.len() > 0 {
        lemma_split_no_newline(s.drop_first());
        if s.len() == 1 {
            assert(s.drop_first() =~= Seq::<u8>::empty());
            assert(seq![s.first()] =~= s);
            assert(split_lines(s) =~~= seq![s]);
        } else {
            assert(seq![s.first()] + s.drop_first() =~= s);
            assert(split_lines(s) =~~= seq![s]);
        }
    }
}

/// Splitting takes the first separator-free segment off the front.
proof fn lemma_split_first_line(a: Seq<u8>, b: Seq<u8>)
    requires
        forall|i: int| 0 <= i < a.len() ==> a[i] != 10,
    ensures
        split_lines(a + seq![10u8] + b) == seq![a] + split_lines(b),
    decreases a.len(),
{
    let s = a + seq![10u8] + b;
    if a.len() == 0 {
        assert(s =~= seq![10u8] + b);
        assert(s.first() == 10);
        assert(s.drop_first() =~= b);
        assert(split_lines(s) =~~= seq![a] + split_lines(b));
    } else {
        assert(s.first() == a.first());
        assert(s.first() != 10);
        assert(s.drop_first() =~= a.drop_first() + seq![10u8] + b);
        lemma_split_first_line(a.drop_first(), b);
        let rest = split_lines(s.drop_first());
        assert(rest == seq![a.drop_first()] + split_lines(b));
        assert(rest.len() > 0);
        assert(rest.first() == a.drop_first());
        assert(rest.drop_first() =~= split_lines(b));
        assert(seq![s.first()] + rest.first() =~= a);
        assert(split_lines(s) =~~= seq![a] + split_lines(b));
    }
}

/// Line `i` carries the bookmark name.
pub open spec fn names_line(lines: Seq<Seq<u8>>, name: Seq<u8>, i: int) -> bool {
    0 <= i < lines.len() && bm_name(lines[i]) == name
}

/// Line `i` is the last line carrying the bookmark name.
pub open spec fn last_line_for(lines: Seq<Seq<u8>>, name: Seq<u8>, i: int) -> bool {
    names_line(lines, name, i) && (forall|j: int|
        i < j < lines.len() ==> bm_name(#[trigger] lines[j]) != name)
}

/// Folding one more line writes that line's pair.
proof fn lemma_bm_fold_push(acc: Map<Seq<u8>, Seq<u8>>, lines: Seq<Seq<u8>>, l: Seq<u8>)
    ensures
        bm_fold(acc, lines.push(l)) == bm_fold(acc, lines).insert(bm_name(l), bm_hash(l)),
    decreases lines.len(),
{
    let pushed = lines.push(l);
    if lines.len() == 0 {
        assert(pushed.first() == l);
        assert(pushed.drop_first() =~~= Seq::<Seq<u8>>::empty());
        assert(bm_fold(acc.insert(bm_name(l), bm_hash(l)), pushed.drop_first()) == acc.insert(
            bm_name(l),
            bm_hash(l),
        ));
        assert(bm_fold(acc, lines) == acc);
    } else {
        let acc2 = acc.insert(bm_name(lines.first()), bm_hash(lines.first()));
        assert(pushed.first() == lines.first());
        assert(pushed.drop_first() =~~= lines.drop_first().push(l));
        lemma_bm_fold_push(acc2, lines.drop_first(), l);
        assert(bm_fold(acc, pushed) == bm_fold(acc2, pushed.drop_first()));
        assert(bm_fold(acc, lines) == bm_fold(acc2, lines.drop_first()));
    }
}

/// What a fold associates with a name: the hash of the last line carrying
/// it, or the starting mapping's value when no line does.
proof fn lemma_bm_fold_lookup(acc: Map<Seq<u8>, Seq<u8>>, lines: Seq<Seq<u8>>, name: Seq<u8>)
    ensures
        bm_fold(acc, lines).contains_key(name) <==> acc.contains_key(name) || exists|i: int|
            names_line(lines, name, i),
        (exists|i: int| names_line(lines, name, i)) ==> exists|i: int|
            last_line_for(lines, name, i),
        forall|i: int|
            last_line_for(lines, name, i) ==> bm_fold(acc, lines)[name] == bm_hash(lines[i]),
        !(exists|i: int| names_line(lines, name, i)) && acc.contains_key(name) ==> bm_fold(
            acc,
            lines,
        )[name] == acc[name],
    decreases lines.len(),
{
    if lines.len() > 0 {
        let pre = lines.drop_last();
        let l = lines.last();
        assert(lines =~~= pre.push(l));
        lemma_bm_fold_push(acc, pre, l);
        lemma_bm_fold_lookup(acc, pre, name);
        assert(forall|i: int| names_line(pre, name, i) ==> names_line(lines, name, i));
        if bm_name(l) == name {
            assert(names_line(lines, name, lines.len() - 1));
            assert(last_line_for(lines, name, lines.len() - 1));
            assert(forall|i: int| last_line_for(lines, name, i) ==> i == lines.len() - 1);
        } else {
            if exists|i: int| names_line(lines, name, i) {
                let i = choose|i: int| names_line(lines, name, i);
                assert(names_line(pre, name, i));
                let w = choose|i: int| last_line_for(pre, name, i);
                assert(last_line_for(lines, name, w));
            }
            assert(forall|i: int| last_line_for(lines, name, i) ==> last_line_for(pre, name, i));
        }
    }
}

/// In a well-formed bookmark file every recorded name resolves to the hash
/// of the last line carrying it, a name no line carries is absent, and the
/// mapping's domain is exactly the set of names the lines carry.
pub proof fn lemma_lookup_is_last_line(data: Seq<u8>, name: Seq<u8>)
    requires
        data_well_formed(data),
    ensures
        bookmarks_of(data).contains_key(name) <==> exists|i: int|
            names_line(split_lines(data), name, i),
        (exists|i: int| names_line(split_lines(data), name, i)) ==> exists|i: int|
            last_line_for(split_lines(data), name, i),
        forall|i: int|
            last_line_for(split_lines(data), name, i) ==> bookmarks_of(data)[name] == bm_hash(
                split_lines(data)[i],
            ),
{
    lemma_bm_fold_lookup(Map::empty(), split_lines(data), name);
}

/// A fresh copy of a region of a byte string.
pub fn subvec(data: &Vec<u8>, start: usize, end: usize) -> (r: Vec<u8>)
    requires
        start <= end <= data@.len(),
    ensures
        r@ == data@.subrange(start as int, end as int),
{
    let mut r: Vec<u8> = Vec::new();
    let mut i: usize = start;
    while i < end
        invariant
            start <= i <= end <= data@.len(),
            r@ == data@.subrange(start as int, i as int),
        decreases end - i,
    {
        r.push(data[i]);
        assert(r@ =~= data@.subrange(start as int, i + 1 as int));
        i = i + 1;
    }
    r
}

/// Bookmarks read from a stock flat bookmark file. Read-only: writing
/// would have to honour the source tool's own locking.
#[derive(Debug)]
pub struct StockBookmarks {
    bookmarks: KvList<NodeHash>,
}

impl StockBookmarks {
    /// The name-to-hash-bytes mapping held.
    pub closed spec fn contents(&self) -> Map<Seq<u8>, Seq<u8>> {
        hash_views(self.bookmarks.contents())
    }

    /// Parse a whole bookmark file. Returns the mapping the file denotes,
    /// or the error its first bad line raises.
    pub fn from_bytes(data: &Vec<u8>) -> (r: Result<StockBookmarks, ErrorKind>)
        ensures
            match r {
                Ok(sb) => data_well_formed(data@) && sb.contents() == bookmarks_of(data@),
                Err(e) => !data_well_formed(data@) && exists|i: int|
                    first_error_is(e, split_lines(data@), i),
            },
    {
        let mut kv = KvList::<NodeHash>::new();
        let res = parse_from(data, 0, &mut kv);
        proof {
            assert(data@.skip(0) =~= data@);
        }
        match res {
            Ok(()) => {
                proof {
                    assert(hash_views(Map::<Seq<u8>, NodeHash>::empty())
                        =~= Map::<Seq<u8>, Seq<u8>>::empty());
                }
                Ok(StockBookmarks { bookmarks: kv })
            }
            Err(e) => Err(e),
        }
    }

    /// The hash last written for a name, with the reader's fixed version
    /// tag; absent for unknown names.
    pub fn get(&self, name: &Vec<u8>) -> (r: Option<(NodeHash, Version)>)
        ensures
            match r {
                Some(p) => self.contents().contains_key(name@) && p.0@ == self.contents()[name@]
                    && p.1 == Version(1),
                None => !self.contents().contains_key(name@),
            },
    {
        match self.bookmarks.get(name) {
            Some(h) => Some((h.clone(), Version(1))),
            None => None,
        }
    }

    /// Every bookmark name, each exactly once, in no promised order.
    pub fn keys(&self) -> (r: Vec<Vec<u8>>)
        ensures
            forall|i: int, j: int| 0 <= i < j < r@.len() ==> r@[i]@ != r@[j]@,
            forall|i: int| 0 <= i < r@.len() ==> self.contents().contains_key(#[trigger] r@[i]@),
            forall|k: Seq<u8>|
                self.contents().contains_key(k) ==> exists|i: int| 0 <= i < r@.len() && r@[i]@ == k,
    {
        self.bookmarks.keys()
    }
}

/// Parse one line, spanning `start..end` of the file, into the store.
fn handle_line(data: &Vec<u8>, start: usize, end: usize, kv: &mut KvList<NodeHash>) -> (r: Result<
    (),
    ErrorKind,
>)
    requires
        start <= end <= data@.len(),
    ensures
        ({
            let line = data@.subrange(start as int, end as int);
            match r {
                Ok(()) => good_line(line) && hash_views(final(kv).contents()) == hash_views(
                    old(kv).contents(),
                ).insert(bm_name(line), bm_hash(line)),
                Err(e) => !good_line(line) && error_matches(e, line) && final(kv).contents()
                    == old(kv).contents(),
            }
        }),
{
    let ghost line = data@.subrange(start as int, end as int);
    if end - start < 42 || data[start + 40] != 32 {
        let whole = subvec(data, start, end);
        assert(line_malformed(line));
        return Err(ErrorKind::InvalidBookmarkLine(lossy_string(&whole)));
    }
    assert(!line_malformed(line));
    let hash_field = subvec(data, start, start + 40);
    proof {
        assert(hash_field@ =~= line.take(40));
    }
    if !check_ascii(&hash_field) {
        assert(!line_hash_ok(line)) by {
            let i = choose|i: int| 0 <= i < hash_field@.len() && !(hash_field@[i] < 128);
            assert(!is_hex_digit(line[i]));
        }
        return Err(ErrorKind::InvalidHash(lossy_string(&hash_field)));
    }
    match NodeHash::from_hex(&hash_field) {
        Some(h) => {
            let name = subvec(data, start + 41, end);
            proof {
                assert(name@ =~= bm_name(line));
            }
            let ghost pre = kv.contents();
            kv.insert(name, h);
            proof {
                assert(hash_views(kv.contents()) =~= hash_views(pre).insert(
                    bm_name(line),
                    bm_hash(line),
                ));
            }
            Ok(())
        }
        None => {
            assert(!line_hash_ok(line));
            Err(ErrorKind::InvalidHash(lossy_string(&hash_field)))
        }
    }
}

/// Parse every line of the file from `start` on, in order, stopping at
/// the first bad line.
fn parse_from(data: &Vec<u8>, start: usize, kv: &mut KvList<NodeHash>) -> (r: Result<
    (),
    ErrorKind,
>)
    requires
        start <= data@.len(),
    ensures
        ({
            let lines = split_lines(data@.skip(start as int));
            match r {
                Ok(()) => all_lines_good(lines) && hash_views(final(kv).contents()) == bm_fold(
                    hash_views(old(kv).contents()),
                    lines,
                ),
                Err(e) => exists|i: int| first_error_is(e, lines, i),
            }
        }),
    decreases data@.len() - start,
{
    let ghost lines = split_lines(data@.skip(start as int));
    let mut pos: usize = start;
    while pos < data.len() && data[pos] != 10
        invariant
            start <= pos <= data@.len(),
            forall|k: int| start <= k < pos ==> data@[k] != 10,
        decreases data@.len() - pos,
    {
        pos = pos + 1;
    }
    if pos == data.len() {
        if start == data.len() {
            proof {
                assert(data@.skip(start as int) =~= Seq::<u8>::empty());
            }
            Ok(())
        } else {
            let ghost line = data@.subrange(start as int, data@.len() as int);
            proof {
                assert(line =~= data@.skip(start as int));
                lemma_split_no_newline(line);
                assert(lines =~= seq![line]);
            }
            match handle_line(data, start, data.len(), kv) {
                Ok(()) => {
                    proof {
                        let acc = hash_views(old(kv).contents());
                        assert(lines.first() == line);
                        assert(lines.drop_first() =~= Seq::<Seq<u8>>::empty());
                        assert(bm_fold(acc.insert(bm_name(line), bm_hash(line)), lines.drop_first())
                            == acc.insert(bm_name(line), bm_hash(line)));
                        assert(hash_views(kv.contents()) == bm_fold(acc, lines));
                    }
                    Ok(())
                }
                Err(e) => {
                    assert(first_error_is(e, lines, 0));
                    Err(e)
                }
            }
        }
    } else {
        let ghost line = data@.subrange(start as int, pos as int);
        proof {
            assert(data@.skip(start as int) =~= line + seq![10u8] + data@.skip(pos + 1));
            lemma_split_first_line(line, data@.skip(pos + 1));
            assert(lines =~= seq![line] + split_lines(data@.skip(pos + 1)));
            assert(lines[0] == line);
            assert(lines.drop_first() =~= split_lines(data@.skip(pos + 1)));
        }
        match handle_line(data, start, pos, kv) {
            Err(e) => {
                assert(first_error_is(e, lines, 0));
                Err(e)
            }
            Ok(()) => {
                let ghost mid = hash_views(kv.contents());
                let res = parse_from(data, pos + 1, kv);
                let ghost rest = split_lines(data@.skip(pos + 1));
                match res {
                    Ok(()) => {
                        proof {
                            assert(all_lines_good(lines)) by {
                                assert(forall|i: int|
                                    1 <= i < lines.len() ==> lines[i] == rest[i - 1]);
                            }
                            assert(bm_fold(hash_views(old(kv).contents()), lines) == bm_fold(
                                mid,
                                rest,
                            ));
                        }
                        Ok(())
                    }
                    Err(e) => {
                        proof {
                            let i = choose|i: int| first_error_is(e, rest, i);
                            assert(lines[i + 1] == rest[i]);
                            assert(forall|j: int|
                                1 <= j < i + 1 ==> lines[j] == rest[j - 1] && good_line(
                                    #[trigger] lines[j],
                                ));
                            assert(first_error_is(e, lines, i + 1));
                        }
                        Err(e)
                    }
                }
            }
        }
    }
}

} // verus!
