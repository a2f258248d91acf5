use vstd::prelude::*;
use crate::text::{chars_of, id_of, split, split_on, split_prefix, views};
use crate::outside::{cp1251_text, decode_cp1251, unpack, zip_entry};

verus! {

/// Why one line of an entry could not become a record.
#[derive(Clone, Copy, Debug, PartialEq, Eq)]
pub enum FieldFault {
    /// The line has fewer `;`-separated fields than the record needs.
    TooFewFields,
    /// The field at this position is not a number of the expected kind.
    Malformed(usize),
    /// The amount that a rate is divided by is zero.
    ZeroDivisor,
}

/// Why loading a collection failed; no partial collection is ever returned.
#[derive(Clone, Copy, Debug, PartialEq, Eq)]
pub enum LoadError {
    /// The archive could not be read as a zip container.
    Archive,
    /// The archive holds no entry of the requested name.
    MissingEntry,
    /// The entry is too large to be decoded in memory.
    Oversized,
    /// The line at this index (counting from 0) is malformed.
    Row { line: usize, fault: FieldFault },
}

/// A line without the `\r` of a `\r\n` ending.
pub open spec fn strip_cr(l: Seq<char>) -> Seq<char> {
    if l.len() > 0 && l.last() == '\r' {
        l.drop_last()
    } else {
        l
    }
}

/// The lines of a text: split on `\n`, each without a trailing `\r`.
pub open spec fn lines(text: Seq<char>) -> Seq<Seq<char>> {
    split(text, '\n').map_values(|l: Seq<char>| strip_cr(l))
}

/// The fields of a line.
pub open spec fn fields(line: Seq<char>) -> Seq<Seq<char>> {
    split(line, ';')
}

/// A record type read from one `;`-separated line.
pub trait Record: Sized + View {
    /// The record that the fields of one line describe, or why there is none.
    spec fn from_fields(f: Seq<Seq<char>>) -> Result<Self::V, FieldFault>;

    fn parse_fields(f: &Vec<Vec<char>>) -> (r: Result<Self, FieldFault>)
        ensures
            match r {
                Ok(x) => Self::from_fields(views(f@)) == Ok::<Self::V, FieldFault>(x@),
                Err(e) => Self::from_fields(views(f@)) == Err::<Self::V, FieldFault>(e),
            },
    ;

    /// A line whose first field is no identifier gives no record.
    proof fn lemma_bad_id(f: Seq<Seq<char>>)
        requires
            f.len() > 0,
            id_of(f[0]) is None,
        ensures
            Self::from_fields(f) is Err,
    ;
}

pub open spec fn record_views<T: View>(v: Seq<T>) -> Seq<T::V> {
    v.map_values(|x: T| x@)
}

/// The records of the given lines, in order; empty lines are skipped, and
/// the first malformed line fails the whole sequence.
pub open spec fn records_of<T: Record>(ls: Seq<Seq<char>>) -> Result<Seq<T::V>, LoadError>
    decreases ls.len(),
{
    if ls.len() == 0 {
        Ok(Seq::empty())
    } else {
        match records_of::<T>(ls.drop_last()) {
            Err(e) => Err(e),
            Ok(v) => {
                if ls.last().len() == 0 {
                    Ok(v)
                } else {
                    match T::from_fields(fields(ls.last())) {
                        Ok(x) => Ok(v.push(x)),
                        Err(f) => Err(LoadError::Row { line: (ls.len() - 1) as usize, fault: f }),
                    }
                }
            },
        }
    }
}

/// Once a prefix of the lines fails, all the lines fail the same way.
pub proof fn lemma_failure_persists<T: Record>(ls: Seq<Seq<char>>, k: int)
    requires
        0 <= k <= ls.len(),
        records_of::<T>(ls.take(k)) is Err,
    ensures
        records_of::<T>(ls) == records_of::<T>(ls.take(k)),
    decreases ls.len(),
{
    if k == ls.len() {
        assert(ls.take(k) =~= ls);
    } else {
        assert(ls.drop_last().take(k) =~= ls.take(k));
        lemma_failure_persists::<T>(ls.drop_last(), k);
    }
}

/// The non-empty lines among `ls`, in order.
pub open spec fn nonempty_lines(ls: Seq<Seq<char>>) -> Seq<Seq<char>>
    decreases ls.len(),
{
    if ls.len() == 0 {
        Seq::empty()
    } else if ls.last().len() == 0 {
        nonempty_lines(ls.drop_last())
    } else {
        nonempty_lines(ls.drop_last()).push(ls.last())
    }
}

proof fn lemma_records_follow_lines<T: Record>(ls: Seq<Seq<char>>)
    requires
        records_of::<T>(ls) is Ok,
    ensures
        records_of::<T>(ls)->Ok_0.len() == nonempty_lines(ls).len(),
        forall|k: int|
            0 <= k < nonempty_lines(ls).len() ==> T::from_fields(fields(#[trigger] nonempty_lines(ls)[k]))
                == Ok::<T::V, FieldFault>(records_of::<T>(ls)->Ok_0[k]),
    decreases ls.len(),
{
    if ls.len() > 0 {
        lemma_records_follow_lines::<T>(ls.drop_last());
    }
}

/// A successful parse of a text gives exactly one record per non-empty
/// line, in the order of the lines, each the record of that line's fields.
pub proof fn lemma_one_record_per_line<T: Record>(text: Seq<char>)
    requires
        text_records::<T>(text) is Ok,
    ensures
        text_records::<T>(text)->Ok_0.len() == nonempty_lines(lines(text)).len(),
        forall|k: int|
            0 <= k < nonempty_lines(lines(text)).len() ==> T::from_fields(
                fields(#[trigger] nonempty_lines(lines(text))[k]),
            ) == Ok::<T::V, FieldFault>(text_records::<T>(text)->Ok_0[k]),
{
    lemma_records_follow_lines::<T>(lines(text));
}

/// Loading the same entry of the same archive twice gives the same outcome:
/// equal records when one load succeeds, and then the other succeeds too.
pub proof fn lemma_load_repeatable<T: Record>(
    archive: Seq<u8>,
    name: Seq<char>,
    a: Result<Seq<T::V>, LoadError>,
    b: Result<Seq<T::V>, LoadError>,
)
    requires
        loaded_as::<T>(archive, name, a),
        loaded_as::<T>(archive, name, b),
        a is Ok,
    ensures
        a == b,
{
}

/// A non-empty line whose first field is no identifier fails the whole text:
/// no line is skipped and no partial collection results.
pub proof fn lemma_bad_id_fails_all<T: Record>(text: Seq<char>, k: int)
    requires
        0 <= k < lines(text).len(),
        lines(text)[k].len() > 0,
        id_of(fields(lines(text)[k])[0]) is None,
    ensures
        text_records::<T>(text) is Err,
{
    let ls = lines(text);
    let pre = ls.take(k + 1);
    assert(pre.drop_last() =~= ls.take(k));
    assert(pre.last() == ls[k]);
    crate::text::lemma_split_nonempty(ls[k], ';');
    T::lemma_bad_id(fields(ls[k]));
    lemma_failure_persists::<T>(ls, k + 1);
}

/// The records of a whole text.
pub open spec fn text_records<T: Record>(text: Seq<char>) -> Result<Seq<T::V>, LoadError> {
    records_of::<T>(lines(text))
}

/// Parses every non-empty line of `text` into a record of type `T`.
pub fn parse_records<T: Record>(text: &Vec<char>) -> (r: Result<Vec<T>, LoadError>)
    ensures
        match r {
            Ok(v) => text_records::<T>(text@) == Ok::<Seq<T::V>, LoadError>(record_views(v@)),
            Err(e) => text_records::<T>(text@) == Err::<Seq<T::V>, LoadError>(e),
        },
{
    let ls = split_on(text, '\n');
    let ghost all = lines(text@);
    assert(all.len() == ls@.len());
    let mut out: Vec<T> = Vec::new();
    let mut i: usize = 0;
    assert(record_views(out@) =~= Seq::<T::V>::empty());
    assert(all.take(0) =~= Seq::<Seq<char>>::empty());
    while i < ls.len()
        invariant
            i <= ls@.len() == all.len(),
            all == lines(text@),
            views(ls@) == split(text@, '\n'),
            records_of::<T>(all.take(i as int)) == Ok::<Seq<T::V>, LoadError>(record_views(out@)),
        decreases ls@.len() - i,
    {
        let line = &ls[i];
        let mut end: usize = line.len();
        if end > 0 && line[end - 1] == '\r' {
            end = end - 1;
        }
        let ghost l = all[i as int];
        assert(l == strip_cr(views(ls@)[i as int]));
        assert(l =~= line@.take(end as int));
        assert(all.take(i + 1).drop_last() =~= all.take(i as int));
        assert(all.take(i + 1).last() == l);
        if end > 0 {
            let f = split_prefix(line, end, ';');
            match T::parse_fields(&f) {
                Ok(x) => {
                    let ghost prev = out@;
                    out.push(x);
                    assert(record_views(out@) =~= record_views(prev).push(x@));
                },
                Err(fault) => {
                    proof {
                        lemma_failure_persists::<T>(all, i + 1);
                    }
                    return Err(LoadError::Row { line: i, fault });
                },
            }
        }
        i = i + 1;
    }
    assert(all.take(all.len() as int) =~= all);
    Ok(out)
}

/// The largest entry, in bytes, that is decoded in memory.
pub open spec fn fits_decoding(bytes: Seq<u8>) -> bool {
    bytes.len() <= usize::MAX / 4
}

/// What loading the entry of bytes `bytes` gives: `Oversized` when it is too
/// large to decode, else the records of its decoded text.
pub open spec fn entry_records<T: Record>(bytes: Seq<u8>) -> Result<Seq<T::V>, LoadError> {
    if fits_decoding(bytes) {
        text_records::<T>(cp1251_text(bytes))
    } else {
        Err(LoadError::Oversized)
    }
}

/// The outcome of loading records of type `T` from the entry `name` of the
/// zip archive `archive`: when zip can read the entry, exactly its records
/// (or the error of its first malformed line, or `Oversized`); when it
/// cannot, `Archive` or `MissingEntry`.
pub open spec fn loaded_as<T: Record>(
    archive: Seq<u8>,
    name: Seq<char>,
    r: Result<Seq<T::V>, LoadError>,
) -> bool {
    match zip_entry(archive, name) {
        None => r == Err::<Seq<T::V>, LoadError>(LoadError::Archive) || r == Err::<
            Seq<T::V>,
            LoadError,
        >(LoadError::MissingEntry),
        Some(bytes) => r == entry_records::<T>(bytes),
    }
}

pub open spec fn result_views<T: View>(r: Result<Vec<T>, LoadError>) -> Result<Seq<T::V>, LoadError> {
    match r {
        Ok(v) => Ok(record_views(v@)),
        Err(e) => Err(e),
    }
}

/// Reads the entry `name` of the zip archive `archive`, decodes it and
/// parses every non-empty line into a record of type `T`.
pub fn load_entry<T: Record>(archive: &[u8], name: &str) -> (r: Result<Vec<T>, LoadError>)
    ensures
        loaded_as::<T>(archive@, name@, result_views(r)),
{
    let bytes = unpack(archive, name)?;
    if bytes.len() > usize::MAX / 4 {
        return Err(LoadError::Oversized);
    }
    let text = decode_cp1251(bytes.as_slice());
    let cs = chars_of(text.as_str());
    parse_records::<T>(&cs)
}

/// A record with an identifier that lookups go by.
pub trait Identified: View {
    spec fn key(v: Self::V) -> u16;

    fn id(&self) -> (r: u16)
        ensures
            r == Self::key(self@),
    ;
}

/// No record with the queried identifier.
#[derive(Clone, Copy, Debug, PartialEq, Eq)]
pub struct NotFound {
    pub id: u16,
}

/// The first item whose identifier is `id`, or `NotFound` carrying `id`.
pub fn find_by_id<T: Identified>(items: &Vec<T>, id: u16) -> (r: Result<&T, NotFound>)
    ensures
        match r {
            Ok(x) => exists|i: int|
                0 <= i < items@.len() && items@[i] == *x && T::key(x@) == id && forall|j: int|
                    0 <= j < i ==> T::key(#[trigger] items@[j]@) != id,
            Err(e) => e.id == id && forall|i: int|
                0 <= i < items@.len() ==> T::key(#[trigger] items@[i]@) != id,
        },
{
    let mut i: usize = 0;
    while i < items.len()
        invariant
            i <= items@.len(),
            forall|j: int| 0 <= j < i ==> T::key(#[trigger] items@[j]@) != id,
        decreases items@.len() - i,
    {
        if items[i].id() == id {
            return Ok(&items[i]);
        }
        i = i + 1;
    }
    Err(NotFound { id })
}

} // verus!
