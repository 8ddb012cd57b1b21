//! The data table: one `mileage,price` record per line, an optional header.

use vstd::prelude::*;
use crate::lexical::{COMMA, LF, is_numeral, trim, trim_end, trim_range, trim_start};
use crate::pair::{NumeralPair, lemma_pair_round_trip, split_pair, split_pair_range};

verus! {

/// The pieces of `s` between line feeds, as `str::split('\n')` gives them:
/// never empty, and a final line feed leaves an empty last piece.
pub open spec fn lines(s: Seq<u8>) -> Seq<Seq<u8>>
    decreases s.len(),
{
    if s.len() == 0 {
        seq![Seq::empty()]
    } else {
        let init = lines(s.drop_last());
        if s.last() == LF {
            init.push(Seq::empty())
        } else {
            init.update(init.len() - 1, init.last().push(s.last()))
        }
    }
}

/// What line `index` (counted from 0) adds to the records read before it,
/// or the index of the first line that cannot be read. A blank line adds
/// nothing; the first line, where it is no record, is a header.
pub open spec fn read_line(
    index: int,
    line: Seq<u8>,
    before: Result<Seq<(Seq<u8>, Seq<u8>)>, int>,
) -> Result<Seq<(Seq<u8>, Seq<u8>)>, int> {
    match before {
        Err(k) => Err(k),
        Ok(rs) => if trim(line).len() == 0 {
            Ok(rs)
        } else {
            match split_pair(line) {
                Some(r) => Ok(rs.push(r)),
                None => if index == 0 {
                    Ok(rs)
                } else {
                    Err(index)
                },
            }
        },
    }
}

/// The records of a sequence of lines, in order.
pub open spec fn records_of(ls: Seq<Seq<u8>>) -> Result<Seq<(Seq<u8>, Seq<u8>)>, int>
    decreases ls.len(),
{
    if ls.len() == 0 {
        Ok(Seq::empty())
    } else {
        read_line(ls.len() - 1, ls.last(), records_of(ls.drop_last()))
    }
}

/// The records of a data table.
pub open spec fn table(s: Seq<u8>) -> Result<Seq<(Seq<u8>, Seq<u8>)>, int> {
    records_of(lines(s))
}

pub open spec fn pair_views(v: Seq<NumeralPair>) -> Seq<(Seq<u8>, Seq<u8>)> {
    v.map_values(|p: NumeralPair| p@)
}

/// A line of the table that is neither blank, nor a record, nor the header.
#[derive(Debug, Clone, Copy, PartialEq, Eq)]
pub enum DataError {
    /// The line's number, counted from 1.
    MalformedLine { line: usize },
}

proof fn lemma_lines_nonempty(s: Seq<u8>)
    ensures
        lines(s).len() >= 1,
    decreases s.len(),
{
    if s.len() > 0 {
        lemma_lines_nonempty(s.drop_last());
    }
}

/// A record written as a line, without its line feed.
pub open spec fn record_line(r: (Seq<u8>, Seq<u8>)) -> Seq<u8> {
    r.0 + seq![COMMA] + r.1
}

/// Records written one per line, each line ended by a line feed.
pub open spec fn table_text(rs: Seq<(Seq<u8>, Seq<u8>)>) -> Seq<u8>
    decreases rs.len(),
{
    if rs.len() == 0 {
        Seq::empty()
    } else {
        table_text(rs.drop_last()) + record_line(rs.last()) + seq![LF]
    }
}

pub open spec fn is_numeral_record(r: (Seq<u8>, Seq<u8>)) -> bool {
    is_numeral(r.0) && is_numeral(r.1)
}

proof fn lemma_lines_single(u: Seq<u8>)
    requires
        forall|i: int| 0 <= i < u.len() ==> #[trigger] u[i] != LF,
    ensures
        lines(u) == seq![u],
    decreases u.len(),
{
    if u.len() == 0 {
        assert(u =~= Seq::<u8>::empty());
        assert(lines(u) =~= seq![u]);
    } else {
        assert forall|i: int| 0 <= i < u.drop_last().len() implies #[trigger] u.drop_last()[i]
            != LF by {
            assert(u.drop_last()[i] == u[i]);
        }
        lemma_lines_single(u.drop_last());
        assert(u.last() != LF);
        assert(u.drop_last().push(u.last()) =~= u);
        assert(lines(u) =~= seq![u]);
    }
}

proof fn lemma_lines_append(s: Seq<u8>, t: Seq<u8>)
    requires
        s.len() > 0,
        s.last() == LF,
    ensures
        lines(s + t) == lines(s).drop_last() + lines(t),
    decreases t.len(),
{
    if t.len() == 0 {
        assert(s + t =~= s);
        assert(lines(s).drop_last() + lines(t) =~= lines(s));
    } else {
        assert((s + t).drop_last() =~= s + t.drop_last());
        assert((s + t).last() == t.last());
        lemma_lines_append(s, t.drop_last());
        lemma_lines_nonempty(t.drop_last());
        assert(lines(s + t) =~= lines(s).drop_last() + lines(t));
    }
}

proof fn lemma_record_line(r: (Seq<u8>, Seq<u8>))
    requires
        is_numeral_record(r),
    ensures
        trim(record_line(r)).len() > 0,
        split_pair(record_line(r)) == Some(r),
        forall|i: int| 0 <= i < record_line(r).len() ==> #[trigger] record_line(r)[i] != LF,
{
    let u = record_line(r);
    lemma_pair_round_trip(r.0, r.1);
    assert(u[0] == r.0[0]);
    assert(trim_start(u) == u);
    assert(u.last() == r.1.last());
    assert(trim_end(u) == u);
    assert forall|i: int| 0 <= i < u.len() implies #[trigger] u[i] != LF by {
        if i < r.0.len() {
            assert(u[i] == r.0[i]);
            if r.0[0] == crate::lexical::MINUS || r.0[0] == crate::lexical::PLUS {
                if i > 0 {
                    assert(r.0[i] == r.0.drop_first()[i - 1]);
                }
            }
        } else if i > r.0.len() {
            let k = i - r.0.len() - 1;
            assert(u[i] == r.1[k]);
            if r.1[0] == crate::lexical::MINUS || r.1[0] == crate::lexical::PLUS {
                if k > 0 {
                    assert(r.1[k] == r.1.drop_first()[k - 1]);
                }
            }
        }
    }
}

proof fn lemma_table_lines(rs: Seq<(Seq<u8>, Seq<u8>)>)
    requires
        forall|i: int| 0 <= i < rs.len() ==> is_numeral_record(#[trigger] rs[i]),
    ensures
        lines(table_text(rs)) == rs.map_values(|r: (Seq<u8>, Seq<u8>)| record_line(r)).push(
            Seq::empty(),
        ),
        rs.len() > 0 ==> table_text(rs).len() > 0 && table_text(rs).last() == LF,
    decreases rs.len(),
{
    let m = rs.map_values(|r: (Seq<u8>, Seq<u8>)| record_line(r));
    if rs.len() == 0 {
        assert(lines(table_text(rs)) =~= m.push(Seq::empty()));
    } else {
        let init = rs.drop_last();
        assert forall|i: int| 0 <= i < init.len() implies is_numeral_record(#[trigger] init[i]) by {
            assert(init[i] == rs[i]);
        }
        lemma_table_lines(init);
        let u = record_line(rs.last());
        assert(is_numeral_record(rs[rs.len() - 1]));
        lemma_record_line(rs.last());
        lemma_lines_single(u);
        let tail = u + seq![LF];
        assert(tail.drop_last() =~= u);
        assert(lines(tail) =~= seq![u, Seq::empty()]);
        assert(table_text(rs) == table_text(init) + tail) by {
            assert(table_text(init) + u + seq![LF] =~= table_text(init) + tail);
        }
        if init.len() == 0 {
            assert(table_text(init) + tail =~= tail);
        } else {
            lemma_lines_append(table_text(init), tail);
        }
        let mi = init.map_values(|r: (Seq<u8>, Seq<u8>)| record_line(r));
        assert(m =~= mi.push(u));
        assert(lines(table_text(rs)) =~= m.push(Seq::empty()));
    }
}

proof fn lemma_records_of_lines(rs: Seq<(Seq<u8>, Seq<u8>)>)
    requires
        forall|i: int| 0 <= i < rs.len() ==> is_numeral_record(#[trigger] rs[i]),
    ensures
        records_of(rs.map_values(|r: (Seq<u8>, Seq<u8>)| record_line(r))) == Ok::<_, int>(rs),
    decreases rs.len(),
{
    let m = rs.map_values(|r: (Seq<u8>, Seq<u8>)| record_line(r));
    if rs.len() == 0 {
        assert(rs =~= Seq::empty());
    } else {
        let init = rs.drop_last();
        assert forall|i: int| 0 <= i < init.len() implies is_numeral_record(#[trigger] init[i]) by {
            assert(init[i] == rs[i]);
        }
        lemma_records_of_lines(init);
        assert(m.last() == record_line(rs.last()));
        assert(m.drop_last() =~= init.map_values(|r: (Seq<u8>, Seq<u8>)| record_line(r)));
        assert(is_numeral_record(rs[rs.len() - 1]));
        lemma_record_line(rs.last());
        assert(init.push(rs.last()) =~= rs);
    }
}

/// Records of numerals written one per line read back as the same records,
/// in the same order.
pub proof fn lemma_table_round_trip(rs: Seq<(Seq<u8>, Seq<u8>)>)
    requires
        forall|i: int| 0 <= i < rs.len() ==> is_numeral_record(#[trigger] rs[i]),
    ensures
        table(table_text(rs)) == Ok::<_, int>(rs),
{
    lemma_table_lines(rs);
    lemma_records_of_lines(rs);
    let ls = lines(table_text(rs));
    assert(ls.drop_last() =~= rs.map_values(|r: (Seq<u8>, Seq<u8>)| record_line(r)));
    assert(trim_start(Seq::<u8>::empty()) == Seq::<u8>::empty());
    assert(trim_end(Seq::<u8>::empty()) == Seq::<u8>::empty());
}

/// Reader of the data table.
pub struct DataParser;

impl DataParser {
    /// Reads `text` as a table of `mileage,price` records, one per line, in
    /// the order of the lines. Blank lines are skipped, and so is the first
    /// line where it is not a record (a header). Any other line that is not
    /// a record fails the whole table.
    pub fn parse_records(text: &[u8]) -> (r: Result<Vec<NumeralPair>, DataError>)
        ensures
            r matches Ok(v) ==> table(text@) == Ok::<_, int>(pair_views(v@)),
            r matches Err(DataError::MalformedLine { line }) ==> table(text@) == Err::<
                Seq<(Seq<u8>, Seq<u8>)>,
                int,
            >(line - 1),
    {
        let ghost s = text@;
        let n = text.len();
        let mut records: Vec<NumeralPair> = Vec::new();
        let mut failed: Option<usize> = None;
        let mut start: usize = 0;
        let mut index: usize = 0;
        let mut i: usize = 0;
        proof {
            assert(s.take(0) =~= Seq::<u8>::empty());
            assert(pair_views(records@) =~= Seq::empty());
            assert(lines(s.take(0)).drop_last() =~= Seq::empty());
        }
        while i < n
            invariant
                n == s.len(),
                s == text@,
                start <= i <= n,
                index <= start,
                failed matches Some(k) ==> k < i,
                lines(s.take(i as int)).len() == index + 1,
                lines(s.take(i as int)).last() == s.subrange(start as int, i as int),
                match failed {
                    Some(k) => records_of(lines(s.take(i as int)).drop_last()) == Err::<
                        Seq<(Seq<u8>, Seq<u8>)>,
                        int,
                    >(k as int),
                    None => records_of(lines(s.take(i as int)).drop_last()) == Ok::<_, int>(
                        pair_views(records@),
                    ),
                },
            decreases n - i,
        {
            let ghost ls = lines(s.take(i as int));
            assert(s.take(i + 1).drop_last() =~= s.take(i as int));
            assert(s.take(i + 1).last() == s[i as int]);
            if text[i] == LF {
                assert(lines(s.take(i + 1)) == ls.push(Seq::empty()));
                assert(lines(s.take(i + 1)).drop_last() =~= ls);
                assert(ls =~= ls.drop_last().push(ls.last()));
                if failed.is_none() {
                    match Self::read_line(text, start, i, index, &mut records) {
                        Ok(()) => {},
                        Err(()) => {
                            failed = Some(index);
                        },
                    }
                }
                start = i + 1;
                index = index + 1;
                assert(s.subrange(start as int, i + 1) =~= Seq::<u8>::empty());
            } else {
                proof { lemma_lines_nonempty(s.take(i as int)); }
                assert(lines(s.take(i + 1)).drop_last() =~= ls.drop_last());
                assert(s.subrange(start as int, i + 1) =~= s.subrange(start as int, i as int).push(
                    s[i as int],
                ));
            }
            i = i + 1;
        }
        assert(s.take(n as int) =~= s);
        let ls = Ghost(lines(s));
        assert(ls@ =~= ls@.drop_last().push(ls@.last()));
        if failed.is_none() {
            match Self::read_line(text, start, n, index, &mut records) {
                Ok(()) => {},
                Err(()) => {
                    failed = Some(index);
                },
            }
        }
        match failed {
            Some(k) => Err(DataError::MalformedLine { line: k + 1 }),
            None => Ok(records),
        }
    }

    /// Reads line `index`, `text[lo..hi]`, after the records in `records`.
    fn read_line(
        text: &[u8],
        lo: usize,
        hi: usize,
        index: usize,
        records: &mut Vec<NumeralPair>,
    ) -> (r: Result<(), ()>)
        requires
            lo <= hi <= text@.len(),
        ensures
            r is Ok ==> read_line(
                index as int,
                text@.subrange(lo as int, hi as int),
                Ok(pair_views(old(records)@)),
            ) == Ok::<_, int>(pair_views(final(records)@)),
            r is Err ==> lo < hi,
            r is Err ==> read_line(
                index as int,
                text@.subrange(lo as int, hi as int),
                Ok(pair_views(old(records)@)),
            ) == Err::<Seq<(Seq<u8>, Seq<u8>)>, int>(index as int),
    {
        let (a, b) = trim_range(text, lo, hi);
        if a == b {
            return Ok(());
        }
        match split_pair_range(text, lo, hi) {
            Some(p) => {
                records.push(p);
                assert(pair_views(records@) =~= pair_views(old(records)@).push(p@));
                Ok(())
            },
            None => if index == 0 {
                Ok(())
            } else {
                Err(())
            },
        }
    }
}

} // verus!
