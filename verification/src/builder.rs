//! The build-time pipeline: consume the source dataset as a stream of lines,
//! skip its single header line, parse each record, and construct the
//! immutable `ShiftTable`.
//!
//! A duplicate identifier in the source overwrites the earlier record — the
//! table holds whichever value appeared last in the stream. This mirrors the
//! dataset's documented (if debatable) semantics; the dataset is not expected
//! to contain duplicates in practice.

use vstd::prelude::*;

use std::collections::HashMap;

use crate::grid::spec_key;
use crate::parse::ParseError;
use crate::parse::parse_line;
use crate::parse::spec_parse_line;
use crate::shift::Shift;
use crate::shift::ShiftRecord;
use crate::shift::triple_of;
use crate::table::ShiftTable;
use crate::table::assoc_map;
use crate::table::distinct_keys;
use crate::table::idx_of;

verus! {

broadcast use vstd::std_specs::hash::group_hash_axioms;

/// The key column that building from the record stream `rs` produces: each
/// identifier once, in order of first appearance.
pub open spec fn built_ids(rs: Seq<ShiftRecord>) -> Seq<i32>
    decreases rs.len(),
{
    if rs.len() == 0 {
        Seq::empty()
    } else {
        let prev = built_ids(rs.drop_last());
        if prev.contains(rs.last().id) {
            prev
        } else {
            prev.push(rs.last().id)
        }
    }
}

/// The value column that building from `rs` produces, positionally matching
/// `built_ids(rs)`: a repeated identifier overwrites its earlier triple.
pub open spec fn built_triples(rs: Seq<ShiftRecord>) -> Seq<(Shift, Shift, Shift)>
    decreases rs.len(),
{
    if rs.len() == 0 {
        Seq::empty()
    } else {
        let prev_ids = built_ids(rs.drop_last());
        let prev = built_triples(rs.drop_last());
        let r = rs.last();
        if prev_ids.contains(r.id) {
            prev.update(idx_of(prev_ids, r.id), triple_of(r))
        } else {
            prev.push(triple_of(r))
        }
    }
}

/// The mapping the record stream `rs` stands for: identifier to shift
/// triple, later occurrences of an identifier overriding earlier ones.
pub open spec fn records_map(rs: Seq<ShiftRecord>) -> Map<i32, (Shift, Shift, Shift)>
    decreases rs.len(),
{
    if rs.len() == 0 {
        Map::empty()
    } else {
        records_map(rs.drop_last()).insert(rs.last().id, triple_of(rs.last()))
    }
}

/// The build columns are well formed, and stand for exactly the mapping of
/// the record stream.
pub proof fn lemma_built_wf(rs: Seq<ShiftRecord>)
    ensures
        built_ids(rs).len() == built_triples(rs).len(),
        built_ids(rs).len() <= rs.len(),
        distinct_keys(built_ids(rs)),
        assoc_map(built_ids(rs), built_triples(rs)) == records_map(rs),
    decreases rs.len(),
{
    if rs.len() == 0 {
        assert(assoc_map(built_ids(rs), built_triples(rs)) =~= records_map(rs));
    } else {
        let prev = rs.drop_last();
        lemma_built_wf(prev);
        let pids = built_ids(prev);
        let pvals = built_triples(prev);
        let ids = built_ids(rs);
        let vals = built_triples(rs);
        let r = rs.last();
        if pids.contains(r.id) {
            let ix = idx_of(pids, r.id);
            assert(0 <= ix < pids.len() && pids[ix] == r.id);
            assert forall|k: i32| #[trigger] ids.contains(k) implies assoc_map(ids, vals)[k]
                == records_map(rs)[k] by {
                let c = idx_of(ids, k);
                assert(0 <= c < ids.len() && ids[c] == k);
                if k == r.id {
                    assert(c == ix);
                } else {
                    assert(c != ix);
                    assert(assoc_map(pids, pvals).dom().contains(k));
                    assert(records_map(prev)[k] == pvals[c]);
                }
            }
            assert(assoc_map(ids, vals) =~= records_map(rs));
        } else {
            assert(forall|i: int| 0 <= i < pids.len() ==> pids[i] != r.id);
            assert forall|i: int, j: int| 0 <= i < j < ids.len() implies ids[i] != ids[j] by {
                if j < pids.len() {
                    assert(ids[i] == pids[i] && ids[j] == pids[j]);
                } else {
                    assert(j == pids.len());
                    assert(ids[i] == pids[i]);
                }
            }
            assert forall|k: i32| #[trigger] ids.contains(k) implies assoc_map(ids, vals)[k]
                == records_map(rs)[k] by {
                let c = idx_of(ids, k);
                assert(0 <= c < ids.len() && ids[c] == k);
                if k == r.id {
                    assert(c == pids.len());
                    assert(vals[c] == triple_of(r));
                } else {
                    assert(c < pids.len());
                    assert(pids.contains(k));
                    let c2 = idx_of(pids, k);
                    assert(0 <= c2 < pids.len() && pids[c2] == k);
                    assert(ids[c2] == k);
                    assert(c == c2);
                    assert(records_map(prev)[k] == pvals[c2]);
                }
            }
            assert forall|k: i32| #[trigger] records_map(rs).dom().contains(k) implies
                ids.contains(k) by {
                if k == r.id {
                    assert(ids[pids.len() as int] == k);
                } else {
                    assert(pids.contains(k));
                    let c2 = idx_of(pids, k);
                    assert(ids[c2] == k);
                }
            }
            assert(assoc_map(ids, vals) =~= records_map(rs));
        }
    }
}

/// The table was built from the record stream `rs`.
pub open spec fn built_from(t: ShiftTable, rs: Seq<ShiftRecord>) -> bool {
    t.keys_seq() == built_ids(rs) && t.values_seq() == built_triples(rs)
}

/// Round trip from source to query: a table built from the stream `rs`
/// stands for exactly the mapping of `rs` — every identifier in the source
/// resolves to the triple of its last occurrence, and no other identifier
/// resolves at all.
pub proof fn lemma_table_matches_source(t: ShiftTable, rs: Seq<ShiftRecord>)
    requires
        built_from(t, rs),
    ensures
        t.as_map() == records_map(rs),
{
    lemma_built_wf(rs);
}

/// Round trip through the grid encoding: when a source record's identifier
/// is the key of the grid cell `(e, n)`, a built table resolves that cell to
/// exactly the source triple — the triple of the identifier's last
/// occurrence in the stream. Together with the contract of `get_shifts`,
/// which returns `as_map()` at the encoded key, this pins the query result
/// for every identifier in the source.
pub proof fn lemma_roundtrip_source_to_lookup(t: ShiftTable, rs: Seq<ShiftRecord>, e: int, n: int)
    requires
        built_from(t, rs),
        i32::MIN <= spec_key(e, n) <= i32::MAX,
        records_map(rs).dom().contains(spec_key(e, n) as i32),
    ensures
        t.as_map().dom().contains(spec_key(e, n) as i32),
        t.as_map()[spec_key(e, n) as i32] == records_map(rs)[spec_key(e, n) as i32],
{
    lemma_table_matches_source(t, rs);
}

/// Idempotence of the build: two tables built from the same record stream
/// hold identical keys, identical values, and stand for the same mapping.
pub proof fn lemma_rebuild_identical(t1: ShiftTable, t2: ShiftTable, rs: Seq<ShiftRecord>)
    requires
        built_from(t1, rs),
        built_from(t2, rs),
    ensures
        t1.keys_seq() == t2.keys_seq(),
        t1.values_seq() == t2.values_seq(),
        t1.as_map() == t2.as_map(),
{
}

/// What parsing a stream of data lines yields: the records in order, or the
/// first line's error.
pub open spec fn parse_records(lines: Seq<Seq<u8>>) -> Result<Seq<ShiftRecord>, ParseError>
    decreases lines.len(),
{
    if lines.len() == 0 {
        Ok(Seq::empty())
    } else {
        match parse_records(lines.drop_last()) {
            Ok(rs) => match spec_parse_line(lines.last()) {
                Ok(r) => Ok(rs.push(r)),
                Err(e) => Err(e),
            },
            Err(e) => Err(e),
        }
    }
}

/// An error in a prefix of the stream is the error of the whole stream.
proof fn lemma_parse_records_prefix_err(lines: Seq<Seq<u8>>, k: int, e: ParseError)
    requires
        0 <= k <= lines.len(),
        parse_records(lines.take(k)) == Err::<Seq<ShiftRecord>, ParseError>(e),
    ensures
        parse_records(lines) == Err::<Seq<ShiftRecord>, ParseError>(e),
    decreases lines.len(),
{
    if k == lines.len() {
        assert(lines.take(k) =~= lines);
    } else {
        assert(lines.drop_last().take(k) =~= lines.take(k));
        lemma_parse_records_prefix_err(lines.drop_last(), k, e);
    }
}

/// The data lines of a source: everything after the single header line.
pub open spec fn data_lines(lines: Seq<Seq<u8>>) -> Seq<Seq<u8>> {
    if lines.len() == 0 {
        lines
    } else {
        lines.drop_first()
    }
}

/// Build the table from a whole source at once: skip the header line, parse
/// every data line, and construct the table — or stop at the first rejected
/// line and report it, producing no table. A partial table would silently
/// mis-answer queries, so nothing is returned on error.
pub fn build_table(lines: &Vec<Vec<u8>>) -> (r: Result<ShiftTable, ParseError>)
    requires
        lines@.len() <= 0xFFFF_FFFF,
    ensures
        ({
            let dls = data_lines(lines@.map_values(|l: Vec<u8>| l@));
            match r {
                Ok(t) => parse_records(dls) is Ok && built_from(t, parse_records(dls)->Ok_0),
                Err(e) => parse_records(dls) == Err::<Seq<ShiftRecord>, ParseError>(e),
            }
        }),
{
    let ghost dls = data_lines(lines@.map_values(|l: Vec<u8>| l@));
    let mut b = TableBuilder::new();
    let mut i: usize = 0;
    while i < lines.len()
        invariant
            b.wf(),
            i <= lines@.len(),
            lines@.len() <= 0xFFFF_FFFF,
            dls == data_lines(lines@.map_values(|l: Vec<u8>| l@)),
            dls.len() == if lines@.len() == 0 { 0int } else { lines@.len() - 1 },
            forall|m: int| 0 <= m < dls.len() ==> dls[m] == lines@[m + 1]@,
            i == 0 ==> !b.saw_header() && b.pushed_recs() == Seq::<ShiftRecord>::empty(),
            i > 0 ==> b.saw_header() && parse_records(dls.take(i - 1)) == Ok::<
                Seq<ShiftRecord>,
                ParseError,
            >(b.pushed_recs()),
            b.pushed_recs().len() <= i,
        decreases lines@.len() - i,
    {
        let ghost pushed0 = b.pushed_recs();
        let res = b.push_line(lines[i].as_slice());
        proof {
            if i > 0 {
                assert(dls.take(i as int).drop_last() =~= dls.take(i - 1));
                assert(dls.take(i as int).last() == dls[i - 1]);
                assert(dls[i - 1] == lines@[i as int]@);
            }
        }
        match res {
            Ok(()) => {
                proof {
                    if i > 0 {
                        assert(parse_records(dls.take(i as int)) == Ok::<
                            Seq<ShiftRecord>,
                            ParseError,
                        >(b.pushed_recs()));
                    }
                }
            },
            Err(e) => {
                proof {
                    assert(parse_records(dls.take(i as int)) == Err::<
                        Seq<ShiftRecord>,
                        ParseError,
                    >(e));
                    lemma_parse_records_prefix_err(dls, i as int, e);
                }
                return Err(e);
            },
        }
        i += 1;
    }
    proof {
        if lines@.len() > 0 {
            assert(dls.take(lines@.len() - 1) =~= dls);
        }
        assert(parse_records(dls) == Ok::<Seq<ShiftRecord>, ParseError>(b.pushed_recs()));
    }
    Ok(b.finish())
}

/// Streaming construction of the table: feed the source's lines one at a
/// time — the first is skipped as the header — then `finish`.
pub struct TableBuilder {
    header_seen: bool,
    ids: Vec<i32>,
    triples: Vec<(Shift, Shift, Shift)>,
    index: HashMap<i32, usize>,
    pushed: Ghost<Seq<ShiftRecord>>,
}

impl TableBuilder {
    /// The builder's columns are exactly what its record stream builds, and
    /// the index maps each identifier to its position in the key column.
    pub closed spec fn wf(self) -> bool {
        &&& self.ids@ == built_ids(self.pushed@)
        &&& self.triples@ == built_triples(self.pushed@)
        &&& (forall|i: int|
            0 <= i < self.ids@.len() ==> self.index@.contains_key(#[trigger] self.ids@[i])
                && self.index@[self.ids@[i]] == i as usize)
        &&& (forall|k: i32| #[trigger] self.index@.contains_key(k) ==> self.ids@.contains(k))
    }

    /// The records accepted so far, in stream order.
    pub closed spec fn pushed_recs(self) -> Seq<ShiftRecord> {
        self.pushed@
    }

    /// Whether the single header line has been consumed.
    pub closed spec fn saw_header(self) -> bool {
        self.header_seen
    }

    pub fn new() -> (b: TableBuilder)
        ensures
            b.wf(),
            b.pushed_recs() == Seq::<ShiftRecord>::empty(),
            !b.saw_header(),
    {
        TableBuilder {
            header_seen: false,
            ids: Vec::new(),
            triples: Vec::new(),
            index: HashMap::new(),
            pushed: Ghost(Seq::empty()),
        }
    }

    /// Accept one record: a new identifier is appended, a repeated one
    /// overwrites the triple stored for it.
    pub fn push_record(&mut self, rec: ShiftRecord)
        requires
            old(self).wf(),
        ensures
            final(self).wf(),
            final(self).pushed_recs() == old(self).pushed_recs().push(rec),
            final(self).saw_header() == old(self).saw_header(),
    {
        proof {
            lemma_built_wf(self.pushed@);
        }
        let ghost rs0 = self.pushed@;
        let ghost ids0 = self.ids@;
        let ghost idx0 = self.index@;
        match self.index.get(&rec.id) {
            Some(i) => {
                let i = *i;
                proof {
                    assert(self.ids@.contains(rec.id));
                    let w = choose|w: int| 0 <= w < self.ids@.len() && self.ids@[w] == rec.id;
                    assert(self.index@[self.ids@[w]] == w as usize);
                    assert(i == w as usize);
                }
                self.triples.set(i, (rec.easting_shift, rec.northing_shift, rec.height_shift));
            },
            None => {
                proof {
                    if self.ids@.contains(rec.id) {
                        let w = choose|w: int|
                            0 <= w < self.ids@.len() && self.ids@[w] == rec.id;
                        assert(self.index@.contains_key(self.ids@[w]));
                        assert(false);
                    }
                }
                let n = self.ids.len();
                self.ids.push(rec.id);
                self.triples.push((rec.easting_shift, rec.northing_shift, rec.height_shift));
                self.index.insert(rec.id, n);
                proof {
                    assert(forall|w: int| 0 <= w < ids0.len() ==> ids0[w] != rec.id);
                    assert forall|ii: int| 0 <= ii < self.ids@.len() implies self.index@
                        .contains_key(#[trigger] self.ids@[ii]) && self.index@[self.ids@[ii]]
                        == ii as usize by {
                        if ii < n {
                            assert(self.ids@[ii] == ids0[ii]);
                            assert(ids0[ii] != rec.id);
                        } else {
                            assert(self.ids@[ii] == rec.id);
                        }
                    }
                    assert forall|k: i32| #[trigger] self.index@.contains_key(k) implies self.ids@
                        .contains(k) by {
                        if k == rec.id {
                            assert(self.ids@[n as int] == k);
                        } else {
                            assert(idx0.contains_key(k));
                            assert(ids0.contains(k));
                            let w = choose|w: int| 0 <= w < ids0.len() && ids0[w] == k;
                            assert(self.ids@[w] == k);
                        }
                    }
                }
            },
        }
        proof {
            self.pushed@ = rs0.push(rec);
            assert(rs0.push(rec).drop_last() =~= rs0);
            assert(rs0.push(rec).last() == rec);
            if built_ids(rs0).contains(rec.id) {
                let c = idx_of(built_ids(rs0), rec.id);
                assert(0 <= c < built_ids(rs0).len() && built_ids(rs0)[c] == rec.id);
            }
        }
    }

    /// Accept one line of the source. The first line handed to the builder
    /// is the header and is skipped without being read; every later line
    /// must parse as a record. A rejected line leaves the builder unchanged
    /// and is fatal to the build: the caller must not continue to `finish`
    /// as if the stream were complete.
    pub fn push_line(&mut self, line: &[u8]) -> (r: Result<(), ParseError>)
        requires
            old(self).wf(),
        ensures
            final(self).wf(),
            final(self).saw_header(),
            !old(self).saw_header() ==> r == Ok::<(), ParseError>(()) && final(self).pushed_recs()
                == old(self).pushed_recs(),
            old(self).saw_header() ==> match spec_parse_line(line@) {
                Ok(rec) => r == Ok::<(), ParseError>(()) && final(self).pushed_recs() == old(
                    self,
                ).pushed_recs().push(rec),
                Err(e) => r == Err::<(), ParseError>(e) && final(self).pushed_recs() == old(
                    self,
                ).pushed_recs(),
            },
    {
        if !self.header_seen {
            self.header_seen = true;
            return Ok(());
        }
        match parse_line(line) {
            Ok(rec) => {
                self.push_record(rec);
                Ok(())
            },
            Err(e) => Err(e),
        }
    }

    /// Finalize the map into its immutable form. The record stream is
    /// consumed; what remains is the read-only table.
    pub fn finish(self) -> (t: ShiftTable)
        requires
            self.wf(),
            self.pushed_recs().len() <= 0xFFFF_FFFF,
        ensures
            built_from(t, self.pushed_recs()),
    {
        proof {
            lemma_built_wf(self.pushed@);
        }
        ShiftTable::from_parts(self.ids, self.triples)
    }
}

} // verus!
