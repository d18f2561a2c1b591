//! The engine behind the four user-facing operations: recycle, restore,
//! list, empty.
//!
//! Each operation is a decision over plain values. The shell reports the
//! filesystem facts an operation depends on (does the source exist, is
//! the destination occupied, which entries sit in the bin) and carries
//! out the moves and deletions an operation returns; everything between
//! — naming, selection, log bookkeeping, error choice — happens here.

use vstd::prelude::*;

use crate::binstore::{
    entry_name, entry_name_spec, lemma_entry_name_roundtrip, lemma_entry_name_seg_wf,
    parse_entry_name, split_stamp,
};
use crate::errors::RsycleError;
use crate::logfmt::{csv_doc_ok, csv_encode_row, csv_parse_rows, csv_row_of, csv_rows_of, row_views};
use crate::reloclog::{
    last_match_relocated, rec_wf, select_best, RelocationLog, RelocationRecord,
};
use crate::resolve::{build_path, bytes_of, copy_bytes, path_eq, path_wf, resolve_spec, seg_wf,
    views_of, AbsPath};

verus! {

/// A physical move the shell must carry out: rename `from` to `to`.
#[derive(Debug)]
pub struct MoveAction {
    pub from: AbsPath,
    pub to: AbsPath,
}

/// What a decided recycle asks of the shell: append `log_row` to the log
/// file and flush it, and only then rename `from` to `to` — a bin entry
/// without a durable record would be unrecoverable, while a record for a
/// move that never happened is harmless.
#[derive(Debug)]
pub struct RecyclePlan {
    pub from: AbsPath,
    pub to: AbsPath,
    pub log_row: Vec<u8>,
}

/// One line of a listing: where the entry came from, where it now sits,
/// and when it was recycled.
#[derive(Debug)]
pub struct ListRecord {
    pub original: AbsPath,
    pub current: AbsPath,
    pub recycled_at: u64,
}

/// The record views of a log: (original, relocated) per record.
pub open spec fn rec_views(recs: Seq<RelocationRecord>) -> Seq<(Seq<Seq<u8>>, Seq<Seq<u8>>)> {
    Seq::new(recs.len(), |i: int| (recs[i].original@, recs[i].relocated@))
}

/// The view triples of a listing: (original, current, recycled_at).
pub open spec fn list_views(s: Seq<ListRecord>) -> Seq<(Seq<Seq<u8>>, Seq<Seq<u8>>, u64)> {
    Seq::new(s.len(), |i: int| (s[i].original@, s[i].current@, s[i].recycled_at))
}

/// Where a recycle of `original` at `now` puts the file: the bin entry
/// named after the file's base name and the time.
pub open spec fn recycle_dest(bin: Seq<Seq<u8>>, original: Seq<Seq<u8>>, now: u64) -> Seq<
    Seq<u8>,
> {
    bin.push(entry_name_spec(original.last(), now))
}

/// Whether some record already names `dest` as its relocated path.
pub open spec fn dest_taken(recs: Seq<RelocationRecord>, dest: Seq<Seq<u8>>) -> bool {
    exists|i: int| 0 <= i < recs.len() && (#[trigger] recs[i]).relocated@ == dest
}

/// Whether a persisted row forms a well-formed record for bin `bin` once
/// both columns are read as absolute canonical paths.
pub open spec fn row_ok(bin: Seq<Seq<u8>>, row: (Seq<u8>, Seq<u8>)) -> bool {
    let o = resolve_spec(Seq::<Seq<u8>>::empty(), row.0);
    let c = resolve_spec(Seq::<Seq<u8>>::empty(), row.1);
    &&& o.len() > 0
    &&& c.len() == bin.len() + 1
    &&& c.drop_last() == bin
    &&& split_stamp(c.last()) is Some
}

/// The records a persisted row sequence loads to, in order; rows that do
/// not form a well-formed record for this bin are dropped.
pub open spec fn load_spec(bin: Seq<Seq<u8>>, rows: Seq<(Seq<u8>, Seq<u8>)>) -> Seq<
    (Seq<Seq<u8>>, Seq<Seq<u8>>),
>
    decreases rows.len(),
{
    if rows.len() == 0 {
        Seq::empty()
    } else {
        let rest = load_spec(bin, rows.drop_last());
        let row = rows.last();
        if row_ok(bin, row) {
            rest.push(
                (
                    resolve_spec(Seq::<Seq<u8>>::empty(), row.0),
                    resolve_spec(Seq::<Seq<u8>>::empty(), row.1),
                ),
            )
        } else {
            rest
        }
    }
}

/// What a listing of the bin entries `entries` returns: for each entry
/// carrying a parseable stamp, in order, the original path of the last
/// record naming it, its current path, and its stamp; entries without a
/// stamp are silently skipped — they are not managed by this system —
/// and a stamped entry no record names fails the listing with
/// `NoMatchingEntry`.
pub open spec fn list_spec(
    bin: Seq<Seq<u8>>,
    recs: Seq<RelocationRecord>,
    entries: Seq<Seq<u8>>,
) -> Result<Seq<(Seq<Seq<u8>>, Seq<Seq<u8>>, u64)>, RsycleError>
    decreases entries.len(),
{
    if entries.len() == 0 {
        Ok(Seq::empty())
    } else {
        let prefix = list_spec(bin, recs, entries.drop_last());
        if prefix is Err {
            prefix
        } else {
            let name = entries.last();
            match split_stamp(name) {
                Option::None => prefix,
                Option::Some(pair) => {
                    let cp = bin.push(name);
                    match last_match_relocated(recs, cp) {
                        Option::None => Err(RsycleError::NoMatchingEntry),
                        Option::Some(j) => Ok(prefix.unwrap().push((recs[j].original@, cp, pair.1))),
                    }
                },
            }
        }
    }
}

/// The line a single bin entry contributes to a listing, if any: its
/// stamp, its path in the bin, and the original path of the last record
/// naming it.
pub open spec fn line_of(
    bin: Seq<Seq<u8>>,
    recs: Seq<RelocationRecord>,
    name: Seq<u8>,
) -> Option<(Seq<Seq<u8>>, Seq<Seq<u8>>, u64)> {
    match split_stamp(name) {
        Option::None => None,
        Option::Some(pair) => match last_match_relocated(recs, bin.push(name)) {
            Option::None => None,
            Option::Some(j) => Some((recs[j].original@, bin.push(name), pair.1)),
        },
    }
}

/// Once some prefix of the entries fails the listing, the whole listing
/// fails the same way.
pub proof fn lemma_list_err_persists(
    bin: Seq<Seq<u8>>,
    recs: Seq<RelocationRecord>,
    entries: Seq<Seq<u8>>,
    i: int,
)
    requires
        0 <= i <= entries.len(),
        list_spec(bin, recs, entries.take(i)) is Err,
    ensures
        list_spec(bin, recs, entries) == list_spec(bin, recs, entries.take(i)),
    decreases entries.len() - i,
{
    if i < entries.len() {
        assert(entries.take(i + 1).drop_last() =~= entries.take(i));
        assert(list_spec(bin, recs, entries.take(i + 1)) == list_spec(bin, recs, entries.take(i)));
        lemma_list_err_persists(bin, recs, entries, i + 1);
    } else {
        assert(entries.take(i) =~= entries);
    }
}

/// The engine: the bin directory it serves and the relocation log.
#[derive(Debug)]
pub struct RecycleEngine {
    pub bin: AbsPath,
    pub log: RelocationLog,
}

impl RecycleEngine {
    /// The engine's invariant: a canonical bin path and a log whose every
    /// record is well-formed for it.
    pub open spec fn wf(&self) -> bool {
        &&& self.bin.wf()
        &&& self.log.wf(self.bin@)
    }

    /// An engine over an empty log.
    pub fn new(bin: AbsPath) -> (r: RecycleEngine)
        requires
            bin.wf(),
        ensures
            r.wf(),
            r.bin@ == bin@,
            r.log.records@.len() == 0,
    {
        RecycleEngine { bin, log: RelocationLog::new() }
    }

    /// Rebuilds the engine from parsed log rows: each row's two columns
    /// are read as paths, and rows that do not form a well-formed record
    /// for this bin are dropped.
    pub fn from_rows(bin: AbsPath, rows: &Vec<(Vec<u8>, Vec<u8>)>) -> (r: RecycleEngine)
        requires
            bin.wf(),
        ensures
            r.wf(),
            r.bin@ == bin@,
            rec_views(r.log.records@) == load_spec(bin@, row_views(rows@)),
    {
        let root = AbsPath::root();
        let mut log = RelocationLog::new();
        let ghost rws = row_views(rows@);
        let mut i: usize = 0;
        proof {
            assert(rec_views(log.records@) =~= load_spec(bin@, rws.take(0)));
        }
        while i < rows.len()
            invariant
                0 <= i <= rows@.len(),
                rws == row_views(rows@),
                rws.len() == rows@.len(),
                bin.wf(),
                root@ == Seq::<Seq<u8>>::empty(),
                root.wf(),
                rec_views(log.records@) == load_spec(bin@, rws.take(i as int)),
                log.wf(bin@),
            decreases rows@.len() - i,
        {
            proof {
                assert(rws.take(i as int + 1).drop_last() =~= rws.take(i as int));
                assert(rws.take(i as int + 1).last() == rws[i as int]);
                assert(rws[i as int] == (rows@[i as int].0@, rows@[i as int].1@));
            }
            let o = build_path(&root, &rows[i].0);
            let c = build_path(&root, &rows[i].1);
            let o_nonempty = o.segs.len() > 0;
            let is_child = c.is_child_of(&bin);
            proof {
                assert(o@.len() == o.segs@.len());
            }
            if o_nonempty && is_child {
                let nm = c.last_seg();
                match parse_entry_name(&nm) {
                    Option::Some(_pair) => {
                        let ghost before = log.records@;
                        let ghost ov = o@;
                        let ghost cv = c@;
                        log.append(o, c);
                        proof {
                            let rec = log.records@.last();
                            assert(rec.original@ == ov && rec.relocated@ == cv);
                            assert(rec_wf(bin@, rec));
                            assert(row_ok(bin@, rws[i as int]));
                            assert(rec_views(log.records@) =~= load_spec(
                                bin@,
                                rws.take(i as int + 1),
                            ));
                            assert forall|k: int|
                                0 <= k < log.records@.len() implies rec_wf(
                                bin@,
                                #[trigger] log.records@[k],
                            ) by {
                                if k < before.len() {
                                    assert(log.records@[k] == before[k]);
                                }
                            }
                        }
                    },
                    Option::None => {
                        proof {
                            assert(!row_ok(bin@, rws[i as int]));
                            assert(rec_views(log.records@) =~= load_spec(
                                bin@,
                                rws.take(i as int + 1),
                            ));
                        }
                    },
                }
            } else {
                proof {
                    assert(!row_ok(bin@, rws[i as int]));
                    assert(rec_views(log.records@) =~= load_spec(bin@, rws.take(i as int + 1)));
                }
            }
            i = i + 1;
        }
        proof {
            assert(rws.take(rws.len() as int) =~= rws);
        }
        RecycleEngine { bin, log }
    }

    /// Rebuilds the engine from the persisted log file's bytes. `None`
    /// exactly when the bytes are not a readable two-column CSV
    /// document; the shell treats that as a damaged log.
    pub fn from_log_bytes(bin: AbsPath, data: &Vec<u8>) -> (r: Option<RecycleEngine>)
        requires
            bin.wf(),
        ensures
            r is Some <==> csv_doc_ok(data@),
            r matches Some(e) ==> e.wf() && e.bin@ == bin@ && rec_views(e.log.records@)
                == load_spec(bin@, csv_rows_of(data@)),
    {
        match csv_parse_rows(data) {
            Option::Some(rows) => Some(Self::from_rows(bin, &rows)),
            Option::None => None,
        }
    }

    /// Whether some record already names `dest` as its relocated path.
    fn relocated_taken(&self, dest: &AbsPath) -> (r: bool)
        ensures
            r == dest_taken(self.log.records@, dest@),
    {
        let mut i: usize = 0;
        while i < self.log.records.len()
            invariant
                0 <= i <= self.log.records@.len(),
                forall|j: int|
                    0 <= j < i ==> (#[trigger] self.log.records@[j]).relocated@ != dest@,
            decreases self.log.records@.len() - i,
        {
            if path_eq(&self.log.records[i].relocated, dest) {
                proof {
                    assert((i as int) < self.log.records@.len()
                        && self.log.records@[i as int].relocated@ == dest@);
                }
                return true;
            }
            i = i + 1;
        }
        proof {
            if dest_taken(self.log.records@, dest@) {
                let j = choose|j: int|
                    0 <= j < self.log.records@.len() && (#[trigger] self.log.records@[
                        j
                    ]).relocated@ == dest@;
                assert(self.log.records@[j].relocated@ != dest@);
            }
        }
        false
    }

    /// Decides a recycle of `old_path` at time `now`; `exists` reports
    /// whether a file is present there. Fails with `FileNotFound` when
    /// nothing is there, and with `DestinationExists` when a record
    /// already names the computed bin entry — same base name, same
    /// second. Otherwise the record is appended to the log and the plan
    /// names the row to persist and the move to make; an error leaves
    /// the log untouched.
    pub fn rsycle(&mut self, old_path: &AbsPath, exists: bool, now: u64) -> (r: Result<
        RecyclePlan,
        RsycleError,
    >)
        requires
            old(self).wf(),
            old_path.wf(),
            old_path@.len() > 0,
        ensures
            final(self).wf(),
            final(self).bin == old(self).bin,
            r is Err ==> final(self).log.records@ == old(self).log.records@,
            !exists ==> r == Err::<RecyclePlan, RsycleError>(RsycleError::FileNotFound),
            (exists && dest_taken(
                old(self).log.records@,
                recycle_dest(old(self).bin@, old_path@, now),
            )) ==> r == Err::<RecyclePlan, RsycleError>(RsycleError::DestinationExists),
            (exists && !dest_taken(
                old(self).log.records@,
                recycle_dest(old(self).bin@, old_path@, now),
            )) ==> (r matches Ok(plan) && {
                let dest = recycle_dest(old(self).bin@, old_path@, now);
                &&& final(self).log.records@.len() == old(self).log.records@.len() + 1
                &&& final(self).log.records@.drop_last() == old(self).log.records@
                &&& final(self).log.records@.last().original@ == old_path@
                &&& final(self).log.records@.last().relocated@ == dest
                &&& plan.from@ == old_path@
                &&& plan.to@ == dest
                &&& plan.log_row@ == csv_row_of(bytes_of(old_path@), bytes_of(dest))
            }),
    {
        if !exists {
            return Err(RsycleError::FileNotFound);
        }
        let base = old_path.last_seg();
        let name = entry_name(&base, now);
        let dest = self.bin.child(name);
        proof {
            assert(dest@ == recycle_dest(self.bin@, old_path@, now));
        }
        if self.relocated_taken(&dest) {
            return Err(RsycleError::DestinationExists);
        }
        let orig_bytes = old_path.to_bytes();
        let dest_bytes = dest.to_bytes();
        let row = csv_encode_row(&orig_bytes, &dest_bytes);
        let ghost before = self.log.records@;
        self.log.append(old_path.duplicate(), dest.duplicate());
        proof {
            assert(seg_wf(old_path@.last()));
            lemma_entry_name_seg_wf(old_path@.last(), now);
            lemma_entry_name_roundtrip(old_path@.last(), now);
            let rec = self.log.records@.last();
            assert(rec.relocated@.drop_last() =~= self.bin@);
            assert(path_wf(rec.relocated@));
            assert(rec_wf(self.bin@, rec));
            assert(self.log.records@.drop_last() =~= before);
            assert forall|k: int|
                0 <= k < self.log.records@.len() implies rec_wf(
                self.bin@,
                #[trigger] self.log.records@[k],
            ) by {
                if k < before.len() {
                    assert(self.log.records@[k] == before[k]);
                }
            }
        }
        Ok(RecyclePlan { from: old_path.duplicate(), to: dest, log_row: row })
    }

    /// Decides a restore of `original_path`; `occupied` reports whether
    /// something already sits there. Fails with `NoSuchRecord` when no
    /// record matches the path, else with `DestinationOccupied` when the
    /// destination is taken — a restore never overwrites a live file —
    /// and otherwise returns the move that brings the selected entry
    /// (largest stamp, later record on a tie) back to its original path.
    /// The log is left as it was in every case.
    pub fn restore(&self, original_path: &AbsPath, occupied: bool) -> (r: Result<
        MoveAction,
        RsycleError,
    >)
        requires
            self.wf(),
        ensures
            r is Err <==> (select_best(self.log.records@, original_path@) is None || occupied),
            r matches Err(e) ==> e == (if select_best(self.log.records@, original_path@) is None {
                RsycleError::NoSuchRecord
            } else {
                RsycleError::DestinationOccupied
            }),
            r matches Ok(act) ==> (!occupied && (select_best(self.log.records@, original_path@)
                matches Some(j) && act.from@ == self.log.records@[j].relocated@) && act.to@
                == original_path@),
    {
        proof {
            assert forall|i: int|
                0 <= i < self.log.records@.len() implies (#[trigger] self.log.records@[
                i
            ]).relocated@.len() > 0 && split_stamp(self.log.records@[i].relocated@.last())
                is Some by {
                assert(rec_wf(self.bin@, self.log.records@[i]));
            }
        }
        match self.log.most_recent_current_path(original_path) {
            Ok(cp) => {
                if occupied {
                    Err(RsycleError::DestinationOccupied)
                } else {
                    Ok(MoveAction { from: cp, to: original_path.duplicate() })
                }
            },
            Err(e) => Err(e),
        }
    }

    /// Lists the bin: `entries` are the names found in the bin
    /// directory. Entries without a parseable stamp are skipped; a
    /// stamped entry no record names fails with `NoMatchingEntry`; each
    /// listed entry carries the original path of the last record naming
    /// it, its current path, and its stamp, in the entries' order.
    pub fn list(&self, entries: &Vec<Vec<u8>>) -> (r: Result<Vec<ListRecord>, RsycleError>)
        ensures
            r is Ok <==> list_spec(self.bin@, self.log.records@, views_of(entries@)) is Ok,
            r matches Ok(v) ==> (list_spec(self.bin@, self.log.records@, views_of(entries@))
                matches Ok(s) && list_views(v@) == s),
            r matches Err(e) ==> (list_spec(self.bin@, self.log.records@, views_of(entries@))
                matches Err(e2) && e == e2),
    {
        let ghost ents = views_of(entries@);
        let mut out: Vec<ListRecord> = Vec::new();
        let mut i: usize = 0;
        proof {
            assert(ents.take(0) =~= Seq::<Seq<u8>>::empty());
            assert(list_views(out@) =~= Seq::<(Seq<Seq<u8>>, Seq<Seq<u8>>, u64)>::empty());
        }
        while i < entries.len()
            invariant
                0 <= i <= entries@.len(),
                ents == views_of(entries@),
                ents.len() == entries@.len(),
                list_spec(self.bin@, self.log.records@, ents.take(i as int)) == Ok::<
                    Seq<(Seq<Seq<u8>>, Seq<Seq<u8>>, u64)>,
                    RsycleError,
                >(list_views(out@)),
            decreases entries@.len() - i,
        {
            proof {
                assert(ents.take(i as int + 1).drop_last() =~= ents.take(i as int));
                assert(ents.take(i as int + 1).last() == ents[i as int]);
                assert(ents[i as int] == entries@[i as int]@);
            }
            let name = copy_bytes(&entries[i]);
            let parsed = parse_entry_name(&name);
            match parsed {
                Option::None => {},
                Option::Some(pair) => {
                    let cp = self.bin.child(name);
                    match self.log.find_original_path(&cp) {
                        Option::None => {
                            proof {
                                lemma_list_err_persists(
                                    self.bin@,
                                    self.log.records@,
                                    ents,
                                    i as int + 1,
                                );
                            }
                            return Err(RsycleError::NoMatchingEntry);
                        },
                        Option::Some(o) => {
                            let ghost before = out@;
                            let ghost ov = o@;
                            let ghost cv = cp@;
                            out.push(
                                ListRecord { original: o, current: cp, recycled_at: pair.1 },
                            );
                            proof {
                                assert(list_views(out@) =~= list_views(before).push(
                                    (ov, cv, pair.1),
                                ));
                            }
                        },
                    }
                },
            }
            i = i + 1;
        }
        proof {
            assert(ents.take(ents.len() as int) =~= ents);
        }
        Ok(out)
    }

    /// Decides an empty: the log is truncated — stale records would
    /// describe files about to cease existing — and every given bin
    /// entry's full path is returned for the shell to delete, each
    /// attempted even if another fails.
    pub fn empty(&mut self, entries: &Vec<Vec<u8>>) -> (r: Vec<AbsPath>)
        requires
            old(self).wf(),
        ensures
            final(self).wf(),
            final(self).bin == old(self).bin,
            final(self).log.records@.len() == 0,
            r@.len() == entries@.len(),
            forall|i: int|
                0 <= i < entries@.len() ==> (#[trigger] r@[i])@ == old(self).bin@.push(
                    entries@[i]@,
                ),
    {
        self.log.truncate();
        let mut r: Vec<AbsPath> = Vec::new();
        let mut i: usize = 0;
        while i < entries.len()
            invariant
                0 <= i <= entries@.len(),
                r@.len() == i,
                forall|j: int|
                    0 <= j < i ==> (#[trigger] r@[j])@ == self.bin@.push(entries@[j]@),
                self.bin == old(self).bin,
                self.wf(),
                self.log.records@.len() == 0,
            decreases entries@.len() - i,
        {
            r.push(self.bin.child(copy_bytes(&entries[i])));
            i = i + 1;
        }
        r
    }
}

} // verus!
