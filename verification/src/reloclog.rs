//! The relocation log: an append-only sequence of records, each mapping
//! an original absolute path to the relocated path inside the bin.
//!
//! Records are immutable once written; the log is only appended to, and
//! cleared as a whole when the bin is emptied. Restoration selects, among
//! the records matching an original path, the one whose entry-name stamp
//! is numerically largest — most recent recycle wins — with the later
//! record winning a tie, and a lookup by relocated path takes the last
//! matching record.

use vstd::prelude::*;

use crate::binstore::split_stamp;
use crate::errors::RsycleError;
use crate::resolve::{path_eq, path_wf, AbsPath};

verus! {

/// One relocation: where the file was, and where in the bin it went.
#[derive(Debug)]
pub struct RelocationRecord {
    pub original: AbsPath,
    pub relocated: AbsPath,
}

/// A well-formed record relative to the bin directory `bin`: both paths
/// canonical, the original names a file (not the root), and the relocated
/// path is a bin entry whose name carries a parseable stamp.
pub open spec fn rec_wf(bin: Seq<Seq<u8>>, r: RelocationRecord) -> bool {
    &&& path_wf(r.original@)
    &&& r.original@.len() > 0
    &&& path_wf(r.relocated@)
    &&& r.relocated@.len() == bin.len() + 1
    &&& r.relocated@.drop_last() == bin
    &&& split_stamp(r.relocated@.last()) is Some
}

/// The stamp embedded in a record's entry name.
pub open spec fn rec_stamp(r: RelocationRecord) -> u64 {
    split_stamp(r.relocated@.last()).unwrap().1
}

/// What the selection and the stamp reading need of every record: a
/// non-root relocated path whose entry name parses.
pub open spec fn stamps_wf(recs: Seq<RelocationRecord>) -> bool {
    forall|i: int|
        0 <= i < recs.len() ==> (#[trigger] recs[i]).relocated@.len() > 0 && split_stamp(
            recs[i].relocated@.last(),
        ) is Some
}

/// The index of the record a restore of `p` picks: among records whose
/// original path is `p`, the one with the numerically largest stamp, the
/// later record winning a tie; `None` when no record matches.
pub open spec fn select_best(recs: Seq<RelocationRecord>, p: Seq<Seq<u8>>) -> Option<int>
    decreases recs.len(),
{
    if recs.len() == 0 {
        None
    } else {
        let rest = select_best(recs.drop_last(), p);
        let i = recs.len() - 1;
        if recs[i].original@ == p {
            match rest {
                Option::None => Some(i),
                Option::Some(j) => if rec_stamp(recs[i]) >= rec_stamp(recs[j]) {
                    Some(i)
                } else {
                    Some(j)
                },
            }
        } else {
            rest
        }
    }
}

/// The selected record matches, carries the maximal stamp among matches,
/// and is the last to do so; nothing is selected only when nothing
/// matches.
pub proof fn lemma_select_best_props(recs: Seq<RelocationRecord>, p: Seq<Seq<u8>>)
    ensures
        select_best(recs, p) is None <==> forall|i: int|
            0 <= i < recs.len() ==> (#[trigger] recs[i]).original@ != p,
        select_best(recs, p) matches Some(j) ==> 0 <= j < recs.len() && recs[j].original@ == p
            && (forall|i: int|
            0 <= i < recs.len() && (#[trigger] recs[i]).original@ == p ==> rec_stamp(recs[i])
                <= rec_stamp(recs[j])) && (forall|i: int|
            j < i < recs.len() && (#[trigger] recs[i]).original@ == p ==> rec_stamp(recs[i])
                < rec_stamp(recs[j])),
    decreases recs.len(),
{
    if recs.len() > 0 {
        lemma_select_best_props(recs.drop_last(), p);
        assert forall|i: int| 0 <= i < recs.len() - 1 implies recs.drop_last()[i] == recs[i] by {}
    }
}

/// The last record whose relocated path is `cp`, if any.
pub open spec fn last_match_relocated(recs: Seq<RelocationRecord>, cp: Seq<Seq<u8>>) -> Option<int>
    decreases recs.len(),
{
    if recs.len() == 0 {
        None
    } else if recs.last().relocated@ == cp {
        Some(recs.len() - 1)
    } else {
        last_match_relocated(recs.drop_last(), cp)
    }
}

/// A match found is a match; none found means none exists.
pub proof fn lemma_last_match_props(recs: Seq<RelocationRecord>, cp: Seq<Seq<u8>>)
    ensures
        last_match_relocated(recs, cp) is None <==> forall|i: int|
            0 <= i < recs.len() ==> (#[trigger] recs[i]).relocated@ != cp,
        last_match_relocated(recs, cp) matches Some(j) ==> 0 <= j < recs.len()
            && recs[j].relocated@ == cp && (forall|i: int|
            j < i < recs.len() ==> (#[trigger] recs[i]).relocated@ != cp),
    decreases recs.len(),
{
    if recs.len() > 0 {
        lemma_last_match_props(recs.drop_last(), cp);
        assert forall|i: int| 0 <= i < recs.len() - 1 implies recs.drop_last()[i] == recs[i] by {}
    }
}

/// The relocated paths ever recorded for original path `p`, oldest first.
pub open spec fn relocated_for(recs: Seq<RelocationRecord>, p: Seq<Seq<u8>>) -> Seq<Seq<Seq<u8>>>
    decreases recs.len(),
{
    if recs.len() == 0 {
        Seq::empty()
    } else {
        let rest = relocated_for(recs.drop_last(), p);
        if recs.last().original@ == p {
            rest.push(recs.last().relocated@)
        } else {
            rest
        }
    }
}

/// The views of a sequence of paths.
pub open spec fn path_views(s: Seq<AbsPath>) -> Seq<Seq<Seq<u8>>> {
    Seq::new(s.len(), |i: int| s[i]@)
}

/// The append-only record store. Persistence is the shell's concern: the
/// log is rebuilt from the persisted rows on start and rows are appended
/// as recycles happen.
#[derive(Debug)]
pub struct RelocationLog {
    pub records: Vec<RelocationRecord>,
}

impl RelocationLog {
    /// Every record well-formed relative to the bin directory `bin`.
    pub open spec fn wf(&self, bin: Seq<Seq<u8>>) -> bool {
        forall|i: int| 0 <= i < self.records@.len() ==> rec_wf(bin, #[trigger] self.records@[i])
    }

    /// An empty log.
    pub fn new() -> (r: RelocationLog)
        ensures
            r.records@.len() == 0,
    {
        RelocationLog { records: Vec::new() }
    }

    /// Appends one record. History is never edited: the previous records
    /// stay as they were.
    pub fn append(&mut self, original: AbsPath, relocated: AbsPath)
        ensures
            final(self).records@ == old(self).records@.push(
                RelocationRecord { original, relocated },
            ),
    {
        self.records.push(RelocationRecord { original, relocated });
    }

    /// Clears the whole log, as emptying the bin does.
    pub fn truncate(&mut self)
        ensures
            final(self).records@.len() == 0,
    {
        self.records = Vec::new();
    }

    /// Every relocated path recorded for `path`, in log order.
    pub fn find_by_original(&self, path: &AbsPath) -> (r: Vec<AbsPath>)
        ensures
            path_views(r@) == relocated_for(self.records@, path@),
    {
        let mut r: Vec<AbsPath> = Vec::new();
        let mut i: usize = 0;
        proof {
            assert(path_views(r@) =~= relocated_for(self.records@.take(0), path@));
        }
        while i < self.records.len()
            invariant
                0 <= i <= self.records@.len(),
                path_views(r@) == relocated_for(self.records@.take(i as int), path@),
            decreases self.records@.len() - i,
        {
            proof {
                assert(self.records@.take(i as int + 1).drop_last() =~= self.records@.take(i as int));
                assert(self.records@.take(i as int + 1).last() == self.records@[i as int]);
            }
            if path_eq(&self.records[i].original, path) {
                let ghost before = r@;
                r.push(self.records[i].relocated.duplicate());
                proof {
                    assert(path_views(r@) =~= path_views(before).push(self.records@[i as int].relocated@));
                }
            }
            i = i + 1;
        }
        proof {
            assert(self.records@.take(self.records@.len() as int) =~= self.records@);
        }
        r
    }

    /// The original path of the record whose relocated path is `current`;
    /// where several records name the same relocated path, the last
    /// matching record wins.
    pub fn find_original_path(&self, current: &AbsPath) -> (r: Option<AbsPath>)
        ensures
            r is None <==> last_match_relocated(self.records@, current@) is None,
            r matches Some(o) ==> (last_match_relocated(self.records@, current@) matches Some(j)
                && o@ == self.records@[j].original@),
    {
        let mut i: usize = self.records.len();
        proof {
            assert(self.records@.take(self.records@.len() as int) =~= self.records@);
        }
        while i > 0
            invariant
                0 <= i <= self.records@.len(),
                last_match_relocated(self.records@, current@) == last_match_relocated(
                    self.records@.take(i as int),
                    current@,
                ),
            decreases i,
        {
            proof {
                assert(self.records@.take(i as int).drop_last() =~= self.records@.take(i as int - 1));
                assert(self.records@.take(i as int).last() == self.records@[i as int - 1]);
            }
            if path_eq(&self.records[i - 1].relocated, current) {
                proof {
                    assert(self.records@[i as int - 1].relocated@ == current@);
                    assert(self.records@.take(i as int).len() == i as int);
                    assert(last_match_relocated(self.records@.take(i as int), current@) == Some(
                        i as int - 1,
                    ));
                    assert(last_match_relocated(self.records@, current@) == Some(i as int - 1));
                }
                let o = self.records[i - 1].original.duplicate();
                proof {
                    assert(o@ == self.records@[i as int - 1].original@);
                }
                return Some(o);
            }
            i = i - 1;
        }
        proof {
            assert(self.records@.take(0) =~= Seq::<RelocationRecord>::empty());
        }
        None
    }

    /// The relocated path a restore of `path` must withdraw: the record
    /// with the numerically largest stamp among those matching `path`,
    /// the later record winning a tie. `NoSuchRecord` exactly when no
    /// record matches. This selection is defined on the embedded stamp,
    /// not on log order.
    pub fn most_recent_current_path(&self, path: &AbsPath) -> (r: Result<AbsPath, RsycleError>)
        requires
            stamps_wf(self.records@),
        ensures
            r is Err <==> select_best(self.records@, path@) is None,
            r matches Err(e) ==> e == RsycleError::NoSuchRecord,
            r matches Ok(cp) ==> (select_best(self.records@, path@) matches Some(j) && cp@
                == self.records@[j].relocated@),
    {
        let mut best: Option<usize> = None;
        let mut best_stamp: u64 = 0;
        let mut i: usize = 0;
        while i < self.records.len()
            invariant
                0 <= i <= self.records@.len(),
                stamps_wf(self.records@),
                best is None ==> select_best(self.records@.take(i as int), path@) is None,
                best matches Some(b) ==> (select_best(self.records@.take(i as int), path@) == Some(
                    b as int,
                ) && b < i && best_stamp == rec_stamp(self.records@[b as int])),
            decreases self.records@.len() - i,
        {
            proof {
                assert(self.records@.take(i as int + 1).drop_last() =~= self.records@.take(i as int));
                assert(self.records@.take(i as int + 1).last() == self.records@[i as int]);
            }
            if path_eq(&self.records[i].original, path) {
                let st = rec_stamp_exec(&self.records[i]);
                match best {
                    Option::None => {
                        best = Some(i);
                        best_stamp = st;
                    },
                    Option::Some(_b) => {
                        if st >= best_stamp {
                            best = Some(i);
                            best_stamp = st;
                        }
                    },
                }
            }
            i = i + 1;
        }
        proof {
            assert(self.records@.take(self.records@.len() as int) =~= self.records@);
        }
        match best {
            Option::Some(b) => Ok(self.records[b].relocated.duplicate()),
            Option::None => Err(RsycleError::NoSuchRecord),
        }
    }
}

/// Reads the stamp out of a record's entry name.
fn rec_stamp_exec(r: &RelocationRecord) -> (t: u64)
    requires
        r.relocated@.len() > 0,
        split_stamp(r.relocated@.last()) is Some,
    ensures
        t == rec_stamp(*r),
{
    let name = r.relocated.last_seg();
    match crate::binstore::parse_entry_name(&name) {
        Option::Some(p) => p.1,
        Option::None => {
            proof {
                assert(false);
            }
            0
        },
    }
}

} // verus!
