//! The properties that hold the design together, each proved from the
//! contracts the modules state: restoring finds what recycling just
//! placed, repeated recycles of one name stay distinct and the newest
//! wins, a listing covers the bin exactly, an emptied bin denies every
//! restore, and a path means the same file however it is spelled.

use vstd::prelude::*;

use crate::binstore::split_stamp;
use crate::engine::{line_of, list_spec, rec_views, recycle_dest};
use crate::errors::RsycleError;
use crate::reloclog::{
    lemma_last_match_props, lemma_select_best_props, last_match_relocated, rec_stamp, rec_wf,
    select_best, RelocationRecord,
};
use crate::resolve::{
    bytes_of, lemma_resolve_canonical_identity, lemma_resolve_wf, path_wf, resolve_spec,
};

verus! {

/// Round-trip: a recycle of `p` appends a record whose stamp is at least
/// every stamp already recorded for `p` (the clock only moves forward),
/// and the restore selection then picks exactly that record — the move
/// planned afterwards carries the fresh bin entry back to `p`. The bytes
/// of the file itself ride along in the shell's renames and are never
/// touched.
pub proof fn lemma_recycle_then_restore(
    recs: Seq<RelocationRecord>,
    rec: RelocationRecord,
    p: Seq<Seq<u8>>,
)
    requires
        rec.original@ == p,
        forall|i: int|
            0 <= i < recs.len() && (#[trigger] recs[i]).original@ == p ==> rec_stamp(recs[i])
                <= rec_stamp(rec),
    ensures
        select_best(recs.push(rec), p) == Some(recs.len() as int),
{
    let all = recs.push(rec);
    assert(all.drop_last() =~= recs);
    assert(all.last() == rec);
    lemma_select_best_props(recs, p);
    match select_best(recs, p) {
        Option::Some(j) => {
            assert(recs[j].original@ == p);
            assert(rec_stamp(recs[j]) <= rec_stamp(rec));
        },
        Option::None => {},
    }
}

/// Uniqueness: two recycles of the same original path at different
/// stamps leave two distinct bin entries, and a restore picks the one
/// with the larger stamp — the later of the two.
pub proof fn lemma_uniqueness(
    recs: Seq<RelocationRecord>,
    r1: RelocationRecord,
    r2: RelocationRecord,
    p: Seq<Seq<u8>>,
)
    requires
        r1.original@ == p,
        r2.original@ == p,
        rec_stamp(r1) < rec_stamp(r2),
        forall|i: int|
            0 <= i < recs.len() && (#[trigger] recs[i]).original@ == p ==> rec_stamp(recs[i])
                <= rec_stamp(r1),
    ensures
        r1.relocated@ != r2.relocated@,
        select_best(recs.push(r1).push(r2), p) == Some(recs.len() as int + 1),
{
    let mid = recs.push(r1);
    assert forall|i: int|
        0 <= i < mid.len() && (#[trigger] mid[i]).original@ == p implies rec_stamp(mid[i])
        <= rec_stamp(r2) by {
        if i < recs.len() {
            assert(mid[i] == recs[i]);
        }
    }
    lemma_recycle_then_restore(mid, r2, p);
}

/// List completeness: with the bin holding exactly one entry per record,
/// in log order and with no relocated path repeated, the listing
/// succeeds and yields one line per record — its original path, its
/// current path, and its stamp.
pub proof fn lemma_list_completeness(
    bin: Seq<Seq<u8>>,
    recs: Seq<RelocationRecord>,
    entries: Seq<Seq<u8>>,
)
    requires
        forall|i: int| 0 <= i < recs.len() ==> rec_wf(bin, #[trigger] recs[i]),
        entries.len() == recs.len(),
        forall|i: int|
            0 <= i < recs.len() ==> entries[i] == (#[trigger] recs[i]).relocated@.last(),
        forall|i: int, j: int|
            0 <= i < j < recs.len() ==> (#[trigger] recs[i]).relocated@ != (#[trigger] recs[
                j
            ]).relocated@,
    ensures
        list_spec(bin, recs, entries) == Ok::<_, RsycleError>(
            Seq::new(
                recs.len(),
                |i: int| (recs[i].original@, recs[i].relocated@, rec_stamp(recs[i])),
            ),
        ),
{
    lemma_list_completeness_prefix(bin, recs, entries, entries.len() as int);
    assert(entries.take(entries.len() as int) =~= entries);
}

proof fn lemma_list_completeness_prefix(
    bin: Seq<Seq<u8>>,
    recs: Seq<RelocationRecord>,
    entries: Seq<Seq<u8>>,
    k: int,
)
    requires
        forall|i: int| 0 <= i < recs.len() ==> rec_wf(bin, #[trigger] recs[i]),
        entries.len() == recs.len(),
        forall|i: int|
            0 <= i < recs.len() ==> entries[i] == (#[trigger] recs[i]).relocated@.last(),
        forall|i: int, j: int|
            0 <= i < j < recs.len() ==> (#[trigger] recs[i]).relocated@ != (#[trigger] recs[
                j
            ]).relocated@,
        0 <= k <= entries.len(),
    ensures
        list_spec(bin, recs, entries.take(k)) == Ok::<_, RsycleError>(
            Seq::new(k as nat, |i: int| (recs[i].original@, recs[i].relocated@, rec_stamp(recs[i]))),
        ),
    decreases k,
{
    let f = |i: int| (recs[i].original@, recs[i].relocated@, rec_stamp(recs[i]));
    if k == 0 {
        assert(entries.take(0) =~= Seq::<Seq<u8>>::empty());
        assert(Seq::new(0, f) =~= Seq::<(Seq<Seq<u8>>, Seq<Seq<u8>>, u64)>::empty());
    } else {
        lemma_list_completeness_prefix(bin, recs, entries, k - 1);
        let pre = entries.take(k);
        assert(pre.drop_last() =~= entries.take(k - 1));
        assert(pre.last() == entries[k - 1]);
        let rec = recs[k - 1];
        let name = rec.relocated@.last();
        assert(rec_wf(bin, rec));
        assert(split_stamp(name) is Some);
        let cp = bin.push(name);
        assert(cp =~= rec.relocated@);
        lemma_last_match_props(recs, cp);
        match last_match_relocated(recs, cp) {
            Option::None => {
                assert(recs[k - 1].relocated@ != cp);
                assert(false);
            },
            Option::Some(j) => {
                assert(recs[j].relocated@ == cp);
                assert(j == k - 1) by {
                    if j < k - 1 {
                        assert(recs[j].relocated@ != recs[k - 1].relocated@);
                    } else if j > k - 1 {
                        assert(recs[k - 1].relocated@ != recs[j].relocated@);
                    }
                }
                assert(split_stamp(name).unwrap().1 == rec_stamp(rec));
                assert(Seq::new(k as nat, f) =~= Seq::new((k - 1) as nat, f).push(f(k - 1)));
            },
        }
    }
}

/// Empty is total: with the log truncated and the bin cleared, a listing
/// of nothing yields nothing, and a restore of any path whatever fails
/// for want of a record.
pub proof fn lemma_empty_total(bin: Seq<Seq<u8>>, p: Seq<Seq<u8>>)
    ensures
        select_best(Seq::<RelocationRecord>::empty(), p) is None,
        list_spec(bin, Seq::<RelocationRecord>::empty(), Seq::<Seq<u8>>::empty()) == Ok::<
            _,
            RsycleError,
        >(Seq::<(Seq<Seq<u8>>, Seq<Seq<u8>>, u64)>::empty()),
        rec_views(Seq::<RelocationRecord>::empty()).len() == 0,
{
}

/// Relative-path equivalence: whatever working directory and spelling a
/// name was resolved under, resolving the canonical spelling of the
/// result from any other working directory yields the same path — so
/// the same file makes the same log entry and restores the same way.
pub proof fn lemma_relative_absolute_equivalence(
    cwd1: Seq<Seq<u8>>,
    name: Seq<u8>,
    cwd2: Seq<Seq<u8>>,
)
    requires
        path_wf(cwd1),
    ensures
        resolve_spec(cwd2, bytes_of(resolve_spec(cwd1, name))) == resolve_spec(cwd1, name),
{
    lemma_resolve_wf(cwd1, name);
    lemma_resolve_canonical_identity(cwd2, resolve_spec(cwd1, name));
}

/// Relative-path equivalence at the engine: one execution resolves a
/// relative spelling from its working directory, another resolves the
/// resulting canonical absolute spelling from a different directory.
/// The two resolved paths coincide, so against equal starting logs a
/// recycle computes the same bin entry — hence appends an identical
/// record — and a restore selects the same record.
pub proof fn lemma_two_spellings_one_record(
    recs: Seq<RelocationRecord>,
    bin: Seq<Seq<u8>>,
    cwd1: Seq<Seq<u8>>,
    name: Seq<u8>,
    cwd2: Seq<Seq<u8>>,
    now: u64,
)
    requires
        path_wf(cwd1),
    ensures
        ({
            let p1 = resolve_spec(cwd1, name);
            let p2 = resolve_spec(cwd2, bytes_of(p1));
            &&& p2 == p1
            &&& recycle_dest(bin, p2, now) == recycle_dest(bin, p1, now)
            &&& select_best(recs, p2) == select_best(recs, p1)
        }),
{
    lemma_relative_absolute_equivalence(cwd1, name, cwd2);
}

/// List soundness: every line a successful listing emits is the line of
/// one of the given bin entries — its stamp is that entry's own, its
/// current path is that entry's path in the bin, and its original path
/// is the log's original for that entry.
pub proof fn lemma_list_lines_sound(
    bin: Seq<Seq<u8>>,
    recs: Seq<RelocationRecord>,
    entries: Seq<Seq<u8>>,
)
    requires
        list_spec(bin, recs, entries) is Ok,
    ensures
        forall|k: int|
            0 <= k < list_spec(bin, recs, entries).unwrap().len() ==> exists|i: int|
                0 <= i < entries.len() && line_of(bin, recs, entries[i]) == Some(
                    #[trigger] list_spec(bin, recs, entries).unwrap()[k],
                ),
    decreases entries.len(),
{
    if entries.len() > 0 {
        let pre = entries.drop_last();
        let prefix = list_spec(bin, recs, pre);
        assert(prefix is Ok);
        lemma_list_lines_sound(bin, recs, pre);
        let v = list_spec(bin, recs, entries).unwrap();
        let pv = prefix.unwrap();
        let name = entries.last();
        assert forall|k: int|
            0 <= k < v.len() implies exists|i: int|
            0 <= i < entries.len() && line_of(bin, recs, entries[i]) == Some(
                #[trigger] v[k],
            ) by {
            if k < pv.len() {
                assert(v[k] == pv[k]);
                let i = choose|i: int|
                    0 <= i < pre.len() && line_of(bin, recs, pre[i]) == Some(#[trigger] pv[k]);
                assert(entries[i] == pre[i]);
                assert(line_of(bin, recs, entries[i]) == Some(v[k]));
            } else {
                let i = entries.len() - 1;
                assert(entries[i] == name);
                assert(line_of(bin, recs, entries[i]) == Some(v[k]));
            }
        }
    }
}

} // verus!
