//! Path resolution: turning a user-supplied name into an absolute,
//! canonical path.
//!
//! A canonical absolute path is modelled as its sequence of segments,
//! each a non-empty byte string free of `/` and distinct from `.` and
//! `..`. Resolution joins the working directory with the given name and
//! normalizes `.` and `..` lexically, so the same logical file yields the
//! same path whatever the spelling. Symbolic links and the existence of
//! parent directories are the shell's concern: it hands in the working
//! directory and performs the filesystem moves.

use vstd::prelude::*;

verus! {

/// `'/'` as a byte.
pub const SLASH: u8 = 47;

/// `'.'` as a byte.
pub const DOT: u8 = 46;

/// The views of a sequence of byte vectors.
pub open spec fn views_of(s: Seq<Vec<u8>>) -> Seq<Seq<u8>> {
    Seq::new(s.len(), |i: int| s[i]@)
}

pub open spec fn no_slash(c: Seq<u8>) -> bool {
    forall|i: int| 0 <= i < c.len() ==> c[i] != SLASH
}

/// A well-formed path segment: non-empty, free of `/`, and not one of the
/// relative markers `.` and `..`.
pub open spec fn seg_wf(s: Seq<u8>) -> bool {
    &&& s.len() > 0
    &&& no_slash(s)
    &&& s != seq![DOT]
    &&& s != seq![DOT, DOT]
}

/// A well-formed canonical absolute path: every segment well-formed.
pub open spec fn path_wf(p: Seq<Seq<u8>>) -> bool {
    forall|i: int| 0 <= i < p.len() ==> seg_wf(#[trigger] p[i])
}

/// An absolute, canonical path, held as its segments. The empty sequence
/// is the filesystem root `/`.
#[derive(Debug)]
pub struct AbsPath {
    pub segs: Vec<Vec<u8>>,
}

impl View for AbsPath {
    type V = Seq<Seq<u8>>;

    open spec fn view(&self) -> Seq<Seq<u8>> {
        views_of(self.segs@)
    }
}

impl AbsPath {
    pub open spec fn wf(&self) -> bool {
        path_wf(self@)
    }
}

/// Splits a byte string at every `/`; a string with `k` slashes yields
/// `k + 1` chunks, in order, possibly empty.
pub open spec fn split_slash(s: Seq<u8>) -> Seq<Seq<u8>>
    decreases s.len(),
{
    if s.len() == 0 {
        seq![Seq::<u8>::empty()]
    } else if s.last() == SLASH {
        split_slash(s.drop_last()).push(Seq::<u8>::empty())
    } else {
        let r = split_slash(s.drop_last());
        r.update(r.len() - 1, r.last().push(s.last()))
    }
}

/// One normalization step: an empty chunk and `.` are dropped, `..` pops
/// the last segment (the root's parent is the root), anything else is a
/// real segment and is appended.
pub open spec fn step(acc: Seq<Seq<u8>>, seg: Seq<u8>) -> Seq<Seq<u8>> {
    if seg.len() == 0 || seg == seq![DOT] {
        acc
    } else if seg == seq![DOT, DOT] {
        if acc.len() > 0 {
            acc.drop_last()
        } else {
            acc
        }
    } else {
        acc.push(seg)
    }
}

/// Folds the normalization step over a chunk list.
pub open spec fn norm(acc: Seq<Seq<u8>>, chunks: Seq<Seq<u8>>) -> Seq<Seq<u8>>
    decreases chunks.len(),
{
    if chunks.len() == 0 {
        acc
    } else {
        norm(step(acc, chunks.first()), chunks.drop_first())
    }
}

/// What resolution returns: the name's chunks normalized on top of the
/// working directory, or on top of the root when the name is absolute.
pub open spec fn resolve_spec(cwd: Seq<Seq<u8>>, name: Seq<u8>) -> Seq<Seq<u8>> {
    if name.len() > 0 && name[0] == SLASH {
        norm(Seq::<Seq<u8>>::empty(), split_slash(name))
    } else {
        norm(cwd, split_slash(name))
    }
}

/// The byte spelling of a path's segments: `/seg` for each segment.
pub open spec fn bytes_of_segs(p: Seq<Seq<u8>>) -> Seq<u8>
    decreases p.len(),
{
    if p.len() == 0 {
        Seq::<u8>::empty()
    } else {
        bytes_of_segs(p.drop_last()) + seq![SLASH] + p.last()
    }
}

/// The canonical byte spelling of a path; the root is `/`.
pub open spec fn bytes_of(p: Seq<Seq<u8>>) -> Seq<u8> {
    if p.len() == 0 {
        seq![SLASH]
    } else {
        bytes_of_segs(p)
    }
}

pub proof fn lemma_split_slash_len(s: Seq<u8>)
    ensures
        split_slash(s).len() >= 1,
    decreases s.len(),
{
    if s.len() > 0 {
        lemma_split_slash_len(s.drop_last());
    }
}

/// Every chunk that splitting produces is free of `/`.
pub proof fn lemma_split_slash_no_slash(s: Seq<u8>)
    ensures
        forall|j: int| 0 <= j < split_slash(s).len() ==> no_slash(#[trigger] split_slash(s)[j]),
    decreases s.len(),
{
    if s.len() > 0 {
        lemma_split_slash_no_slash(s.drop_last());
        lemma_split_slash_len(s.drop_last());
        if s.last() != SLASH {
            let r = split_slash(s.drop_last());
            assert forall|j: int| 0 <= j < split_slash(s).len() implies no_slash(
                #[trigger] split_slash(s)[j],
            ) by {
                if j == r.len() - 1 {
                    assert(no_slash(r[j]));
                    assert(split_slash(s)[j] == r[j].push(s.last()));
                }
            }
        }
    }
}

/// A normalization step keeps the path well-formed, given a chunk free
/// of `/`.
pub proof fn lemma_step_wf(acc: Seq<Seq<u8>>, seg: Seq<u8>)
    requires
        path_wf(acc),
        no_slash(seg),
    ensures
        path_wf(step(acc, seg)),
{
}

pub proof fn lemma_norm_wf(acc: Seq<Seq<u8>>, chunks: Seq<Seq<u8>>)
    requires
        path_wf(acc),
        forall|j: int| 0 <= j < chunks.len() ==> no_slash(#[trigger] chunks[j]),
    ensures
        path_wf(norm(acc, chunks)),
    decreases chunks.len(),
{
    if chunks.len() > 0 {
        lemma_step_wf(acc, chunks.first());
        lemma_norm_wf(step(acc, chunks.first()), chunks.drop_first());
    }
}

/// Resolution always yields a well-formed path.
pub proof fn lemma_resolve_wf(cwd: Seq<Seq<u8>>, name: Seq<u8>)
    requires
        path_wf(cwd),
    ensures
        path_wf(resolve_spec(cwd, name)),
{
    lemma_split_slash_no_slash(name);
    if name.len() > 0 && name[0] == SLASH {
        lemma_norm_wf(Seq::<Seq<u8>>::empty(), split_slash(name));
    } else {
        lemma_norm_wf(cwd, split_slash(name));
    }
}

/// Appending slash-free bytes extends the final chunk of a split.
pub proof fn lemma_split_append_no_slash(x: Seq<u8>, s: Seq<u8>)
    requires
        no_slash(s),
    ensures
        split_slash(x + s) == split_slash(x).update(
            split_slash(x).len() - 1,
            split_slash(x).last() + s,
        ),
    decreases s.len(),
{
    lemma_split_slash_len(x);
    let r = split_slash(x);
    if s.len() == 0 {
        assert(x + s =~= x);
        assert(r.last() + s =~= r.last());
        assert(r.update(r.len() - 1, r.last()) =~= r);
    } else {
        let s0 = s.drop_last();
        assert(no_slash(s0));
        lemma_split_append_no_slash(x, s0);
        let y = x + s0;
        assert(x + s =~= y.push(s.last()));
        assert((x + s).last() == s.last());
        assert(s.last() != SLASH);
        assert((x + s).drop_last() =~= y);
        let q = split_slash(y);
        assert(q == r.update(r.len() - 1, r.last() + s0));
        assert(q.len() == r.len());
        assert(split_slash(x + s) == q.update(q.len() - 1, q.last().push(s.last())));
        assert(q.last() == r.last() + s0);
        assert((r.last() + s0).push(s.last()) =~= r.last() + s);
        assert(q.update(q.len() - 1, r.last() + s) =~= r.update(r.len() - 1, r.last() + s));
    }
}

/// The byte spelling of a non-root path begins with `/`.
pub proof fn lemma_bytes_starts_slash(p: Seq<Seq<u8>>)
    requires
        p.len() > 0,
    ensures
        bytes_of_segs(p).len() > 0,
        bytes_of_segs(p)[0] == SLASH,
    decreases p.len(),
{
    if p.len() == 1 {
        assert(bytes_of_segs(p.drop_last()) =~= Seq::<u8>::empty());
        assert(bytes_of_segs(p) =~= seq![SLASH] + p.last());
    } else {
        lemma_bytes_starts_slash(p.drop_last());
        assert(bytes_of_segs(p)[0] == bytes_of_segs(p.drop_last())[0]);
    }
}

/// Splitting the spelling of a well-formed path recovers its segments,
/// preceded by the empty chunk of the leading `/`.
pub proof fn lemma_split_bytes_of_segs(p: Seq<Seq<u8>>)
    requires
        path_wf(p),
    ensures
        split_slash(bytes_of_segs(p)) == seq![Seq::<u8>::empty()] + p,
    decreases p.len(),
{
    if p.len() == 0 {
        assert(bytes_of_segs(p) =~= Seq::<u8>::empty());
        assert(split_slash(bytes_of_segs(p)) =~= seq![Seq::<u8>::empty()] + p);
    } else {
        let q = p.drop_last();
        let s = p.last();
        assert(path_wf(q));
        assert(seg_wf(s));
        lemma_split_bytes_of_segs(q);
        let x = bytes_of_segs(q);
        let xs = x + seq![SLASH];
        assert(xs.last() == SLASH);
        assert(xs.drop_last() =~= x);
        assert(split_slash(xs) == split_slash(x).push(Seq::<u8>::empty()));
        lemma_split_append_no_slash(xs, s);
        assert(bytes_of_segs(p) =~= xs + s);
        let r = split_slash(xs);
        assert(split_slash(bytes_of_segs(p)) == r.update(r.len() - 1, r.last() + s));
        assert(r.last() + s =~= s);
        assert(r.update(r.len() - 1, s) =~= (seq![Seq::<u8>::empty()] + q).push(s));
        assert((seq![Seq::<u8>::empty()] + q).push(s) =~= seq![Seq::<u8>::empty()] + p);
    }
}

/// Normalizing already-canonical segments just appends them.
pub proof fn lemma_norm_identity(acc: Seq<Seq<u8>>, p: Seq<Seq<u8>>)
    requires
        path_wf(p),
    ensures
        norm(acc, p) == acc + p,
    decreases p.len(),
{
    if p.len() == 0 {
        assert(acc + p =~= acc);
    } else {
        let f = p.first();
        assert(seg_wf(f));
        assert(step(acc, f) == acc.push(f));
        assert(path_wf(p.drop_first()));
        lemma_norm_identity(acc.push(f), p.drop_first());
        assert(acc.push(f) + p.drop_first() =~= acc + p);
    }
}

/// Resolving the canonical spelling of a well-formed path gives that path
/// back, from any working directory: an absolute canonical name means the
/// same file wherever it is spoken.
pub proof fn lemma_resolve_canonical_identity(cwd: Seq<Seq<u8>>, p: Seq<Seq<u8>>)
    requires
        path_wf(p),
    ensures
        resolve_spec(cwd, bytes_of(p)) == p,
{
    if p.len() == 0 {
        let name = seq![SLASH];
        assert(name.drop_last() =~= Seq::<u8>::empty());
        assert(split_slash(name) == split_slash(Seq::<u8>::empty()).push(Seq::<u8>::empty()));
        let chunks = seq![Seq::<u8>::empty(), Seq::<u8>::empty()];
        assert(split_slash(name) =~= chunks);
        let e = Seq::<Seq<u8>>::empty();
        let c1 = seq![Seq::<u8>::empty()];
        assert(chunks.first().len() == 0);
        assert(chunks.drop_first() =~= c1);
        assert(norm(e, chunks) == norm(e, c1));
        assert(c1.first().len() == 0);
        assert(c1.drop_first() =~= e);
        assert(norm(e, c1) == norm(e, e));
        assert(norm(e, chunks) == p);
    } else {
        let name = bytes_of_segs(p);
        lemma_bytes_starts_slash(p);
        lemma_split_bytes_of_segs(p);
        let chunks = seq![Seq::<u8>::empty()] + p;
        assert(chunks.first().len() == 0);
        assert(chunks.drop_first() =~= p);
        lemma_norm_identity(Seq::<Seq<u8>>::empty(), p);
        assert(Seq::<Seq<u8>>::empty() + p =~= p);
        assert(resolve_spec(cwd, bytes_of(p)) == norm(Seq::<Seq<u8>>::empty(), chunks));
    }
}

/// Copies a byte vector.
pub fn copy_bytes(v: &Vec<u8>) -> (r: Vec<u8>)
    ensures
        r@ == v@,
{
    let mut r: Vec<u8> = Vec::new();
    let mut i: usize = 0;
    while i < v.len()
        invariant
            0 <= i <= v@.len(),
            r@ == v@.take(i as int),
        decreases v@.len() - i,
    {
        r.push(v[i]);
        proof {
            assert(r@ =~= v@.take(i as int + 1));
        }
        i = i + 1;
    }
    proof {
        assert(v@.take(v@.len() as int) =~= v@);
    }
    r
}

/// Byte-vector equality, decided by contents.
pub fn bytes_eq(a: &Vec<u8>, b: &Vec<u8>) -> (r: bool)
    ensures
        r == (a@ == b@),
{
    if a.len() != b.len() {
        return false;
    }
    let mut i: usize = 0;
    while i < a.len()
        invariant
            0 <= i <= a@.len(),
            a@.len() == b@.len(),
            forall|j: int| 0 <= j < i ==> a@[j] == b@[j],
        decreases a@.len() - i,
    {
        if a[i] != b[i] {
            return false;
        }
        i = i + 1;
    }
    proof {
        assert(a@ =~= b@);
    }
    true
}

fn copy_segs(v: &Vec<Vec<u8>>) -> (r: Vec<Vec<u8>>)
    ensures
        views_of(r@) == views_of(v@),
{
    let mut r: Vec<Vec<u8>> = Vec::new();
    let mut i: usize = 0;
    while i < v.len()
        invariant
            0 <= i <= v@.len(),
            views_of(r@) == views_of(v@).take(i as int),
        decreases v@.len() - i,
    {
        let nv = copy_bytes(&v[i]);
        let ghost before = r@;
        r.push(nv);
        proof {
            assert(r@ == before.push(nv));
            assert(views_of(v@).len() == v@.len());
            assert(views_of(before) == views_of(v@).take(i as int));
            assert(views_of(before).len() == i as int);
            assert(before.len() == i as int);
            assert forall|j: int| 0 <= j < i as int + 1 implies #[trigger] views_of(r@)[j]
                == views_of(v@).take(i as int + 1)[j] by {
                if j < i as int {
                    assert(views_of(r@)[j] == before[j]@);
                    assert(views_of(before)[j] == before[j]@);
                } else {
                    assert(views_of(r@)[j] == nv@);
                }
            }
            assert(views_of(r@) =~= views_of(v@).take(i as int + 1));
        }
        i = i + 1;
    }
    proof {
        assert(views_of(v@).take(v@.len() as int) =~= views_of(v@));
    }
    r
}

fn step_exec(acc: &mut Vec<Vec<u8>>, seg: &Vec<u8>)
    ensures
        views_of(final(acc)@) == step(views_of(old(acc)@), seg@),
{
    if seg.len() == 0 {
        // an empty chunk is dropped
    } else if seg.len() == 1 && seg[0] == DOT {
        proof {
            assert(seg@ =~= seq![DOT]);
        }
    } else if seg.len() == 2 && seg[0] == DOT && seg[1] == DOT {
        proof {
            assert(seg@ =~= seq![DOT, DOT]);
        }
        if acc.len() > 0 {
            acc.pop();
            proof {
                assert(views_of(acc@) =~= views_of(old(acc)@).drop_last());
            }
        }
    } else {
        proof {
            assert(seg@ != seq![DOT]) by {
                if seg@ == seq![DOT] {
                    assert(seg@.len() == 1 && seg@[0] == DOT);
                }
            }
            assert(seg@ != seq![DOT, DOT]) by {
                if seg@ == seq![DOT, DOT] {
                    assert(seg@.len() == 2 && seg@[0] == DOT && seg@[1] == DOT);
                }
            }
        }
        acc.push(copy_bytes(seg));
        proof {
            assert(views_of(acc@) =~= views_of(old(acc)@).push(seg@));
        }
    }
}

/// Builds the absolute, canonical path a name denotes from the given
/// working directory: the name's chunks, normalized on top of the
/// directory, or on top of the root when the name starts with `/`.
pub fn build_path(cwd: &AbsPath, name: &Vec<u8>) -> (r: AbsPath)
    requires
        cwd.wf(),
    ensures
        r@ == resolve_spec(cwd@, name@),
        r.wf(),
{
    let mut chunks: Vec<Vec<u8>> = Vec::new();
    let mut cur: Vec<u8> = Vec::new();
    let mut i: usize = 0;
    while i < name.len()
        invariant
            0 <= i <= name@.len(),
            views_of(chunks@).push(cur@) == split_slash(name@.take(i as int)),
        decreases name@.len() - i,
    {
        let b = name[i];
        proof {
            assert(name@.take(i as int + 1).drop_last() =~= name@.take(i as int));
            assert(name@.take(i as int + 1).last() == name@[i as int]);
        }
        if b == SLASH {
            let ghost prev = views_of(chunks@).push(cur@);
            let ghost before = chunks@;
            let ghost curv = cur@;
            chunks.push(cur);
            cur = Vec::new();
            proof {
                assert(views_of(chunks@) =~= views_of(before).push(curv));
                assert(views_of(chunks@).push(cur@) =~= prev.push(Seq::<u8>::empty()));
            }
        } else {
            let ghost prev = views_of(chunks@).push(cur@);
            cur.push(b);
            proof {
                lemma_split_slash_len(name@.take(i as int));
                assert(views_of(chunks@).push(cur@) =~= prev.update(
                    prev.len() - 1,
                    prev.last().push(b),
                ));
            }
        }
        i = i + 1;
    }
    proof {
        assert(name@.take(name@.len() as int) =~= name@);
    }
    let ghost full = split_slash(name@);
    let ghost before_final = chunks@;
    let ghost curv_final = cur@;
    chunks.push(cur);
    proof {
        assert(views_of(chunks@) =~= views_of(before_final).push(curv_final));
        assert(views_of(chunks@) == full);
    }

    let absolute = name.len() > 0 && name[0] == SLASH;
    let mut acc: Vec<Vec<u8>> = if absolute {
        Vec::new()
    } else {
        copy_segs(&cwd.segs)
    };
    let ghost start = views_of(acc@);
    proof {
        assert(path_wf(start));
        assert(views_of(Seq::<Vec<u8>>::empty()) =~= Seq::<Seq<u8>>::empty());
        assert(full.skip(0) =~= full);
        lemma_split_slash_no_slash(name@);
    }
    let mut j: usize = 0;
    while j < chunks.len()
        invariant
            0 <= j <= chunks@.len(),
            views_of(chunks@) == full,
            norm(start, full) == norm(views_of(acc@), full.skip(j as int)),
            path_wf(views_of(acc@)),
            forall|k: int| 0 <= k < full.len() ==> no_slash(#[trigger] full[k]),
        decreases chunks@.len() - j,
    {
        proof {
            let rest = full.skip(j as int);
            assert(rest.first() == full[j as int]);
            assert(rest.drop_first() =~= full.skip(j as int + 1));
            lemma_step_wf(views_of(acc@), full[j as int]);
        }
        step_exec(&mut acc, &chunks[j]);
        j = j + 1;
    }
    proof {
        assert(full.skip(full.len() as int) =~= Seq::<Seq<u8>>::empty());
        assert(norm(start, full) == views_of(acc@));
    }
    AbsPath { segs: acc }
}

impl AbsPath {
    /// The root path `/`.
    pub fn root() -> (r: AbsPath)
        ensures
            r@ == Seq::<Seq<u8>>::empty(),
            r.wf(),
    {
        let r = AbsPath { segs: Vec::new() };
        proof {
            assert(r@ =~= Seq::<Seq<u8>>::empty());
        }
        r
    }

    /// The canonical byte spelling: `/` for the root, else `/seg` joined.
    pub fn to_bytes(&self) -> (r: Vec<u8>)
        ensures
            r@ == bytes_of(self@),
    {
        if self.segs.len() == 0 {
            let mut r: Vec<u8> = Vec::new();
            r.push(SLASH);
            proof {
                assert(r@ =~= seq![SLASH]);
            }
            return r;
        }
        let mut r: Vec<u8> = Vec::new();
        let mut i: usize = 0;
        proof {
            assert(r@ =~= bytes_of_segs(self@.take(0)));
        }
        while i < self.segs.len()
            invariant
                0 <= i <= self.segs@.len(),
                self@.len() == self.segs@.len(),
                r@ == bytes_of_segs(self@.take(i as int)),
            decreases self.segs@.len() - i,
        {
            r.push(SLASH);
            let ghost mid = bytes_of_segs(self@.take(i as int)) + seq![SLASH];
            proof {
                assert(r@ =~= mid);
            }
            let seg = &self.segs[i];
            let mut k: usize = 0;
            while k < seg.len()
                invariant
                    0 <= k <= seg@.len(),
                    r@ == mid + seg@.take(k as int),
                decreases seg@.len() - k,
            {
                r.push(seg[k]);
                proof {
                    assert(r@ =~= mid + seg@.take(k as int + 1));
                }
                k = k + 1;
            }
            proof {
                assert(seg@.take(seg@.len() as int) =~= seg@);
                assert(self@.take(i as int + 1).drop_last() =~= self@.take(i as int));
                assert(self@.take(i as int + 1).last() == self@[i as int]);
                assert(self@[i as int] == seg@);
                assert(r@ =~= bytes_of_segs(self@.take(i as int + 1)));
            }
            i = i + 1;
        }
        proof {
            assert(self@.take(self@.len() as int) =~= self@);
        }
        r
    }

    /// The path of the entry `name` directly inside this directory.
    pub fn child(&self, name: Vec<u8>) -> (r: AbsPath)
        ensures
            r@ == self@.push(name@),
    {
        let mut segs = copy_segs(&self.segs);
        let ghost before = views_of(segs@);
        segs.push(name);
        proof {
            assert(views_of(segs@) =~= before.push(name@));
        }
        AbsPath { segs }
    }

    /// The final segment: the base name the file had at its original
    /// location.
    pub fn last_seg(&self) -> (r: Vec<u8>)
        requires
            self@.len() > 0,
        ensures
            r@ == self@.last(),
    {
        copy_bytes(&self.segs[self.segs.len() - 1])
    }

    /// Copies the path.
    pub fn duplicate(&self) -> (r: AbsPath)
        ensures
            r@ == self@,
    {
        AbsPath { segs: copy_segs(&self.segs) }
    }

    /// Whether this path is `dir` extended by exactly one segment.
    pub fn is_child_of(&self, dir: &AbsPath) -> (r: bool)
        ensures
            r == (self@.len() == dir@.len() + 1 && self@.drop_last() == dir@),
    {
        if self.segs.len() == 0 || self.segs.len() - 1 != dir.segs.len() {
            return false;
        }
        let mut i: usize = 0;
        while i < dir.segs.len()
            invariant
                0 <= i <= dir.segs@.len(),
                self@.len() == dir@.len() + 1,
                forall|j: int| 0 <= j < i ==> self@[j] == dir@[j],
            decreases dir.segs@.len() - i,
        {
            if !bytes_eq(&self.segs[i], &dir.segs[i]) {
                proof {
                    assert(self@[i as int] != dir@[i as int]);
                    assert(self@.drop_last()[i as int] == self@[i as int]);
                }
                return false;
            }
            i = i + 1;
        }
        proof {
            assert(self@.drop_last() =~= dir@);
        }
        true
    }
}

/// Path equality, decided by contents.
pub fn path_eq(a: &AbsPath, b: &AbsPath) -> (r: bool)
    ensures
        r == (a@ == b@),
{
    if a.segs.len() != b.segs.len() {
        return false;
    }
    let mut i: usize = 0;
    while i < a.segs.len()
        invariant
            0 <= i <= a.segs@.len(),
            a@.len() == b@.len(),
            a@.len() == a.segs@.len(),
            forall|j: int| 0 <= j < i ==> a@[j] == b@[j],
        decreases a.segs@.len() - i,
    {
        if !bytes_eq(&a.segs[i], &b.segs[i]) {
            proof {
                assert(a@[i as int] != b@[i as int]);
            }
            return false;
        }
        i = i + 1;
    }
    proof {
        assert(a@ =~= b@);
    }
    true
}

} // verus!
