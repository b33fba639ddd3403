use vstd::prelude::*;
use vstd::multiset::Multiset;
use crate::dir_path::{DirPath, PathModel, is_child_of, views};
use crate::entry::{FsEntry, dirs_of, sum_sizes, entries_ok, lemma_entry_skip};

verus! {

broadcast use
    vstd::seq_lib::group_to_multiset_ensures,
    vstd::multiset::group_multiset_axioms,
    vstd::seq_lib::lemma_multiset_commutative;

/// One unit of traversal work: the pending directory paths of one branch,
/// kept as a stack ordered by depth. A path is pushed when its parent is
/// read and popped when its own turn comes, so the deepest discovered paths
/// leave first.
pub struct Stack {
    pub stack: Vec<DirPath>,
}

impl View for Stack {
    type V = Seq<PathModel>;

    open spec fn view(&self) -> Seq<PathModel> {
        views(self.stack@)
    }
}

/// The multiset of all pending paths across a sequence of work units.
pub open spec fn units_ms(us: Seq<Stack>) -> Multiset<PathModel>
    decreases us.len(),
{
    if us.len() == 0 {
        Multiset::empty()
    } else {
        units_ms(us.drop_last()).add(us.last()@.to_multiset())
    }
}

/// Adding a unit at the end adds exactly its pending paths.
pub proof fn lemma_units_ms_push(us: Seq<Stack>, u: Stack)
    ensures
        units_ms(us.push(u)) == units_ms(us).add(u@.to_multiset()),
{
    assert(us.push(u).drop_last() =~= us);
    assert(us.push(u).last() == u);
}

/// Replacing the unit at one position exchanges exactly its pending paths.
pub proof fn lemma_units_ms_update(us: Seq<Stack>, i: int, u: Stack)
    requires
        0 <= i < us.len(),
    ensures
        units_ms(us.update(i, u)).add(us[i]@.to_multiset()) == units_ms(us).add(
            u@.to_multiset(),
        ),
    decreases us.len(),
{
    let us2 = us.update(i, u);
    if i == us.len() - 1 {
        assert(us2.drop_last() =~= us.drop_last());
        assert(us2.last() == u);
        assert(units_ms(us2).add(us[i]@.to_multiset()) =~= units_ms(us).add(u@.to_multiset()));
    } else {
        assert(us2.drop_last() =~= us.drop_last().update(i, u));
        assert(us2.last() == us.last());
        lemma_units_ms_update(us.drop_last(), i, u);
        assert(us.drop_last()[i] == us[i]);
        assert(units_ms(us2) == units_ms(us.drop_last().update(i, u)).add(
            us.last()@.to_multiset(),
        ));
        assert(units_ms(us) == units_ms(us.drop_last()).add(us.last()@.to_multiset()));
        assert forall|p: PathModel|
            (units_ms(us2).add(us[i]@.to_multiset())).count(p) == (units_ms(us).add(
                u@.to_multiset(),
            )).count(p) by {
            assert((units_ms(us.drop_last().update(i, u)).add(
                us.drop_last()[i]@.to_multiset(),
            )).count(p) == (units_ms(us.drop_last()).add(u@.to_multiset())).count(p));
        }
        assert(units_ms(us2).add(us[i]@.to_multiset()) =~= units_ms(us).add(u@.to_multiset()));
    }
}

/// The union counts at least what any one unit holds.
pub proof fn lemma_units_ms_ge_unit(us: Seq<Stack>, i: int, q: PathModel)
    requires
        0 <= i < us.len(),
    ensures
        units_ms(us).count(q) >= us[i]@.to_multiset().count(q),
    decreases us.len(),
{
    if i < us.len() - 1 {
        lemma_units_ms_ge_unit(us.drop_last(), i, q);
        assert(us.drop_last()[i] == us[i]);
    }
}

/// The union counts at least what any two distinct units hold together.
pub proof fn lemma_units_ms_ge_two_units(us: Seq<Stack>, i: int, j: int, q: PathModel)
    requires
        0 <= i < j < us.len(),
    ensures
        units_ms(us).count(q) >= us[i]@.to_multiset().count(q) + us[j]@.to_multiset().count(q),
    decreases us.len(),
{
    if j == us.len() - 1 {
        lemma_units_ms_ge_unit(us.drop_last(), i, q);
        assert(us.drop_last()[i] == us[i]);
    } else {
        lemma_units_ms_ge_two_units(us.drop_last(), i, j, q);
        assert(us.drop_last()[i] == us[i]);
        assert(us.drop_last()[j] == us[j]);
    }
}

/// A value sitting at two positions of a sequence counts at least twice in
/// its multiset.
pub proof fn lemma_seq_dup_count(s: Seq<PathModel>, k: int, l: int)
    requires
        0 <= k < s.len(),
        0 <= l < s.len(),
        k != l,
        s[k] == s[l],
    ensures
        s.to_multiset().count(s[k]) >= 2,
{
    let q = s[k];
    assert(s.remove(k).to_multiset() == s.to_multiset().remove(q));
    let l2: int = if l < k {
        l
    } else {
        l - 1
    };
    assert(s.remove(k)[l2] == q);
    assert(s.remove(k).contains(q));
    assert(s.remove(k).to_multiset().count(q) > 0);
    assert(s.to_multiset().remove(q).count(q) == s.to_multiset().count(q) - 1);
}

impl Stack {
    /// Pending paths are ordered by depth, shallowest first: the stack
    /// discipline (children of the popped, deepest path are pushed on top)
    /// keeps it that way.
    pub open spec fn wf(self) -> bool {
        forall|i: int, j: int|
            0 <= i <= j < self@.len() ==> (#[trigger] self@[i]).len() <= (#[trigger] self@[j]).len()
    }

    /// Creates a unit with the single pending path `path`.
    pub fn from_path(path: DirPath) -> (s: Stack)
        ensures
            s@ == seq![path@],
            s.wf(),
    {
        let mut stack: Vec<DirPath> = Vec::new();
        stack.push(path);
        let s = Stack { stack };
        proof {
            assert(s@ =~= seq![path@]);
        }
        s
    }

    /// The number of pending paths.
    pub fn len(&self) -> (n: usize)
        ensures
            n == self@.len(),
    {
        self.stack.len()
    }

    /// Removes and returns the deepest pending path, or `None` if the unit
    /// is exhausted.
    pub fn pop(&mut self) -> (r: Option<DirPath>)
        ensures
            old(self)@.len() == 0 ==> r is None && final(self)@ == old(self)@,
            old(self)@.len() > 0 ==> (r matches Some(p) && p@ == old(self)@.last()
                && final(self)@ == old(self)@.drop_last()),
            old(self).wf() ==> final(self).wf(),
    {
        let r = self.stack.pop();
        proof {
            if old(self)@.len() > 0 {
                assert(final(self)@ =~= old(self)@.drop_last());
            } else {
                assert(final(self)@ =~= old(self)@);
            }
        }
        r
    }

    /// Takes the listing of the directory `dir`, which must be the path
    /// popped from this unit last: pushes each subdirectory path as new
    /// pending work and returns the byte total of the file entries,
    /// ignoring everything else.
    pub fn absorb(&mut self, dir: &DirPath, entries: &Vec<FsEntry>) -> (total: u64)
        requires
            old(self).wf(),
            entries_ok(dir@, entries@),
            sum_sizes(entries@) <= u64::MAX,
            forall|k: int| 0 <= k < old(self)@.len()
                ==> (#[trigger] old(self)@[k]).len() <= dir@.len(),
        ensures
            final(self)@ == old(self)@ + dirs_of(entries@),
            total as nat == sum_sizes(entries@),
            final(self).wf(),
    {
        let ghost es = entries@;
        let ghost start = old(self)@;
        proof {
            assert(es.skip(0) =~= es);
        }
        let mut total: u64 = 0;
        let n = entries.len();
        let mut i: usize = 0;
        while i < n
            invariant
                n == es.len(),
                i <= n,
                es == entries@,
                sum_sizes(es) <= u64::MAX,
                entries_ok(dir@, es),
                self@ + dirs_of(es.skip(i as int)) == start + dirs_of(es),
                total as nat + sum_sizes(es.skip(i as int)) == sum_sizes(es),
            decreases n - i,
        {
            proof {
                lemma_entry_skip(es, i as int);
            }
            let ghost pre = self@;
            match &entries[i] {
                FsEntry::Dir(d) => {
                    self.stack.push(d.clone());
                    proof {
                        let dm = es[i as int]->Dir_0@;
                        assert(self@ =~= pre.push(dm));
                        assert(pre.push(dm) + dirs_of(es.skip(i + 1)) =~= pre + (seq![dm]
                            + dirs_of(es.skip(i + 1))));
                    }
                }
                FsEntry::File(sz) => {
                    total = total + *sz;
                }
                FsEntry::Other => {},
            }
            i = i + 1;
        }
        proof {
            assert(es.skip(n as int) =~= Seq::empty());
            assert(self@ =~= start + dirs_of(es));
            assert forall|a: int, b: int| 0 <= a <= b < self@.len() implies (#[trigger] self@[a]).len()
                <= (#[trigger] self@[b]).len() by {
                if b >= start.len() {
                    assert(dirs_of(es)[b - start.len()] == self@[b]);
                    assert(is_child_of(dirs_of(es)[b - start.len()], dir@));
                    if a >= start.len() {
                        assert(is_child_of(dirs_of(es)[a - start.len()], dir@));
                    }
                }
            }
        }
        total
    }

    /// Splits the unit into at least two units that together hold exactly
    /// the same pending paths, none of them empty.
    ///
    /// The split point is the first pending path more than one level deeper
    /// than the shallowest: every path within one level of the shallowest
    /// becomes a unit of its own, in their original order, while the
    /// strictly deeper paths — one branch still being resolved — stay
    /// together, in order, as the unit in front (see [`split_shape`]). When
    /// no path lies more than one level below the shallowest, every path
    /// becomes a unit of its own (see [`fan_out_shape`]).
    #[verifier::rlimit(80)]
    pub fn explode(self) -> (res: Vec<Stack>)
        requires
            self.wf(),
            self@.len() > 1,
        ensures
            res@.len() >= 2,
            forall|i: int| 0 <= i < res@.len()
                ==> (#[trigger] res@[i]).wf() && res@[i]@.len() > 0,
            units_ms(res@) == self@.to_multiset(),
            all_within_one(self@) ==> fan_out_shape(self@, res@),
            !all_within_one(self@) ==> (exists|k: int| split_shape(self@, res@, k)),
    {
        let ghost orig = self@;
        let mut paths = self.stack;
        let mut res: Vec<Stack> = Vec::new();
        let n = paths.len();
        let first_len = paths[0].depth();
        // Locate the first pending path more than one level deeper than the
        // shallowest.
        let mut pos: usize = 1;
        while pos < n && (paths[pos].depth() <= first_len || paths[pos].depth() - first_len <= 1)
            invariant
                n == paths@.len(),
                views(paths@) == orig,
                n == orig.len(),
                forall|a: int, b: int|
                    0 <= a <= b < n ==> (#[trigger] orig[a]).len() <= (#[trigger] orig[b]).len(),
                1 <= pos <= n,
                first_len == orig[0].len(),
                forall|k: int| 0 <= k < pos ==> (#[trigger] orig[k]).len() <= first_len + 1,
            decreases n - pos,
        {
            pos = pos + 1;
        }
        let ghost kk = pos as int;
        let ghost deep_units: int = if kk < n as int {
            1int
        } else {
            0int
        };
        proof {
            assert(kk < n ==> orig[kk].len() > first_len + 1);
        }
        if pos < n {
            let deep = paths.split_off(pos);
            let du = Stack { stack: deep };
            proof {
                assert(du@ =~= orig.subrange(kk, n as int));
                assert(views(paths@) =~= orig.subrange(0, kk));
            }
            res.push(du);
            proof {
                lemma_units_ms_push(Seq::empty(), du);
                assert(units_ms(Seq::<Stack>::empty().push(du)) =~= du@.to_multiset());
                assert(res@ =~= Seq::<Stack>::empty().push(du));
                assert(orig =~= orig.subrange(0, kk) + orig.subrange(kk, n as int));
                assert(units_ms(res@).add(views(paths@).to_multiset()) =~= orig.to_multiset());
                assert(du.wf()) by {
                    assert forall|a: int, b: int| 0 <= a <= b < du@.len() implies (
                    #[trigger] du@[a]).len() <= (#[trigger] du@[b]).len() by {
                        assert(du@[a] == orig[kk + a]);
                        assert(du@[b] == orig[kk + b]);
                    }
                }
            }
        } else {
            proof {
                assert(views(paths@) =~= orig.subrange(0, n as int));
                assert(units_ms(res@).add(views(paths@).to_multiset()) =~= orig.to_multiset());
            }
        }
        // One unit per remaining shallow path, in their original order.
        let m = paths.len();
        let ghost shallow = views(paths@);
        proof {
            assert(shallow == orig.subrange(0, m as int));
            assert(m as int == kk);
            assert(shallow.skip(0) =~= shallow);
        }
        let mut j: usize = 0;
        while j < m
            invariant
                m == paths@.len(),
                views(paths@) == shallow,
                m == shallow.len(),
                m as int == kk,
                n == orig.len(),
                shallow == orig.subrange(0, m as int),
                j <= m,
                deep_units == 0 || deep_units == 1,
                deep_units == 1 <==> kk < n as int,
                res@.len() == deep_units + j,
                units_ms(res@).add(shallow.skip(j as int).to_multiset()) == orig.to_multiset(),
                forall|t: int| 0 <= t < res@.len()
                    ==> (#[trigger] res@[t]).wf() && res@[t]@.len() > 0,
                deep_units == 1 ==> res@[0]@ == orig.subrange(kk, n as int),
                forall|t: int| deep_units <= t < res@.len() ==> (#[trigger] res@[t]@) == seq![
                    shallow[t - deep_units],
                ],
            decreases m - j,
        {
            let u = Stack::from_path(paths[j].clone());
            let ghost res_pre = res@;
            res.push(u);
            proof {
                assert(u@ =~= seq![shallow[j as int]]);
                assert(res@ =~= res_pre.push(u));
                lemma_units_ms_push(res_pre, u);
                assert(u@ =~= Seq::<PathModel>::empty().push(shallow[j as int]));
                assert(u@.to_multiset() =~= Multiset::<PathModel>::empty().insert(
                    shallow[j as int],
                ));
                let sk = shallow.skip(j as int);
                assert(sk[0] == shallow[j as int]);
                assert(sk.remove(0) =~= shallow.skip(j + 1));
                assert(sk.remove(0).to_multiset() == sk.to_multiset().remove(sk[0]));
                assert(sk.contains(sk[0]));
                assert(sk.to_multiset().count(sk[0]) > 0);
                assert(units_ms(res@).add(shallow.skip(j + 1).to_multiset()) =~= orig.to_multiset());
            }
            j = j + 1;
        }
        proof {
            assert(shallow.skip(m as int) =~= Seq::<PathModel>::empty());
            assert(units_ms(res@) =~= orig.to_multiset());
            if all_within_one(orig) {
                assert(deep_units == 0) by {
                    if kk < n as int {
                        assert(orig[kk].len() <= orig.first().len() + 1);
                    }
                }
                assert(res@.len() == orig.len());
                assert forall|t: int| 0 <= t < res@.len() implies (#[trigger] res@[t]@) == seq![
                    orig[t],
                ] by {
                    assert(res@[t]@ == seq![shallow[t]]);
                    assert(shallow[t] == orig[t]);
                }
                assert(fan_out_shape(orig, res@));
            } else {
                let w = choose|t: int| 0 <= t < orig.len() && orig[t].len() > orig.first().len()
                    + 1;
                assert(kk < n as int) by {
                    if kk == n as int {
                        assert(orig[w].len() <= first_len + 1);
                    }
                }
                assert forall|t: int| 0 <= t < kk implies (#[trigger] res@[t + 1]@) == seq![
                    orig[t],
                ] by {
                    assert(res@[t + 1]@ == seq![shallow[t]]);
                    assert(shallow[t] == orig[t]);
                }
                assert(split_shape(orig, res@, kk));
            }
            assert(res@.len() >= 2);
        }
        res
    }
}

/// No pending path lies more than one level below the shallowest: every
/// path is a top-level sibling or the immediate child of one, so a split
/// has no unresolved deep branch to keep together.
pub open spec fn all_within_one(orig: Seq<PathModel>) -> bool {
    forall|i: int| 0 <= i < orig.len() ==> (#[trigger] orig[i]).len() <= orig.first().len() + 1
}

/// The shape of a split with no deep branch: one single-path unit per
/// pending path, in their original order.
pub open spec fn fan_out_shape(orig: Seq<PathModel>, res: Seq<Stack>) -> bool {
    &&& res.len() == orig.len()
    &&& forall|i: int| 0 <= i < res.len() ==> (#[trigger] res[i]@) == seq![orig[i]]
}

/// The shape of a split with a deep branch, `k` being the index of the
/// first pending path more than one level deeper than the shallowest: the
/// deep paths stay together, in order, as the unit in front, and each of
/// the `k` shallow paths forms a unit of its own, in their original order.
pub open spec fn split_shape(orig: Seq<PathModel>, res: Seq<Stack>, k: int) -> bool {
    &&& 1 <= k < orig.len()
    &&& forall|i: int| 0 <= i < k ==> (#[trigger] orig[i]).len() <= orig.first().len() + 1
    &&& orig[k].len() > orig.first().len() + 1
    &&& res.len() == k + 1
    &&& res[0]@ == orig.subrange(k, orig.len() as int)
    &&& forall|i: int| 0 <= i < k ==> (#[trigger] res[i + 1]@) == seq![orig[i]]
}

} // verus!
