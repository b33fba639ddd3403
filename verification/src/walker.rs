use vstd::prelude::*;
use vstd::multiset::Multiset;
use crate::dir_path::{
    DirPath, PathModel, is_child_of, lemma_parent_prefix, lemma_prefix_of_parent,
    lemma_prefix_trans,
};
use crate::entry::{FsEntry, dirs_of, sum_sizes, entries_ok};
use crate::stack::{
    Stack, units_ms, all_within_one, fan_out_shape, split_shape, lemma_units_ms_update,
    lemma_units_ms_ge_unit, lemma_units_ms_ge_two_units, lemma_seq_dup_count,
};

verus! {

broadcast use
    vstd::seq_lib::group_to_multiset_ensures,
    vstd::multiset::group_multiset_axioms,
    vstd::seq_lib::lemma_multiset_commutative;

/// The builder for a traversal: it only holds the root path.
///
/// The root should name a directory; the caller lists each directory that
/// [`IntoIter::next`] hands out and answers through [`IntoIter::record`].
pub struct DirWiz {
    pub path: DirPath,
}

/// `p` is a directory reachable from `root` through the recorded listings
/// `ls`: it is the root itself, or a listed child of a reachable directory.
pub open spec fn reachable(
    ls: Map<PathModel, Set<PathModel>>,
    root: PathModel,
    p: PathModel,
) -> bool
    decreases p.len(),
{
    p == root || (p.len() > root.len() && ls.contains_key(p.drop_last())
        && ls[p.drop_last()].contains(p) && reachable(ls, root, p.drop_last()))
}

/// A reachable path is at least as deep as the root.
pub proof fn lemma_reachable_len(ls: Map<PathModel, Set<PathModel>>, root: PathModel, p: PathModel)
    requires
        reachable(ls, root, p),
    ensures
        p.len() >= root.len(),
    decreases p.len(),
{
    if p != root {
        lemma_reachable_len(ls, root, p.drop_last());
    }
}

/// Recording more listings never makes a path unreachable.
pub proof fn lemma_reachable_mono(
    ls1: Map<PathModel, Set<PathModel>>,
    ls2: Map<PathModel, Set<PathModel>>,
    root: PathModel,
    p: PathModel,
)
    requires
        reachable(ls1, root, p),
        forall|k: PathModel| #[trigger]
            ls1.contains_key(k) ==> ls2.contains_key(k) && ls2[k] == ls1[k],
    ensures
        reachable(ls2, root, p),
    decreases p.len(),
{
    if p != root {
        lemma_reachable_mono(ls1, ls2, root, p.drop_last());
    }
}

/// The work layout right after a pull that split the last remaining unit:
/// the split's units, with the path just handed out removed from the unit
/// in front — the deep branch's deepest path where a deep branch exists,
/// else the first pending path, whose one-path unit is left empty until
/// `record` refills or retires it.
pub open spec fn post_split_layout(unit: Seq<PathModel>, work: Seq<Stack>) -> bool {
    if all_within_one(unit) {
        &&& work.len() == unit.len()
        &&& work[0]@ == Seq::<PathModel>::empty()
        &&& forall|j: int| 1 <= j < work.len() ==> (#[trigger] work[j]@) == seq![unit[j]]
    } else {
        exists|k: int|
            {
                &&& 1 <= k < unit.len()
                &&& (forall|i: int|
                    0 <= i < k ==> (#[trigger] unit[i]).len() <= unit.first().len() + 1)
                &&& unit[k].len() > unit.first().len() + 1
                &&& work.len() == k + 1
                &&& work[0]@ == unit.subrange(k, unit.len() - 1)
                &&& (forall|j: int| 0 <= j < k ==> (#[trigger] work[j + 1]@) == seq![unit[j]])
            }
    }
}

/// The traversal state: an ordered collection of live work units and a
/// cursor naming the active one, together with the ghost history of the
/// traversal (what was emitted, and which children each emitted directory
/// was reported to have).
pub struct IntoIter {
    pub work: Vec<Stack>,
    pub index: usize,
    /// The directory handed out by `next` and not yet answered by `record`.
    pub visiting: Ghost<Option<PathModel>>,
    /// The directories emitted so far, in order.
    pub emitted: Ghost<Seq<PathModel>>,
    /// For each emitted directory, the subdirectories its listing reported.
    pub listings: Ghost<Map<PathModel, Set<PathModel>>>,
    /// The root the traversal was seeded with.
    pub root: Ghost<PathModel>,
}

impl IntoIter {
    /// All pending paths across the live work units.
    pub open spec fn pending(self) -> Multiset<PathModel> {
        units_ms(self.work@)
    }

    /// The path being visited, as a multiset.
    pub open spec fn vis_ms(self) -> Multiset<PathModel> {
        match self.visiting@ {
            Some(p) => Multiset::<PathModel>::empty().insert(p),
            None => Multiset::<PathModel>::empty(),
        }
    }

    /// Every path the traversal still owes a visit to.
    pub open spec fn live(self) -> Multiset<PathModel> {
        self.pending().add(self.vis_ms())
    }

    /// The terminal state: no work units and no visit in flight.
    pub open spec fn done(self) -> bool {
        self.work@.len() == 0 && self.visiting@ is None
    }

    /// No live unit is empty: a unit is destroyed as soon as its pending
    /// collection empties. Between pulls (`visiting` is `None`) that holds
    /// of every unit; while a visit is in flight only the active unit may
    /// sit empty, until `record` refills or retires it.
    pub open spec fn unit_occupancy(self) -> bool {
        forall|i: int|
            0 <= i < self.work@.len() && !(self.visiting@ is Some && i == self.index as int)
                ==> (#[trigger] self.work@[i]@).len() > 0
    }

    /// The core of the traversal invariant.
    ///
    /// Beyond the structural facts (a valid cursor, depth-ordered units),
    /// it carries the properties the traversal maintains: no path is owed
    /// two visits and no owed path lies in the subtree of another (subtree
    /// isolation), every owed or emitted path is reachable through the
    /// recorded listings, no directory is emitted twice, and every reported
    /// child of an emitted directory is either emitted or still owed.
    pub open spec fn inv_core(self) -> bool {
        &&& self.work@.len() > 0 ==> (self.index as int) < self.work@.len()
        &&& self.work@.len() == 0 ==> self.index == 0
        &&& forall|i: int| 0 <= i < self.work@.len() ==> (#[trigger] self.work@[i]).wf()
        &&& self.visiting@ matches Some(v) ==> self.work@.len() > 0 && (forall|k: int|
            0 <= k < self.work@[self.index as int]@.len()
                ==> (#[trigger] self.work@[self.index as int]@[k]).len() <= v.len())
        &&& forall|p: PathModel| #[trigger] self.live().count(p) <= 1
        &&& forall|p: PathModel, q: PathModel|
            #![trigger self.live().contains(p), self.live().contains(q)]
            self.live().contains(p) && self.live().contains(q) && p != q ==> !p.is_prefix_of(q)
        &&& forall|p: PathModel| #[trigger]
            self.live().contains(p) ==> reachable(self.listings@, self.root@, p)
        &&& forall|i: int|
            0 <= i < self.emitted@.len() ==> reachable(
                self.listings@,
                self.root@,
                #[trigger] self.emitted@[i],
            )
        &&& forall|i: int, j: int|
            0 <= i < j < self.emitted@.len()
                ==> #[trigger] self.emitted@[i] != #[trigger] self.emitted@[j]
        &&& forall|p: PathModel| #[trigger]
            self.listings@.contains_key(p) ==> self.emitted@.contains(p)
        &&& forall|i: int|
            0 <= i < self.emitted@.len() ==> self.listings@.contains_key(
                #[trigger] self.emitted@[i],
            )
        &&& forall|p: PathModel, c: PathModel|
            self.listings@.contains_key(p) && #[trigger] self.listings@[p].contains(c)
                ==> self.emitted@.contains(c) || self.live().contains(c)
        &&& forall|p: PathModel, c: PathModel|
            self.listings@.contains_key(p) && #[trigger] self.listings@[p].contains(c)
                ==> is_child_of(c, p)
        &&& forall|q: PathModel, i: int|
            #![trigger self.live().contains(q), self.emitted@[i]]
            self.live().contains(q) && 0 <= i < self.emitted@.len()
                ==> !q.is_prefix_of(self.emitted@[i])
        &&& self.live().contains(self.root@) || self.emitted@.contains(self.root@)
    }

    /// The full traversal invariant: the core plus unit occupancy.
    pub open spec fn inv(self) -> bool {
        self.inv_core() && self.unit_occupancy()
    }
}

impl DirWiz {
    /// Starts a traversal at `root`. The iterator yields one item per
    /// directory under `root`, the root itself included, provided the
    /// caller keeps answering `next` with honest listings.
    pub fn new(root: DirPath) -> (w: DirWiz)
        ensures
            w.path@ == root@,
    {
        DirWiz { path: root }
    }

    /// Seeds the traversal state: one work unit holding exactly the root.
    pub fn into_iter(self) -> (it: IntoIter)
        ensures
            it.inv(),
            !it.done(),
            it.work@.len() == 1,
            it.work@[0]@ == seq![self.path@],
            it.index == 0,
            it.root@ == self.path@,
            it.visiting@ is None,
            it.emitted@ == Seq::<PathModel>::empty(),
            it.listings@ == Map::<PathModel, Set<PathModel>>::empty(),
            it.live() == Multiset::<PathModel>::empty().insert(self.path@),
    {
        let ghost rootv = self.path@;
        let u = Stack::from_path(self.path);
        let mut work: Vec<Stack> = Vec::new();
        work.push(u);
        let it = IntoIter {
            work,
            index: 0,
            visiting: Ghost(None),
            emitted: Ghost(Seq::empty()),
            listings: Ghost(Map::empty()),
            root: Ghost(rootv),
        };
        proof {
            assert(it.work@ =~= Seq::<Stack>::empty().push(u));
            assert(units_ms(it.work@) == units_ms(Seq::<Stack>::empty()).add(u@.to_multiset()))
                by {
                assert(it.work@.drop_last() =~= Seq::<Stack>::empty());
            }
            assert(u@ =~= Seq::<PathModel>::empty().push(rootv));
            assert(u@.to_multiset() =~= Multiset::<PathModel>::empty().insert(rootv));
            assert(it.live() =~= Multiset::<PathModel>::empty().insert(rootv));
            assert(it.live().contains(rootv));
        }
        it
    }
}

impl IntoIter {
    /// Advances the cursor to the next live work unit, wrapping around; the
    /// paths owed a visit are exactly what they were, so interleaving only
    /// reorders the produced items.
    pub fn interleave(&mut self)
        requires
            old(self).inv(),
            old(self).visiting@ is None,
        ensures
            final(self).inv(),
            final(self).work@ == old(self).work@,
            final(self).visiting@ == old(self).visiting@,
            final(self).emitted@ == old(self).emitted@,
            final(self).listings@ == old(self).listings@,
            final(self).root@ == old(self).root@,
            final(self).index == (if old(self).work@.len() == 0 || old(self).index + 1
                == old(self).work@.len() {
                0usize
            } else {
                (old(self).index + 1) as usize
            }),
    {
        if self.work.len() == 0 {
            self.index = 0;
        } else {
            self.index = self.index + 1;
            if self.index == self.work.len() {
                self.index = 0;
            }
        }
        proof {
            assert(self.live() == old(self).live());
            assert(self.inv());
        }
    }

    /// Retires the work unit at the cursor, which must be exhausted: swaps
    /// it with the last unit and shrinks the collection by one, resetting
    /// the cursor to the front if it pointed at the removed tail.
    ///
    /// It asks for the invariant core rather than the full invariant: with
    /// the empty unit still present, unit occupancy does not yet hold; this
    /// call is what restores it.
    pub fn remove_stack(&mut self)
        requires
            old(self).inv_core(),
            old(self).visiting@ is None,
            old(self).work@.len() > 0,
            old(self).work@[old(self).index as int]@.len() == 0,
            forall|j: int|
                0 <= j < old(self).work@.len() && j != old(self).index as int ==> (
                #[trigger] old(self).work@[j]@).len() > 0,
        ensures
            final(self).inv(),
            final(self).visiting@ == old(self).visiting@,
            final(self).emitted@ == old(self).emitted@,
            final(self).listings@ == old(self).listings@,
            final(self).root@ == old(self).root@,
            final(self).work@ == old(self).work@.update(
                old(self).index as int,
                old(self).work@.last(),
            ).drop_last(),
            final(self).index == (if old(self).index + 1 == old(self).work@.len() {
                0usize
            } else {
                old(self).index
            }),
            final(self).pending() == old(self).pending(),
            final(self).live() == old(self).live(),
    {
        let ghost us = old(self).work@;
        let ghost i = old(self).index as int;
        let _removed = self.work.swap_remove(self.index);
        if self.work.len() == self.index {
            self.index = 0;
        }
        proof {
            let us2 = us.update(i, us.last());
            lemma_units_ms_update(us, i, us.last());
            assert(us[i]@.to_multiset() =~= Multiset::<PathModel>::empty());
            if i < us.len() - 1 {
                assert(us2.last() == us.last());
                assert(units_ms(us2) == units_ms(us2.drop_last()).add(us2.last()@.to_multiset()));
                assert forall|p: PathModel|
                    units_ms(us2.drop_last()).count(p) == units_ms(us).count(p) by {
                    assert((units_ms(us2).add(us[i]@.to_multiset())).count(p) == (units_ms(
                        us,
                    ).add(us.last()@.to_multiset())).count(p));
                }
                assert(units_ms(us2.drop_last()) =~= units_ms(us));
            } else {
                assert(us2 =~= us);
                assert(units_ms(us) == units_ms(us.drop_last()).add(us.last()@.to_multiset()));
                assert(us.last() == us[i]);
                assert(units_ms(us2.drop_last()) =~= units_ms(us));
            }
            assert(final(self).pending() == old(self).pending());
            assert(final(self).live() =~= old(self).live());
            assert forall|k: int| 0 <= k < final(self).work@.len() implies (#[trigger] final(self).work@[k]).wf() by {
                if k == i {
                    assert(final(self).work@[k] == us.last());
                } else {
                    assert(final(self).work@[k] == us[k]);
                }
            }
            assert forall|k: int| 0 <= k < final(self).work@.len() implies (#[trigger] final(self).work@[k]@).len() > 0 by {
                if k == i {
                    assert(final(self).work@[k] == us.last());
                    assert(us.len() - 1 != i);
                } else {
                    assert(final(self).work@[k] == us[k]);
                }
            }
            assert(final(self).inv());
        }
    }

    /// Pulls the next directory to visit.
    ///
    /// When only one unit remains and it holds more than one pending path
    /// (the split trigger this library adopts), it is first split so that
    /// interleaving across branches stays possible; otherwise the pull
    /// takes the deepest pending path of the unit at the cursor and leaves
    /// the unit layout untouched. `None` means the traversal is over:
    /// nothing was owed a visit any more.
    ///
    /// The caller must answer a `Some(d)` by listing `d` and handing the
    /// listing to `record` before pulling again.
    #[verifier::rlimit(50)]
    pub fn next(&mut self) -> (r: Option<DirPath>)
        requires
            old(self).inv(),
            old(self).visiting@ is None,
        ensures
            final(self).inv(),
            final(self).emitted@ == old(self).emitted@,
            final(self).listings@ == old(self).listings@,
            final(self).root@ == old(self).root@,
            r matches Some(p) ==> final(self).visiting@ == Some(p@) && old(self).pending().contains(
                p@,
            ) && final(self).pending().insert(p@) == old(self).pending() && final(self).live()
                == old(self).live(),
            r is None <==> old(self).work@.len() == 0,
            r is None ==> final(self).done() && old(self).pending()
                == Multiset::<PathModel>::empty(),
            old(self).work@.len() > 0 && (old(self).work@.len() > 1 || old(self).work@[0]@.len()
                == 1) ==> (r matches Some(p)
                && p@ == old(self).work@[old(self).index as int]@.last()
                && final(self).work@.len() == old(self).work@.len()
                && final(self).index == old(self).index
                && final(self).work@[old(self).index as int]@
                    == old(self).work@[old(self).index as int]@.drop_last()
                && (forall|j: int|
                    0 <= j < old(self).work@.len() && j != old(self).index as int
                        ==> final(self).work@[j] == old(self).work@[j])),
            old(self).work@.len() == 1 && old(self).work@[0]@.len() > 1 ==> (r matches Some(p)
                && p@ == (if all_within_one(old(self).work@[0]@) {
                    old(self).work@[0]@.first()
                } else {
                    old(self).work@[0]@.last()
                })
                && final(self).index == 0
                && final(self).work@.len() >= 2
                && post_split_layout(old(self).work@[0]@, final(self).work@)),
    {
        loop
            invariant
                old(self).inv(),
                old(self).visiting@ is None,
                self.inv(),
                self.visiting@ is None,
                self.work@ == old(self).work@,
                self.index == old(self).index,
                self.pending() == old(self).pending(),
                self.emitted@ == old(self).emitted@,
                self.listings@ == old(self).listings@,
                self.root@ == old(self).root@,
            decreases self.work@.len(),
        {
            if self.work.len() == 0 {
                proof {
                    assert(self.pending() == Multiset::<PathModel>::empty());
                }
                return None;
            }
            let ghost w0 = self.work@;
            if self.work.len() == 1 && self.work[0].len() > 1 {
                let u = self.work.remove(0);
                let ex = u.explode();
                self.work = ex;
                self.index = 0;
                proof {
                    assert(w0 =~= Seq::<Stack>::empty().push(u));
                    assert(w0.drop_last() =~= Seq::<Stack>::empty());
                    assert(units_ms(w0) == units_ms(Seq::<Stack>::empty()).add(u@.to_multiset()));
                    assert(units_ms(w0) =~= u@.to_multiset());
                    assert(self.pending() == old(self).pending());
                    assert(self.vis_ms() =~= Multiset::<PathModel>::empty());
                    assert(old(self).vis_ms() =~= Multiset::<PathModel>::empty());
                    assert(self.live() =~= old(self).live());
                    assert(self.work@.len() >= 2);
                    assert(self.inv());
                }
            }
            let ghost us = self.work@;
            let ghost i = self.index as int;
            let mut u = self.work.remove(self.index);
            let r = u.pop();
            match r {
                Some(p) => {
                    let ghost uv0 = us[i]@;
                    self.work.insert(self.index, u);
                    proof {
                        assert(self.work@ =~= us.update(i, self.work@[i]));
                        lemma_units_ms_update(us, i, self.work@[i]);
                        assert(uv0 =~= u@.push(p@));
                        assert(uv0.to_multiset() == u@.to_multiset().insert(p@));
                        assert forall|q: PathModel|
                            self.pending().insert(p@).count(q) == units_ms(us).count(q) by {
                            assert((units_ms(us.update(i, self.work@[i])).add(
                                uv0.to_multiset(),
                            )).count(q) == (units_ms(us).add(self.work@[i]@.to_multiset())).count(
                                q,
                            ));
                        }
                        assert(self.pending().insert(p@) =~= units_ms(us));
                    }
                    self.visiting = Ghost(Some(p@));
                    proof {
                        assert(self.live() =~= old(self).live());
                        assert(units_ms(us).contains(p@)) by {
                            assert(units_ms(us).count(p@) == self.pending().count(p@) + 1);
                        }
                        assert forall|k: int| 0 <= k < self.work@[i]@.len() implies (
                        #[trigger] self.work@[i]@[k]).len() <= p@.len() by {
                            assert(self.work@[i]@[k] == uv0[k]);
                            assert(us[i].wf());
                            assert(uv0[k].len() <= uv0.last().len());
                        }
                        assert forall|k: int|
                            0 <= k < self.work@.len() && k != i implies (
                        #[trigger] self.work@[k]@).len() > 0 by {
                            assert(self.work@[k] == us[k]);
                        }
                        assert(self.inv());
                        assert(p@ == uv0.last());
                        assert(self.work@[i]@ == uv0.drop_last());
                        assert forall|j: int| 0 <= j < us.len() && j != i implies self.work@[j]
                            == us[j] by {}
                        if w0.len() == 1 && w0[0]@.len() > 1 {
                            let unit = w0[0]@;
                            if all_within_one(unit) {
                                assert(fan_out_shape(unit, us));
                                assert(us[0]@ == seq![unit[0]]);
                                assert(p@ == unit.first());
                                assert(self.work@[0]@ =~= Seq::<PathModel>::empty());
                                assert forall|j: int| 1 <= j < self.work@.len() implies (
                                #[trigger] self.work@[j]@) == seq![unit[j]] by {
                                    assert(self.work@[j] == us[j]);
                                }
                                assert(post_split_layout(unit, self.work@));
                            } else {
                                let k = choose|k: int| split_shape(unit, us, k);
                                assert(split_shape(unit, us, k));
                                assert(us[0]@ == unit.subrange(k, unit.len() as int));
                                assert(p@ == unit[unit.len() - 1]);
                                assert(p@ == unit.last());
                                assert(self.work@[0]@ =~= unit.subrange(k, unit.len() - 1));
                                assert forall|j: int| 0 <= j < k implies (
                                #[trigger] self.work@[j + 1]@) == seq![unit[j]] by {
                                    assert(self.work@[j + 1] == us[j + 1]);
                                }
                                assert(self.work@.len() == k + 1);
                                assert(post_split_layout(unit, self.work@));
                            }
                        } else {
                            assert(us == w0);
                        }
                    }
                    return Some(p);
                },
                None => {
                    // Unreachable: between pulls no live unit is empty, so a
                    // pop from the active unit always yields a path. The
                    // retirement that the protocol prescribes here is kept
                    // for the record.
                    proof {
                        assert(us[i]@.len() > 0);
                        assert(false);
                    }
                    self.work.insert(self.index, u);
                    self.remove_stack();
                },
            }
        }
    }

    /// Answers the directory handed out by the last `next` with its
    /// listing: every subdirectory becomes new pending work for the active
    /// unit, and the visited directory is emitted together with the byte
    /// total of its direct file entries. The unit is retired if it ended up
    /// empty.
    #[verifier::rlimit(50)]
    pub fn record(&mut self, dir: DirPath, entries: Vec<FsEntry>) -> (res: (DirPath, u64))
        requires
            old(self).inv(),
            old(self).visiting@ == Some(dir@),
            entries_ok(dir@, entries@),
            sum_sizes(entries@) <= u64::MAX,
        ensures
            final(self).inv(),
            res.0 == dir,
            res.1 as nat == sum_sizes(entries@),
            final(self).visiting@ is None,
            final(self).root@ == old(self).root@,
            final(self).emitted@ == old(self).emitted@.push(dir@),
            final(self).listings@ == old(self).listings@.insert(
                dir@,
                dirs_of(entries@).to_set(),
            ),
            final(self).pending() == old(self).pending().add(dirs_of(entries@).to_multiset()),
            final(self).live() == old(self).live().remove(dir@).add(
                dirs_of(entries@).to_multiset(),
            ),
    {
        let ghost us = old(self).work@;
        let ghost i = old(self).index as int;
        let ghost d = dir@;
        let ghost cs = dirs_of(entries@);
        let ghost p_old = old(self).pending();
        let ghost l_old = old(self).live();
        let ghost e_old = old(self).emitted@;
        let ghost ls_old = old(self).listings@;
        let ghost rootv = old(self).root@;
        let mut u = self.work.remove(self.index);
        let ghost uv0 = u@;
        let total = u.absorb(&dir, &entries);
        let now_empty = u.len() == 0;
        self.work.insert(self.index, u);
        self.emitted = Ghost(self.emitted@.push(d));
        self.listings = Ghost(self.listings@.insert(d, cs.to_set()));
        self.visiting = Ghost(None);
        proof {
            let nw = self.work@;
            let p_new = self.pending();
            let e_new = self.emitted@;
            let ls_new = self.listings@;
            assert(nw =~= us.update(i, nw[i]));
            assert(nw[i]@ == uv0 + cs);
            // The new pending multiset: the old one plus the listed children.
            lemma_units_ms_update(us, i, nw[i]);
            assert((uv0 + cs).to_multiset() == uv0.to_multiset().add(cs.to_multiset()));
            assert forall|q: PathModel|
                p_new.count(q) == p_old.count(q) + cs.to_multiset().count(q) by {
                assert((units_ms(us.update(i, nw[i])).add(uv0.to_multiset())).count(q) == (
                units_ms(us).add(nw[i]@.to_multiset())).count(q));
            }
            assert(p_new =~= p_old.add(cs.to_multiset()));
            assert(self.live() =~= p_new);
            assert(l_old =~= p_old.insert(d));
            assert(self.live() =~= l_old.remove(d).add(cs.to_multiset()));
            // The visited directory was owed exactly one visit, and was
            // neither pending nor already emitted.
            assert(l_old.count(d) >= 1);
            assert(p_old.count(d) == 0) by {
                assert(l_old.count(d) <= 1);
            }
            assert(!e_old.contains(d)) by {
                if e_old.contains(d) {
                    let j = choose|j: int| 0 <= j < e_old.len() && e_old[j] == d;
                    assert(l_old.contains(d));
                    assert(!d.is_prefix_of(e_old[j]));
                    assert(d.is_prefix_of(d));
                }
            }
            assert(!ls_old.contains_key(d));
            // The listed children are distinct, new, and sit strictly under
            // the visited directory.
            assert(cs.no_duplicates());
            cs.lemma_multiset_has_no_duplicates();
            assert forall|c: PathModel| cs.to_multiset().contains(c) implies is_child_of(c, d)
                && d.is_prefix_of(c) && c != d && p_old.count(c) == 0 && !e_old.contains(c) by {
                let k = choose|k: int| 0 <= k < cs.len() && cs[k] == c;
                assert(is_child_of(c, d));
                lemma_parent_prefix(c, d);
                if p_old.count(c) > 0 {
                    assert(l_old.contains(c));
                    assert(l_old.contains(d));
                    assert(!d.is_prefix_of(c));
                }
                if e_old.contains(c) {
                    let j = choose|j: int| 0 <= j < e_old.len() && e_old[j] == c;
                    assert(l_old.contains(d));
                    assert(!d.is_prefix_of(e_old[j]));
                }
            }
            // Recording one more listing extends the map and keeps every
            // reachable path reachable.
            assert forall|k: PathModel| #[trigger]
                ls_old.contains_key(k) implies ls_new.contains_key(k) && ls_new[k] == ls_old[k] by {}
            assert forall|p: PathModel| reachable(ls_old, rootv, p) implies reachable(
                ls_new,
                rootv,
                p,
            ) by {
                lemma_reachable_mono(ls_old, ls_new, rootv, p);
            }
            assert(l_old.contains(d));
            assert(reachable(ls_new, rootv, d));
            lemma_reachable_len(ls_new, rootv, d);
            assert forall|c: PathModel| cs.to_multiset().contains(c) implies reachable(
                ls_new,
                rootv,
                c,
            ) by {
                assert(cs.contains(c));
                assert(cs.to_set().contains(c));
                assert(ls_new[d].contains(c));
                assert(c.drop_last() == d && c.len() == d.len() + 1);
            }
            // Each invariant conjunct of the new state.
            assert forall|q: PathModel| #[trigger] self.live().count(q) <= 1 by {
                if cs.to_multiset().count(q) > 0 {
                    assert(cs.to_multiset().count(q) == 1);
                    assert(p_old.count(q) == 0);
                } else {
                    assert(p_old.count(q) <= l_old.count(q));
                }
            }
            assert forall|q1: PathModel, q2: PathModel|
                #![trigger self.live().contains(q1), self.live().contains(q2)]
                self.live().contains(q1) && self.live().contains(q2) && q1 != q2 implies !q1.is_prefix_of(
                q2,
            ) by {
                if q1.is_prefix_of(q2) {
                    let in1 = p_old.contains(q1);
                    let in2 = p_old.contains(q2);
                    if in1 && in2 {
                        assert(l_old.contains(q1) && l_old.contains(q2));
                    } else if in1 && !in2 {
                        assert(cs.to_multiset().contains(q2));
                        assert(is_child_of(q2, d));
                        if q1.len() <= d.len() {
                            lemma_prefix_of_parent(q1, q2, d);
                            assert(q1 != d);
                            assert(l_old.contains(q1) && l_old.contains(d));
                        } else {
                            assert(q1.len() == q2.len());
                            assert(q1 =~= q2);
                        }
                    } else if !in1 && in2 {
                        assert(cs.to_multiset().contains(q1));
                        lemma_parent_prefix(q1, d);
                        lemma_prefix_trans(d, q1, q2);
                        assert(d != q2);
                        assert(l_old.contains(d) && l_old.contains(q2));
                    } else {
                        assert(cs.to_multiset().contains(q1) && cs.to_multiset().contains(q2));
                        assert(q1.len() == q2.len());
                        assert(q1 =~= q2);
                    }
                }
            }
            assert forall|q: PathModel| #[trigger] self.live().contains(q) implies reachable(
                ls_new,
                rootv,
                q,
            ) by {
                if p_old.contains(q) {
                    assert(l_old.contains(q));
                } else {
                    assert(cs.to_multiset().contains(q));
                }
            }
            assert forall|j: int| 0 <= j < e_new.len() implies reachable(
                ls_new,
                rootv,
                #[trigger] e_new[j],
            ) by {
                if j < e_old.len() {
                    assert(e_new[j] == e_old[j]);
                } else {
                    assert(e_new[j] == d);
                }
            }
            assert forall|a: int, b: int| 0 <= a < b < e_new.len() implies #[trigger] e_new[a]
                != #[trigger] e_new[b] by {
                if b < e_old.len() {
                    assert(e_new[a] == e_old[a] && e_new[b] == e_old[b]);
                } else {
                    assert(e_new[b] == d);
                    assert(e_new[a] == e_old[a]);
                    assert(e_old.contains(e_old[a]));
                }
            }
            assert forall|p: PathModel| #[trigger] ls_new.contains_key(p) implies e_new.contains(
                p,
            ) by {
                if p == d {
                    assert(e_new[e_old.len() as int] == d);
                } else {
                    assert(ls_old.contains_key(p));
                    assert(e_old.contains(p));
                    let j = choose|j: int| 0 <= j < e_old.len() && e_old[j] == p;
                    assert(e_new[j] == p);
                }
            }
            assert forall|j: int| 0 <= j < e_new.len() implies ls_new.contains_key(
                #[trigger] e_new[j],
            ) by {
                if j < e_old.len() {
                    assert(e_new[j] == e_old[j]);
                } else {
                    assert(e_new[j] == d);
                }
            }
            assert forall|p: PathModel, c: PathModel|
                ls_new.contains_key(p) && #[trigger] ls_new[p].contains(c) implies is_child_of(
                c,
                p,
            ) && (e_new.contains(c) || self.live().contains(c)) by {
                if p == d {
                    assert(cs.to_set().contains(c));
                    assert(cs.contains(c));
                    assert(cs.to_multiset().contains(c));
                    assert(self.live().count(c) >= cs.to_multiset().count(c));
                } else {
                    assert(ls_old.contains_key(p) && ls_old[p].contains(c));
                    assert(is_child_of(c, p));
                    if e_old.contains(c) {
                        let j = choose|j: int| 0 <= j < e_old.len() && e_old[j] == c;
                        assert(e_new[j] == c);
                    } else {
                        assert(l_old.contains(c));
                        if c == d {
                            assert(e_new[e_old.len() as int] == d);
                        } else {
                            assert(p_old.contains(c));
                            assert(self.live().count(c) >= p_old.count(c));
                        }
                    }
                }
            }
            assert forall|q: PathModel, j: int|
                #![trigger self.live().contains(q), e_new[j]]
                self.live().contains(q) && 0 <= j < e_new.len() implies !q.is_prefix_of(
                e_new[j],
            ) by {
                if q.is_prefix_of(e_new[j]) {
                    if p_old.contains(q) {
                        assert(l_old.contains(q));
                        if j < e_old.len() {
                            assert(e_new[j] == e_old[j]);
                        } else {
                            assert(e_new[j] == d);
                            assert(q != d);
                            assert(l_old.contains(d));
                        }
                    } else {
                        assert(cs.to_multiset().contains(q));
                        lemma_parent_prefix(q, d);
                        if j < e_old.len() {
                            assert(e_new[j] == e_old[j]);
                            lemma_prefix_trans(d, q, e_old[j]);
                            assert(l_old.contains(d));
                        } else {
                            assert(e_new[j] == d);
                            assert(q.len() > d.len());
                        }
                    }
                }
            }
            assert(self.live().contains(rootv) || e_new.contains(rootv)) by {
                if l_old.contains(rootv) {
                    if rootv == d {
                        assert(e_new[e_old.len() as int] == d);
                    } else {
                        assert(p_old.contains(rootv));
                        assert(self.live().count(rootv) >= p_old.count(rootv));
                    }
                } else {
                    assert(e_old.contains(rootv));
                    let j = choose|j: int| 0 <= j < e_old.len() && e_old[j] == rootv;
                    assert(e_new[j] == rootv);
                }
            }
            assert forall|k: int| 0 <= k < nw.len() implies (#[trigger] nw[k]).wf() by {
                if k != i {
                    assert(nw[k] == us[k]);
                }
            }
            assert(self.inv_core());
            assert forall|j: int| 0 <= j < nw.len() && j != i implies (#[trigger] nw[j]@).len()
                > 0 by {
                assert(nw[j] == us[j]);
            }
        }
        if now_empty {
            self.remove_stack();
        } else {
            proof {
                assert(self.unit_occupancy());
                assert(self.inv());
            }
        }
        (dir, total)
    }
}

/// At the end of a traversal every directory reachable through the
/// recorded listings was emitted.
proof fn lemma_reachable_emitted(w: IntoIter, p: PathModel)
    requires
        w.inv(),
        w.done(),
        reachable(w.listings@, w.root@, p),
    ensures
        w.emitted@.contains(p),
    decreases p.len(),
{
    assert(w.pending() =~= Multiset::<PathModel>::empty());
    assert(w.live() =~= Multiset::<PathModel>::empty());
    if p == w.root@ {
        assert(!w.live().contains(p));
    } else {
        let par = p.drop_last();
        lemma_reachable_emitted(w, par);
        assert(w.listings@[par].contains(p));
        assert(!w.live().contains(p));
    }
}

/// Completeness of a finished traversal: the emitted directories are
/// exactly those reachable from the root through the recorded listings,
/// and each was emitted exactly once. Since every finite tree's
/// directories are the reachable ones, a traversal that ends has produced
/// one item per directory, no more and no fewer.
pub proof fn lemma_traversal_complete(w: IntoIter)
    requires
        w.inv(),
        w.done(),
    ensures
        forall|p: PathModel| w.emitted@.contains(p) <==> reachable(w.listings@, w.root@, p),
        w.emitted@.no_duplicates(),
{
    assert forall|p: PathModel| w.emitted@.contains(p) implies reachable(
        w.listings@,
        w.root@,
        p,
    ) by {
        let j = choose|j: int| 0 <= j < w.emitted@.len() && w.emitted@[j] == p;
        assert(reachable(w.listings@, w.root@, w.emitted@[j]));
    }
    assert forall|p: PathModel| reachable(w.listings@, w.root@, p) implies w.emitted@.contains(
        p,
    ) by {
        lemma_reachable_emitted(w, p);
    }
}

/// Subtree isolation: no owed path lies in the subtree of another owed
/// path — in particular, two live work units never hold paths of one
/// subtree, and no unit holds one path twice.
pub proof fn lemma_subtree_isolation(w: IntoIter, i: int, k: int, j: int, l: int)
    requires
        w.inv(),
        0 <= i < w.work@.len(),
        0 <= k < w.work@[i]@.len(),
        0 <= j < w.work@.len(),
        0 <= l < w.work@[j]@.len(),
        i != j || k != l,
    ensures
        !w.work@[i]@[k].is_prefix_of(w.work@[j]@[l]),
{
    let q1 = w.work@[i]@[k];
    let q2 = w.work@[j]@[l];
    if q1 == q2 {
        if i == j {
            lemma_seq_dup_count(w.work@[i]@, k, l);
            lemma_units_ms_ge_unit(w.work@, i, q1);
        } else {
            let a: int = if i < j {
                i
            } else {
                j
            };
            let b: int = if i < j {
                j
            } else {
                i
            };
            lemma_units_ms_ge_two_units(w.work@, a, b, q1);
            assert(w.work@[i]@.to_multiset().contains(q1));
            assert(w.work@[j]@.to_multiset().contains(q2));
        }
        assert(w.pending().count(q1) >= 2);
        assert(w.live().count(q1) >= w.pending().count(q1));
        assert(false);
    } else {
        lemma_units_ms_ge_unit(w.work@, i, q1);
        lemma_units_ms_ge_unit(w.work@, j, q2);
        assert(w.work@[i]@.to_multiset().contains(q1));
        assert(w.work@[j]@.to_multiset().contains(q2));
        assert(w.live().count(q1) >= w.pending().count(q1));
        assert(w.live().count(q2) >= w.pending().count(q2));
        assert(w.live().contains(q1) && w.live().contains(q2));
    }
}

} // verus!
