//! The pending-segment index used while stitching contours.
//!
//! Segments are bucketed by the integer grid coordinate their start point
//! rounds down to, and the keys whose coordinate lies on the outer edge of
//! the image are kept aside so that stitching can prefer boundary starts.
//! A bucket is deleted the moment it empties, so every stored bucket is
//! nonempty. The index is consumed segment by segment; its abstract value is
//! the multiset of segments still pending.

use vstd::prelude::*;

use vstd::multiset::Multiset;

use crate::geom::{Pt, Seg, SCALE, seg_bounded};

verus! {

broadcast use vstd::multiset::group_multiset_axioms, vstd::seq_lib::group_to_multiset_ensures;

/// The bucket key of a point: its coordinates rounded down to whole grid
/// units.
#[derive(PartialEq, Eq, Structural, Clone, Copy, Debug)]
pub struct Key {
    pub x: u64,
    pub y: u64,
}

pub open spec fn key_of(p: Pt) -> Key {
    Key { x: p.x / SCALE, y: p.y / SCALE }
}

pub fn key_at(p: Pt) -> (k: Key)
    ensures
        k == key_of(p),
{
    Key { x: p.x / SCALE, y: p.y / SCALE }
}

/// Whether a bucket key lies on the outer ring of an image with `w` by `h`
/// samples.
pub open spec fn key_on_border(k: Key, w: u64, h: u64) -> bool {
    k.x == 0 || k.x + 1 == w || k.y == 0 || k.y + 1 == h
}

pub fn key_on_border_at(k: Key, w: u64, h: u64) -> (r: bool)
    ensures
        r == key_on_border(k, w, h),
{
    k.x == 0 || (w > 0 && k.x == w - 1) || k.y == 0 || (h > 0 && k.y == h - 1)
}

/// The multiset of all segments held in a sequence of buckets.
pub open spec fn contents_of(bs: Seq<Seq<Seg>>) -> Multiset<Seg>
    decreases bs.len(),
{
    if bs.len() == 0 {
        Multiset::empty()
    } else {
        contents_of(bs.drop_last()).add(bs.last().to_multiset())
    }
}

pub proof fn lemma_contents_push(bs: Seq<Seq<Seg>>, b: Seq<Seg>)
    ensures
        contents_of(bs.push(b)) == contents_of(bs).add(b.to_multiset()),
{
    assert(bs.push(b).drop_last() =~= bs);
}

/// Each bucket is contained in the total: its counts never exceed the
/// total's.
pub proof fn lemma_contents_count_lower(bs: Seq<Seq<Seg>>, i: int)
    requires
        0 <= i < bs.len(),
    ensures
        forall|v: Seg| contents_of(bs).count(v) >= bs[i].to_multiset().count(v),
    decreases bs.len(),
{
    let cd = contents_of(bs.drop_last());
    let lm = bs.last().to_multiset();
    assert(contents_of(bs) == cd.add(lm));
    if i < bs.len() - 1 {
        lemma_contents_count_lower(bs.drop_last(), i);
        assert(bs.drop_last()[i] == bs[i]);
        assert forall|v: Seg| contents_of(bs).count(v) >= bs[i].to_multiset().count(v) by {
            assert(cd.count(v) >= bs[i].to_multiset().count(v));
        }
    } else {
        assert forall|v: Seg| contents_of(bs).count(v) >= bs[i].to_multiset().count(v) by {
            assert(contents_of(bs).count(v) == cd.count(v) + lm.count(v));
        }
    }
}

pub proof fn lemma_contents_update(bs: Seq<Seq<Seg>>, i: int, b: Seq<Seg>)
    requires
        0 <= i < bs.len(),
    ensures
        contents_of(bs.update(i, b)) == contents_of(bs).sub(bs[i].to_multiset()).add(
            b.to_multiset(),
        ),
    decreases bs.len(),
{
    let upd = bs.update(i, b);
    if i == bs.len() - 1 {
        let cd = contents_of(bs.drop_last());
        let lm = bs.last().to_multiset();
        assert(contents_of(bs) == cd.add(lm));
        assert(upd.drop_last() =~= bs.drop_last());
        assert(upd.last() == b);
        assert(contents_of(upd) == cd.add(b.to_multiset()));
        assert(cd.add(b.to_multiset()) =~= cd.add(lm).sub(lm).add(b.to_multiset()));
    } else {
        let dropped = bs.drop_last();
        assert(upd.drop_last() =~= dropped.update(i, b));
        assert(upd.last() == bs.last());
        lemma_contents_update(dropped, i, b);
        lemma_contents_count_lower(dropped, i);
        assert(contents_of(upd) == contents_of(dropped.update(i, b)).add(
            bs.last().to_multiset(),
        ));
        assert(contents_of(bs) == contents_of(dropped).add(bs.last().to_multiset()));
        assert(contents_of(upd) =~= contents_of(bs).sub(bs[i].to_multiset()).add(
            b.to_multiset(),
        ));
    }
}

pub proof fn lemma_contents_remove(bs: Seq<Seq<Seg>>, i: int)
    requires
        0 <= i < bs.len(),
    ensures
        contents_of(bs.remove(i)) == contents_of(bs).sub(bs[i].to_multiset()),
    decreases bs.len(),
{
    let rem = bs.remove(i);
    if i == bs.len() - 1 {
        let cd = contents_of(bs.drop_last());
        let lm = bs.last().to_multiset();
        assert(contents_of(bs) == cd.add(lm));
        assert(rem =~= bs.drop_last());
        assert(cd =~= cd.add(lm).sub(lm));
    } else {
        let dropped = bs.drop_last();
        assert(rem.drop_last() =~= dropped.remove(i));
        assert(rem.last() == bs.last());
        lemma_contents_remove(dropped, i);
        lemma_contents_count_lower(dropped, i);
        assert(contents_of(rem) == contents_of(dropped.remove(i)).add(bs.last().to_multiset()));
        assert(contents_of(bs) == contents_of(dropped).add(bs.last().to_multiset()));
        assert(contents_of(rem) =~= contents_of(bs).sub(bs[i].to_multiset()));
    }
}

/// A segment is pending exactly when some bucket holds it.
pub proof fn lemma_contents_mem(bs: Seq<Seq<Seg>>, s: Seg)
    ensures
        contents_of(bs).count(s) > 0 <==> exists|i: int, j: int|
            0 <= i < bs.len() && 0 <= j < bs[i].len() && bs[i][j] == s,
    decreases bs.len(),
{
    if bs.len() == 0 {
    } else {
        lemma_contents_mem(bs.drop_last(), s);
        let n = bs.len() - 1;
        if contents_of(bs).count(s) > 0 {
            if bs.last().to_multiset().count(s) > 0 {
                let j = choose|j: int| 0 <= j < bs.last().len() && bs.last()[j] == s;
                assert(bs[n][j] == s);
            } else {
                let (i, j) = choose|i: int, j: int|
                    0 <= i < bs.drop_last().len() && 0 <= j < bs.drop_last()[i].len()
                        && bs.drop_last()[i][j] == s;
                assert(bs[i][j] == s);
            }
        }
        if exists|i: int, j: int| 0 <= i < bs.len() && 0 <= j < bs[i].len() && bs[i][j] == s {
            let (i, j) = choose|i: int, j: int|
                0 <= i < bs.len() && 0 <= j < bs[i].len() && bs[i][j] == s;
            if i < n {
                assert(bs.drop_last()[i][j] == s);
            } else {
                assert(bs.last()[j] == s);
                assert(bs.last().contains(s));
            }
        }
    }
}

proof fn lemma_key_remove_nodup(s: Seq<Key>, i: int)
    requires
        s.no_duplicates(),
        0 <= i < s.len(),
    ensures
        s.remove(i).no_duplicates(),
        forall|x: Key| s.remove(i).contains(x) <==> (s.contains(x) && x != s[i]),
{
    let r = s.remove(i);
    assert(forall|m: int| 0 <= m < i ==> r[m] == s[m]);
    assert(forall|m: int| i <= m < r.len() ==> r[m] == s[m + 1]);
    assert forall|x: Key| r.contains(x) implies s.contains(x) && x != s[i] by {
        let m = choose|m: int| 0 <= m < r.len() && r[m] == x;
        if m < i {
            assert(s[m] == x);
        } else {
            assert(s[m + 1] == x);
        }
    }
    assert forall|x: Key| s.contains(x) && x != s[i] implies r.contains(x) by {
        let m = choose|m: int| 0 <= m < s.len() && s[m] == x;
        if m < i {
            assert(r[m] == x);
        } else {
            assert(r[m - 1] == x);
        }
    }
}

/// Whether the pending segments contain one whose start rounds onto the
/// image border.
pub open spec fn has_boundary_start(m: Multiset<Seg>, w: u64, h: u64) -> bool {
    exists|s: Seg| m.count(s) > 0 && key_on_border(key_of(s.start), w, h)
}

/// The index of pending segments, bucketed by rounded start coordinate.
/// A hash map over the same keys would make the bucket lookup O(1); the
/// linear scan keeps every step of the structure fully specified.
pub struct SegmentIndex {
    w: u64,
    h: u64,
    keys: Vec<Key>,
    buckets: Vec<Vec<Seg>>,
    boundary: Vec<Key>,
}

impl SegmentIndex {
    /// The buckets as mathematical sequences.
    pub closed spec fn bviews(self) -> Seq<Seq<Seg>> {
        self.buckets@.map_values(|b: Vec<Seg>| b@)
    }

    /// The multiset of segments still pending.
    pub closed spec fn contents(self) -> Multiset<Seg> {
        contents_of(self.bviews())
    }

    pub closed spec fn width(self) -> u64 {
        self.w
    }

    pub closed spec fn height(self) -> u64 {
        self.h
    }

    /// Buckets are nonempty, hold exactly the segments whose start rounds to
    /// their key, keys are unique, and the boundary list tracks exactly the
    /// live keys on the image border.
    pub closed spec fn wf(self) -> bool {
        &&& self.keys@.len() == self.buckets@.len()
        &&& self.keys@.no_duplicates()
        &&& (forall|i: int|
            0 <= i < self.buckets@.len() ==> (#[trigger] self.bviews()[i]).len() > 0)
        &&& (forall|i: int, j: int|
            0 <= i < self.buckets@.len() && 0 <= j < self.bviews()[i].len() ==> key_of(
                (#[trigger] self.bviews()[i][j]).start,
            ) == self.keys@[i])
        &&& (forall|i: int, j: int|
            0 <= i < self.buckets@.len() && 0 <= j < self.bviews()[i].len() ==> seg_bounded(
                #[trigger] self.bviews()[i][j],
            ))
        &&& self.boundary@.no_duplicates()
        &&& (forall|j: int|
            0 <= j < self.boundary@.len() ==> self.keys@.contains(#[trigger] self.boundary@[j])
                && key_on_border(self.boundary@[j], self.w, self.h))
        &&& (forall|i: int|
            0 <= i < self.keys@.len() && key_on_border(
                #[trigger] self.keys@[i],
                self.w,
                self.h,
            ) ==> self.boundary@.contains(self.keys@[i]))
    }

    pub fn new(w: u64, h: u64) -> (r: SegmentIndex)
        ensures
            r.wf(),
            r.contents() == Multiset::<Seg>::empty(),
            r.width() == w,
            r.height() == h,
    {
        let r = SegmentIndex {
            w,
            h,
            keys: Vec::new(),
            buckets: Vec::new(),
            boundary: Vec::new(),
        };
        proof {
            assert(r.bviews() =~= Seq::<Seq<Seg>>::empty());
        }
        r
    }

    fn find_key(&self, k: Key) -> (r: Option<usize>)
        ensures
            match r {
                Some(i) => i < self.keys@.len() && self.keys@[i as int] == k,
                None => !self.keys@.contains(k),
            },
    {
        let mut i: usize = 0;
        while i < self.keys.len()
            invariant
                i <= self.keys@.len(),
                forall|m: int| 0 <= m < i ==> self.keys@[m] != k,
            decreases self.keys@.len() - i,
        {
            if self.keys[i] == k {
                return Some(i);
            }
            i = i + 1;
        }
        None
    }

    fn find_boundary(&self, k: Key) -> (r: Option<usize>)
        ensures
            match r {
                Some(i) => i < self.boundary@.len() && self.boundary@[i as int] == k,
                None => !self.boundary@.contains(k),
            },
    {
        let mut i: usize = 0;
        while i < self.boundary.len()
            invariant
                i <= self.boundary@.len(),
                forall|m: int| 0 <= m < i ==> self.boundary@[m] != k,
            decreases self.boundary@.len() - i,
        {
            if self.boundary[i] == k {
                return Some(i);
            }
            i = i + 1;
        }
        None
    }

    /// File a freshly emitted segment under the bucket of its start point.
    pub fn add(&mut self, s: Seg)
        requires
            old(self).wf(),
            seg_bounded(s),
        ensures
            final(self).wf(),
            final(self).contents() == old(self).contents().insert(s),
            final(self).width() == old(self).width(),
            final(self).height() == old(self).height(),
    {
        let k = key_at(s.start);
        match self.find_key(k) {
            Some(i) => {
                let ghost obs = self.bviews();
                let mut b = self.buckets.remove(i);
                b.push(s);
                self.buckets.insert(i, b);
                proof {
                    assert(self.bviews() =~= obs.update(i as int, obs[i as int].push(s)));
                    lemma_contents_update(obs, i as int, obs[i as int].push(s));
                    lemma_contents_count_lower(obs, i as int);
                    assert(self.contents() =~= contents_of(obs).insert(s));
                    assert forall|ii: int, jj: int|
                        0 <= ii < self.buckets@.len() && 0 <= jj
                            < self.bviews()[ii].len() implies key_of(
                        (#[trigger] self.bviews()[ii][jj]).start,
                    ) == self.keys@[ii] && seg_bounded(self.bviews()[ii][jj]) by {
                        if ii == i as int && jj == self.bviews()[ii].len() - 1 {
                            assert(self.bviews()[ii][jj] == s);
                        } else {
                            assert(self.bviews()[ii][jj] == obs[ii][jj]);
                        }
                    }
                }
            },
            None => {
                let ghost obs = self.bviews();
                let ghost oks = self.keys@;
                self.keys.push(k);
                let mut b: Vec<Seg> = Vec::new();
                b.push(s);
                self.buckets.push(b);
                if key_on_border_at(k, self.w, self.h) {
                    self.boundary.push(k);
                }
                proof {
                    assert(self.bviews() =~= obs.push(b@));
                    lemma_contents_push(obs, b@);
                    assert(b@ =~= Seq::<Seg>::empty().push(s));
                    assert(Seq::<Seg>::empty().to_multiset().len() == 0);
                    assert(Seq::<Seg>::empty().to_multiset() =~= Multiset::<Seg>::empty());
                    assert(self.contents() =~= contents_of(obs).insert(s));
                    assert forall|x: Key| self.keys@.contains(x) implies oks.contains(x) || x
                        == k by {
                        let m = choose|m: int| 0 <= m < self.keys@.len() && self.keys@[m] == x;
                        if m < oks.len() {
                            assert(oks[m] == x);
                        }
                    }
                    assert(self.keys@.no_duplicates());
                    assert forall|j: int|
                        0 <= j < self.boundary@.len() implies self.keys@.contains(
                        #[trigger] self.boundary@[j],
                    ) by {
                        if j < old(self).boundary@.len() {
                            let x = self.boundary@[j];
                            assert(old(self).boundary@[j] == x);
                            let m = choose|m: int| 0 <= m < oks.len() && oks[m] == x;
                            assert(self.keys@[m] == x);
                        } else {
                            assert(self.boundary@[j] == k);
                            assert(self.keys@.last() == k);
                        }
                    }
                    assert forall|i: int|
                        0 <= i < self.keys@.len() && key_on_border(
                            #[trigger] self.keys@[i],
                            self.w,
                            self.h,
                        ) implies self.boundary@.contains(self.keys@[i]) by {
                        if i < oks.len() {
                            let x = self.keys@[i];
                            assert(oks[i] == x);
                            let m = choose|m: int|
                                0 <= m < old(self).boundary@.len() && old(self).boundary@[m] == x;
                            assert(self.boundary@[m] == x);
                        } else {
                            assert(self.keys@[i] == k);
                            assert(self.boundary@.last() == k);
                        }
                    }
                }
            },
        }
    }

    /// Remove and return the `j`-th segment of bucket `i`, dropping the
    /// bucket (and its boundary entry) if it empties.
    fn remove_at(&mut self, i: usize, j: usize) -> (s: Seg)
        requires
            old(self).wf(),
            i < old(self).buckets@.len(),
            j < old(self).bviews()[i as int].len(),
        ensures
            final(self).wf(),
            s == old(self).bviews()[i as int][j as int],
            seg_bounded(s),
            final(self).contents() == old(self).contents().remove(s),
            final(self).width() == old(self).width(),
            final(self).height() == old(self).height(),
    {
        let ghost obs = self.bviews();
        let ghost ob = obs[i as int];
        let mut b = self.buckets.remove(i);
        let s = b.swap_remove(j);
        proof {
            if j < ob.len() - 1 {
                vstd::seq_lib::to_multiset_update(ob, j as int, ob.last());
                vstd::seq_lib::to_multiset_remove(ob.update(j as int, ob.last()), ob.len() - 1);
                assert(ob.update(j as int, ob.last()).remove(ob.len() - 1) =~= b@);
                assert(b@.to_multiset() =~= ob.to_multiset().remove(s));
            } else {
                assert(ob.update(j as int, ob.last()) =~= ob);
                vstd::seq_lib::to_multiset_remove(ob, ob.len() - 1);
                assert(ob.remove(ob.len() - 1) =~= b@);
                assert(b@.to_multiset() =~= ob.to_multiset().remove(s));
            }
            assert(ob.contains(s));
        }
        if b.len() > 0 {
            self.buckets.insert(i, b);
            proof {
                assert(self.bviews() =~= obs.update(i as int, b@));
                lemma_contents_update(obs, i as int, b@);
                lemma_contents_count_lower(obs, i as int);
                assert(self.contents() =~= contents_of(obs).remove(s));
            }
        } else {
            let k = self.keys.remove(i);
            let ghost oks = old(self).keys@;
            let ghost obd = old(self).boundary@;
            match self.find_boundary(k) {
                Some(bi) => {
                    self.boundary.remove(bi);
                    proof {
                        lemma_key_remove_nodup(obd, bi as int);
                    }
                },
                None => {
                    proof {
                        assert(!obd.contains(k));
                    }
                },
            }
            proof {
                lemma_key_remove_nodup(oks, i as int);
                assert(self.bviews() =~= obs.remove(i as int));
                lemma_contents_remove(obs, i as int);
                assert(ob.to_multiset().remove(s).len() == 0);
                assert forall|v: Seg| ob.to_multiset().count(v) == Multiset::<
                    Seg,
                >::empty().insert(s).count(v) by {
                    if v == s {
                        assert(ob.to_multiset().count(s) - 1 <= ob.to_multiset().remove(s).len());
                    } else {
                        assert(ob.to_multiset().remove(s).count(v) == 0);
                    }
                }
                assert(ob.to_multiset() =~= Multiset::<Seg>::empty().insert(s));
                assert(self.contents() =~= contents_of(obs).remove(s));
                // the remaining buckets still match the remaining keys
                assert(forall|m: int|
                    0 <= m < i ==> self.keys@[m] == oks[m] && #[trigger] self.bviews()[m]
                        == obs[m]);
                assert(forall|m: int|
                    i <= m < self.keys@.len() ==> self.keys@[m] == oks[m + 1]
                        && #[trigger] self.bviews()[m] == obs[m + 1]);
                // the boundary list still tracks exactly the live border keys
                assert forall|m: int|
                    0 <= m < self.boundary@.len() implies self.keys@.contains(
                    #[trigger] self.boundary@[m],
                ) && key_on_border(self.boundary@[m], self.w, self.h) by {
                    let x = self.boundary@[m];
                    assert(obd.contains(x));
                    assert(x != k);
                    assert(oks.contains(x));
                    assert(self.keys@ == oks.remove(i as int));
                }
                assert forall|m: int|
                    0 <= m < self.keys@.len() && key_on_border(
                        #[trigger] self.keys@[m],
                        self.w,
                        self.h,
                    ) implies self.boundary@.contains(self.keys@[m]) by {
                    let x = self.keys@[m];
                    assert(self.keys@ == oks.remove(i as int));
                    assert(oks.contains(x) && x != k);
                    assert(obd.contains(x));
                }
            }
        }
        s
    }

    /// Remove some pending segment to start a new contour, preferring one
    /// whose start lies on the image border; `None` when the index is
    /// empty.
    pub fn pick_start(&mut self) -> (r: Option<Seg>)
        requires
            old(self).wf(),
        ensures
            final(self).wf(),
            final(self).width() == old(self).width(),
            final(self).height() == old(self).height(),
            match r {
                None => old(self).contents().len() == 0 && *final(self) == *old(self),
                Some(s) => {
                    &&& old(self).contents().count(s) > 0
                    &&& final(self).contents() == old(self).contents().remove(s)
                    &&& seg_bounded(s)
                    &&& (has_boundary_start(
                        old(self).contents(),
                        old(self).width(),
                        old(self).height(),
                    ) ==> key_on_border(key_of(s.start), old(self).width(), old(self).height()))
                },
            },
    {
        if self.boundary.len() > 0 {
            let k = self.boundary[self.boundary.len() - 1];
            match self.find_key(k) {
                Some(i) => {
                    proof {
                        assert(self.buckets@[i as int]@ == self.bviews()[i as int]);
                        assert(self.bviews()[i as int].len() > 0);
                    }
                    let j = self.buckets[i].len() - 1;
                    proof {
                        lemma_contents_mem(self.bviews(), self.bviews()[i as int][j as int]);
                    }
                    let s = self.remove_at(i, j);
                    Some(s)
                },
                None => {
                    proof {
                        assert(old(self).keys@.contains(old(self).boundary@.last()));
                        assert(false);
                    }
                    None
                },
            }
        } else if self.keys.len() > 0 {
            let i = self.keys.len() - 1;
            proof {
                assert(self.buckets@[i as int]@ == self.bviews()[i as int]);
                assert(self.bviews()[i as int].len() > 0);
            }
            let j = self.buckets[i].len() - 1;
            proof {
                lemma_contents_mem(self.bviews(), self.bviews()[i as int][j as int]);
                if has_boundary_start(old(self).contents(), old(self).w, old(self).h) {
                    let s2 = choose|s2: Seg|
                        old(self).contents().count(s2) > 0 && key_on_border(
                            key_of(s2.start),
                            old(self).w,
                            old(self).h,
                        );
                    lemma_contents_mem(old(self).bviews(), s2);
                    let (i2, j2) = choose|i2: int, j2: int|
                        0 <= i2 < old(self).bviews().len() && 0 <= j2
                            < old(self).bviews()[i2].len() && old(self).bviews()[i2][j2] == s2;
                    assert(key_on_border(old(self).keys@[i2], old(self).w, old(self).h));
                    assert(old(self).boundary@.contains(old(self).keys@[i2]));
                    assert(false);
                }
            }
            let s = self.remove_at(i, j);
            Some(s)
        } else {
            proof {
                assert(self.bviews() =~= Seq::<Seq<Seg>>::empty());
                assert(self.contents() =~= Multiset::<Seg>::empty());
            }
            None
        }
    }

    /// Remove and return a pending segment starting exactly at `p`; `None`
    /// when no pending segment starts there.
    pub fn take_matching(&mut self, p: Pt) -> (r: Option<Seg>)
        requires
            old(self).wf(),
        ensures
            final(self).wf(),
            final(self).width() == old(self).width(),
            final(self).height() == old(self).height(),
            match r {
                None => *final(self) == *old(self) && (forall|s: Seg|
                    old(self).contents().count(s) > 0 ==> s.start != p),
                Some(s) => {
                    &&& s.start == p
                    &&& old(self).contents().count(s) > 0
                    &&& final(self).contents() == old(self).contents().remove(s)
                    &&& seg_bounded(s)
                },
            },
    {
        let k = key_at(p);
        match self.find_key(k) {
            None => {
                proof {
                    assert forall|s: Seg|
                        old(self).contents().count(s) > 0 implies s.start != p by {
                        lemma_contents_mem(old(self).bviews(), s);
                        let (i2, j2) = choose|i2: int, j2: int|
                            0 <= i2 < old(self).bviews().len() && 0 <= j2
                                < old(self).bviews()[i2].len() && old(self).bviews()[i2][j2] == s;
                        if s.start == p {
                            assert(old(self).keys@[i2] == k);
                            assert(old(self).keys@.contains(k));
                        }
                    }
                }
                None
            },
            Some(i) => {
                let n = self.buckets[i].len();
                let mut j: usize = 0;
                while j < n
                    invariant
                        self == old(self),
                        old(self).wf(),
                        i < old(self).buckets@.len(),
                        old(self).keys@[i as int] == k,
                        k == key_of(p),
                        n == old(self).bviews()[i as int].len(),
                        j <= n,
                        forall|m: int|
                            0 <= m < j ==> (#[trigger] old(self).bviews()[i as int][m]).start
                                != p,
                    decreases n - j,
                {
                    if self.buckets[i][j].start.x == p.x && self.buckets[i][j].start.y == p.y {
                        proof {
                            lemma_contents_mem(self.bviews(), self.bviews()[i as int][j as int]);
                        }
                        let s = self.remove_at(i, j);
                        return Some(s);
                    }
                    j = j + 1;
                }
                proof {
                    assert forall|s: Seg|
                        old(self).contents().count(s) > 0 implies s.start != p by {
                        lemma_contents_mem(old(self).bviews(), s);
                        let (i2, j2) = choose|i2: int, j2: int|
                            0 <= i2 < old(self).bviews().len() && 0 <= j2
                                < old(self).bviews()[i2].len() && old(self).bviews()[i2][j2] == s;
                        if s.start == p {
                            assert(old(self).keys@[i2] == k);
                            assert(old(self).keys@.no_duplicates());
                            assert(i2 == i as int);
                        }
                    }
                }
                None
            },
        }
    }
}

} // verus!
