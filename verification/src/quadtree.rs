//! A bucketed point quadtree: a recursive four-way spatial partition in
//! which every leaf holds at most one bucket of values sharing one exact
//! coordinate. Supports insertion and rectangle-range queries.

use vstd::multiset::Multiset;
use vstd::prelude::*;

use crate::geom::Coordinate;
use crate::geom::Extent;
use crate::geom::lemma_point_in_both_intersects;
use crate::geom::lemma_quad_extent_within;
use crate::geom::lemma_quadrant_contains;
use crate::geom::lemma_same_quadrant_shrinks;

verus! {

broadcast use vstd::multiset::group_multiset_axioms;

/// The multiset of `(value, coordinate)` pairs held by one bucket.
pub open spec fn pairs_ms<T>(vals: Seq<T>, c: Coordinate) -> Multiset<(T, Coordinate)>
    decreases vals.len(),
{
    if vals.len() == 0 {
        Multiset::empty()
    } else {
        pairs_ms(vals.drop_last(), c).insert((vals.last(), c))
    }
}

/// An empty bucket contributes nothing.
pub proof fn lemma_pairs_ms_empty<T>(c: Coordinate)
    ensures
        pairs_ms(Seq::<T>::empty(), c) == Multiset::<(T, Coordinate)>::empty(),
{
}

/// Appending to a bucket inserts one pair.
pub proof fn lemma_pairs_ms_push<T>(vals: Seq<T>, c: Coordinate, v: T)
    ensures
        pairs_ms(vals.push(v), c) == pairs_ms(vals, c).insert((v, c)),
{
    assert(vals.push(v).drop_last() =~= vals);
    assert(vals.push(v).last() == v);
}

/// An empty leaf is well formed over a well-formed extent and holds nothing.
pub proof fn lemma_empty_leaf<T>(e: Extent)
    ensures
        QuadTree::<T>::empty_leaf(e).contents() == Multiset::<(T, Coordinate)>::empty(),
        QuadTree::<T>::empty_leaf(e).is_leaf(),
        QuadTree::<T>::empty_leaf(e).bucket_coord() is None,
        QuadTree::<T>::empty_leaf(e).root_extent() == e,
        e.wf() ==> QuadTree::<T>::empty_leaf(e).wf(),
{
    reveal_with_fuel(QuadTree::wf, 2);
    reveal_with_fuel(QuadTree::contents, 2);
    assert(QuadTree::<T>::empty_leaf(e).contents() =~= Multiset::<(T, Coordinate)>::empty());
}

/// Every pair contributed by a bucket carries the bucket's coordinate.
pub proof fn lemma_pairs_ms_coord<T>(vals: Seq<T>, c: Coordinate)
    ensures
        forall|p: (T, Coordinate)| #[trigger] pairs_ms(vals, c).count(p) > 0 ==> p.1 == c,
    decreases vals.len(),
{
    if vals.len() > 0 {
        lemma_pairs_ms_coord(vals.drop_last(), c);
        assert forall|p: (T, Coordinate)| #[trigger] pairs_ms(vals, c).count(p) > 0 implies p.1
            == c by {
            if p != (vals.last(), c) {
                assert(pairs_ms(vals.drop_last(), c).count(p) > 0);
            }
        }
    }
}

/// The four quadrant children of an internal node, in the order
/// bottom-left, bottom-right, top-left, top-right.
pub struct Quadrants<T> {
    bot_left: QuadTree<T>,
    bot_right: QuadTree<T>,
    top_left: QuadTree<T>,
    top_right: QuadTree<T>,
}

/// A quadtree node. A node is either a leaf, holding an optional bucket of
/// values that share one exact coordinate, or an internal node holding
/// exactly four children covering the quadrants of its extent.
pub struct QuadTree<T> {
    extent: Extent,
    bucket: Option<(Vec<T>, Coordinate)>,
    children: Option<Box<Quadrants<T>>>,
}

impl<T> Quadrants<T> {
    /// The child covering quadrant `q`.
    pub closed spec fn child(self, q: int) -> QuadTree<T> {
        if q == 0 {
            self.bot_left
        } else if q == 1 {
            self.bot_right
        } else if q == 2 {
            self.top_left
        } else {
            self.top_right
        }
    }
}

impl<T> QuadTree<T> {
    /// The extent this node covers.
    pub closed spec fn root_extent(self) -> Extent {
        self.extent
    }

    /// Whether this node is a leaf (no children).
    pub closed spec fn is_leaf(self) -> bool {
        self.children is None
    }

    /// The coordinate of this node's bucket, if the node is an occupied leaf.
    pub closed spec fn bucket_coord(self) -> Option<Coordinate> {
        match self.bucket {
            Some(b) => Some(b.1),
            None => None,
        }
    }

    /// The multiset of pairs this node holds in its own bucket.
    pub closed spec fn own_pairs(self) -> Multiset<(T, Coordinate)> {
        match self.bucket {
            Some(b) => pairs_ms(b.0@, b.1),
            None => Multiset::empty(),
        }
    }

    /// The multiset of every `(value, coordinate)` pair stored in this
    /// subtree.
    pub closed spec fn contents(self) -> Multiset<(T, Coordinate)>
        decreases self,
    {
        let kids = match self.children {
            Some(ch) => ch.bot_left.contents().add(ch.bot_right.contents()).add(
                ch.top_left.contents(),
            ).add(ch.top_right.contents()),
            None => Multiset::empty(),
        };
        self.own_pairs().add(kids)
    }

    /// Well-formedness: the extent invariant holds, a node is a leaf or an
    /// internal node but never both, buckets are nonempty and lie within
    /// the node's extent, and children cover exactly the quadrants of the
    /// parent's extent.
    pub closed spec fn wf(self) -> bool
        decreases self,
    {
        &&& self.extent.wf()
        &&& match self.bucket {
            Some(b) => self.children is None && b.0@.len() > 0 && self.extent.spec_contains(b.1),
            None => true,
        }
        &&& match self.children {
            Some(ch) => {
                &&& ch.bot_left.extent == self.extent.spec_quad_extent(0)
                &&& ch.bot_right.extent == self.extent.spec_quad_extent(1)
                &&& ch.top_left.extent == self.extent.spec_quad_extent(2)
                &&& ch.top_right.extent == self.extent.spec_quad_extent(3)
                &&& ch.bot_left.wf()
                &&& ch.bot_right.wf()
                &&& ch.top_left.wf()
                &&& ch.top_right.wf()
            },
            None => true,
        }
    }

    /// What a rectangle query finds: the pairs stored in subtrees that are
    /// not pruned, that is, in nodes whose extent intersects the query.
    pub closed spec fn found(self, q: Extent) -> Multiset<(T, Coordinate)>
        decreases self,
    {
        if !self.extent.spec_intersects(q) {
            Multiset::empty()
        } else {
            let kids = match self.children {
                Some(ch) => ch.bot_left.found(q).add(ch.bot_right.found(q)).add(
                    ch.top_left.found(q),
                ).add(ch.top_right.found(q)),
                None => Multiset::empty(),
            };
            self.own_pairs().add(kids)
        }
    }

    /// The containing regions of the stored points: the extents of every
    /// occupied leaf.
    pub closed spec fn regions(self) -> Set<Extent>
        decreases self,
    {
        let own = if self.bucket is Some {
            Set::empty().insert(self.extent)
        } else {
            Set::<Extent>::empty()
        };
        let kids = match self.children {
            Some(ch) => ch.bot_left.regions().union(ch.bot_right.regions()).union(
                ch.top_left.regions(),
            ).union(ch.top_right.regions()),
            None => Set::<Extent>::empty(),
        };
        own.union(kids)
    }

    /// A node freshly divided from an empty leaf over extent `e`: an
    /// internal node with no bucket whose four children are empty leaves
    /// over the quadrants of `e`.
    pub closed spec fn is_fresh_split(self, e: Extent) -> bool {
        &&& self.extent == e
        &&& self.bucket is None
        &&& match self.children {
            Some(ch) => {
                &&& ch.bot_left == Self::empty_leaf(e.spec_quad_extent(0))
                &&& ch.bot_right == Self::empty_leaf(e.spec_quad_extent(1))
                &&& ch.top_left == Self::empty_leaf(e.spec_quad_extent(2))
                &&& ch.top_right == Self::empty_leaf(e.spec_quad_extent(3))
            },
            None => false,
        }
    }

    /// An empty leaf node over `e`.
    pub closed spec fn empty_leaf(e: Extent) -> QuadTree<T> {
        QuadTree { extent: e, bucket: None, children: None }
    }

    /// A new, empty index over `extent`.
    pub fn new(extent: Extent) -> (t: Self)
        requires
            extent.wf(),
        ensures
            t.wf(),
            t.is_leaf(),
            t.bucket_coord() is None,
            t.root_extent() == extent,
            t.contents() == Multiset::<(T, Coordinate)>::empty(),
    {
        let t = QuadTree { extent, bucket: None, children: None };
        proof {
            reveal_with_fuel(QuadTree::contents, 2);
            assert(t.contents() =~= Multiset::<(T, Coordinate)>::empty());
        }
        t
    }

    /// Store `value` in this leaf's bucket. Succeeds exactly when the leaf
    /// is empty or its bucket already sits at `coordinate`; on a coordinate
    /// mismatch the node is left unchanged and the value is discarded.
    pub fn set_value(&mut self, value: T, coordinate: &Coordinate) -> (r: bool)
        requires
            old(self).wf(),
            old(self).is_leaf(),
            old(self).root_extent().spec_contains(*coordinate),
        ensures
            r == (old(self).bucket_coord() is None
                || old(self).bucket_coord() == Some(*coordinate)),
            r ==> final(self).wf()
                && final(self).is_leaf()
                && final(self).root_extent() == old(self).root_extent()
                && final(self).bucket_coord() == Some(*coordinate)
                && final(self).contents() == old(self).contents().insert((value, *coordinate)),
            !r ==> *final(self) == *old(self),
    {
        let fits = match &self.bucket {
            None => true,
            Some(b) => b.1 == *coordinate,
        };
        if !fits {
            return false;
        }
        match self.bucket.take() {
            None => {
                let mut vals: Vec<T> = Vec::new();
                let ghost prev = vals@;
                vals.push(value);
                self.bucket = Some((vals, *coordinate));
                proof {
                    reveal_with_fuel(QuadTree::contents, 2);
                    lemma_pairs_ms_push(prev, *coordinate, value);
                    assert(prev =~= Seq::<T>::empty());
                    lemma_pairs_ms_empty::<T>(*coordinate);
                    assert(self.contents() =~= old(self).contents().insert((value, *coordinate)));
                }
            },
            Some(b) => {
                let (mut vals, c) = b;
                let ghost prev = vals@;
                vals.push(value);
                self.bucket = Some((vals, c));
                proof {
                    reveal_with_fuel(QuadTree::contents, 2);
                    lemma_pairs_ms_push(prev, c, value);
                    assert(self.contents() =~= old(self).contents().insert((value, *coordinate)));
                }
            },
        }
        true
    }

    /// Turn an empty leaf into an internal node with four empty leaf
    /// children, one per quadrant of the node's extent.
    pub fn divide(&mut self)
        requires
            old(self).wf(),
            old(self).is_leaf(),
            old(self).bucket_coord() is None,
        ensures
            final(self).wf(),
            final(self).is_fresh_split(old(self).root_extent()),
            final(self).root_extent() == old(self).root_extent(),
            !final(self).is_leaf(),
            final(self).contents() == Multiset::<(T, Coordinate)>::empty(),
    {
        let e0 = self.extent.quad_extent(0);
        let e1 = self.extent.quad_extent(1);
        let e2 = self.extent.quad_extent(2);
        let e3 = self.extent.quad_extent(3);
        self.children = Some(
            Box::new(
                Quadrants {
                    bot_left: QuadTree { extent: e0, bucket: None, children: None },
                    bot_right: QuadTree { extent: e1, bucket: None, children: None },
                    top_left: QuadTree { extent: e2, bucket: None, children: None },
                    top_right: QuadTree { extent: e3, bucket: None, children: None },
                },
            ),
        );
        proof {
            lemma_quad_extent_within(self.extent, 0);
            lemma_quad_extent_within(self.extent, 1);
            lemma_quad_extent_within(self.extent, 2);
            lemma_quad_extent_within(self.extent, 3);
            reveal_with_fuel(QuadTree::wf, 3);
            reveal_with_fuel(QuadTree::contents, 3);
            assert(self.wf());
            assert(self.contents() =~= Multiset::<(T, Coordinate)>::empty());
        }
    }

    /// Whether the bucket of this occupied leaf sits exactly at `coord`.
    fn bucket_matches(&self, coord: &Coordinate) -> (r: bool)
        requires
            self.bucket_coord() is Some,
        ensures
            r == (self.bucket_coord() == Some(*coord)),
    {
        match &self.bucket {
            Some(b) => b.1 == *coord,
            None => false,
        }
    }

    /// Insert `new_value` at `coord`. Descends to the leaf responsible for
    /// `coord`; a leaf occupied by a different coordinate is split, over
    /// and over if necessary, until the two coordinates diverge into
    /// different quadrants. Always succeeds.
    pub fn insert(&mut self, coord: &Coordinate, new_value: T) -> (r: bool)
        requires
            old(self).wf(),
            old(self).root_extent().spec_contains(*coord),
        ensures
            final(self).wf(),
            final(self).root_extent() == old(self).root_extent(),
            final(self).contents() == old(self).contents().insert((new_value, *coord)),
            r,
        decreases *old(self),
    {
        if self.children.is_some() {
            let q = self.extent.quadrant(coord);
            proof {
                lemma_quadrant_contains(self.extent, *coord);
            }
            let mut ch: Box<Quadrants<T>> = self.children.take().unwrap();
            if q == 0 {
                ch.bot_left.insert(coord, new_value);
            } else if q == 1 {
                ch.bot_right.insert(coord, new_value);
            } else if q == 2 {
                ch.top_left.insert(coord, new_value);
            } else {
                ch.top_right.insert(coord, new_value);
            }
            self.children = Some(ch);
            proof {
                reveal_with_fuel(QuadTree::wf, 2);
                reveal_with_fuel(QuadTree::contents, 2);
                assert(self.contents() =~= old(self).contents().insert((new_value, *coord)));
            }
            true
        } else {
            if self.bucket.is_none() {
                self.set_value(new_value, coord)
            } else if self.bucket_matches(coord) {
                self.set_value(new_value, coord)
            } else {
                let b = self.bucket.take().unwrap();
                let (vals, o_coord) = b;
                proof {
                    reveal_with_fuel(QuadTree::contents, 2);
                    assert(old(self).contents() =~= pairs_ms(vals@, o_coord));
                }
                self.split_insert(vals, o_coord, coord, new_value);
                true
            }
        }
    }

    /// Split an empty leaf and place two buckets with distinct coordinates:
    /// the existing bucket `(vals, o_coord)` and the new single value at
    /// `coord`. Splits again at the child level while both coordinates fall
    /// into the same quadrant.
    fn split_insert(&mut self, vals: Vec<T>, o_coord: Coordinate, coord: &Coordinate, value: T)
        requires
            old(self).wf(),
            old(self).is_leaf(),
            old(self).bucket_coord() is None,
            old(self).root_extent().spec_contains(o_coord),
            old(self).root_extent().spec_contains(*coord),
            o_coord != *coord,
            vals@.len() > 0,
        ensures
            final(self).wf(),
            final(self).root_extent() == old(self).root_extent(),
            final(self).contents() == pairs_ms(vals@, o_coord).insert((value, *coord)),
        decreases old(self).root_extent().size(),
    {
        self.divide();
        let q_new = self.extent.quadrant(coord);
        let q_old = self.extent.quadrant(&o_coord);
        proof {
            lemma_quadrant_contains(self.extent, *coord);
            lemma_quadrant_contains(self.extent, o_coord);
        }
        let mut ch: Box<Quadrants<T>> = self.children.take().unwrap();
        proof {
            lemma_quad_extent_within(self.extent, 0);
            lemma_quad_extent_within(self.extent, 1);
            lemma_quad_extent_within(self.extent, 2);
            lemma_quad_extent_within(self.extent, 3);
            lemma_empty_leaf::<T>(self.extent.spec_quad_extent(0));
            lemma_empty_leaf::<T>(self.extent.spec_quad_extent(1));
            lemma_empty_leaf::<T>(self.extent.spec_quad_extent(2));
            lemma_empty_leaf::<T>(self.extent.spec_quad_extent(3));
        }
        if q_new == q_old {
            proof {
                lemma_same_quadrant_shrinks(self.extent, o_coord, *coord);
            }
            if q_new == 0 {
                ch.bot_left.split_insert(vals, o_coord, coord, value);
            } else if q_new == 1 {
                ch.bot_right.split_insert(vals, o_coord, coord, value);
            } else if q_new == 2 {
                ch.top_left.split_insert(vals, o_coord, coord, value);
            } else {
                ch.top_right.split_insert(vals, o_coord, coord, value);
            }
            self.children = Some(ch);
            proof {
                reveal_with_fuel(QuadTree::wf, 2);
                reveal_with_fuel(QuadTree::contents, 3);
                assert(self.wf());
                assert(self.contents() =~= pairs_ms(vals@, o_coord).insert((value, *coord)));
            }
        } else {
            ch.place_bucket(q_old, vals, o_coord);
            let mut single: Vec<T> = Vec::new();
            let ghost nothing = single@;
            single.push(value);
            proof {
                lemma_pairs_ms_push(nothing, *coord, value);
                assert(nothing =~= Seq::<T>::empty());
                lemma_pairs_ms_empty::<T>(*coord);
                assert(pairs_ms(single@, *coord) == Multiset::<(T, Coordinate)>::empty().insert(
                    (value, *coord),
                ));
            }
            ch.place_bucket(q_new, single, *coord);
            self.children = Some(ch);
            proof {
                reveal_with_fuel(QuadTree::wf, 2);
                reveal_with_fuel(QuadTree::contents, 3);
                let e = old(self).root_extent();
                assert(self.bucket is None);
                assert(ch.child(q_old as int).contents() == pairs_ms(vals@, o_coord));
                assert(ch.child(q_new as int).contents() == Multiset::<(T, Coordinate)>::empty(
                ).insert((value, *coord)));
                assert forall|j: int| 0 <= j < 4 && j != q_old && j != q_new implies ch.child(
                    j,
                ).contents() == Multiset::<(T, Coordinate)>::empty() && ch.child(j).wf() by {
                    assert(ch.child(j) == QuadTree::<T>::empty_leaf(e.spec_quad_extent(j)));
                }
                assert(self.contents() == self.own_pairs().add(
                    ch.child(0).contents().add(ch.child(1).contents()).add(
                        ch.child(2).contents(),
                    ).add(ch.child(3).contents()),
                ));
                assert(self.wf());
                assert(self.contents() =~= pairs_ms(vals@, o_coord).insert((value, *coord)));
            }
        }
    }
}

impl<T> Quadrants<T> {
    /// Fill the empty leaf child covering quadrant `q` with a bucket.
    fn place_bucket(&mut self, q: usize, vals: Vec<T>, c: Coordinate)
        requires
            q < 4,
            old(self).child(q as int).wf(),
            old(self).child(q as int).is_leaf(),
            old(self).child(q as int).bucket_coord() is None,
            old(self).child(q as int).root_extent().spec_contains(c),
            vals@.len() > 0,
        ensures
            final(self).child(q as int).wf(),
            final(self).child(q as int).is_leaf(),
            final(self).child(q as int).root_extent() == old(self).child(q as int).root_extent(),
            final(self).child(q as int).contents() == pairs_ms(vals@, c),
            forall|j: int| 0 <= j < 4 && j != q ==> final(self).child(j) == old(self).child(j),
    {
        proof {
            reveal_with_fuel(QuadTree::wf, 2);
            reveal_with_fuel(QuadTree::contents, 2);
        }
        if q == 0 {
            let e = self.bot_left.extent;
            self.bot_left = QuadTree { extent: e, bucket: Some((vals, c)), children: None };
            proof {
                reveal_with_fuel(QuadTree::wf, 2);
                reveal_with_fuel(QuadTree::contents, 2);
                assert(self.bot_left.contents() =~= pairs_ms(vals@, c));
            }
        } else if q == 1 {
            let e = self.bot_right.extent;
            self.bot_right = QuadTree { extent: e, bucket: Some((vals, c)), children: None };
            proof {
                reveal_with_fuel(QuadTree::wf, 2);
                reveal_with_fuel(QuadTree::contents, 2);
                assert(self.bot_right.contents() =~= pairs_ms(vals@, c));
            }
        } else if q == 2 {
            let e = self.top_left.extent;
            self.top_left = QuadTree { extent: e, bucket: Some((vals, c)), children: None };
            proof {
                reveal_with_fuel(QuadTree::wf, 2);
                reveal_with_fuel(QuadTree::contents, 2);
                assert(self.top_left.contents() =~= pairs_ms(vals@, c));
            }
        } else {
            let e = self.top_right.extent;
            self.top_right = QuadTree { extent: e, bucket: Some((vals, c)), children: None };
            proof {
                reveal_with_fuel(QuadTree::wf, 2);
                reveal_with_fuel(QuadTree::contents, 2);
                assert(self.top_right.contents() =~= pairs_ms(vals@, c));
            }
        }
    }
}

impl<T: Copy> QuadTree<T> {
    /// All pairs stored in nodes whose extent intersects `extent`. Entries
    /// are not filtered by exact point containment: intersecting the leaf's
    /// extent is enough, so the result can over-return near the query
    /// boundary; callers needing exact containment post-filter with
    /// `Extent::contains`.
    pub fn find_bbox(&self, extent: &Extent) -> (r: Vec<(T, Coordinate)>)
        requires
            self.wf(),
        ensures
            r@.to_multiset() == self.found(*extent),
    {
        let mut out: Vec<(T, Coordinate)> = Vec::new();
        proof {
            broadcast use vstd::seq_lib::group_to_multiset_ensures;

            vstd::multiset::lemma_multiset_empty_len(out@.to_multiset());
        }
        self.find_into(extent, &mut out);
        proof {
            assert(out@.to_multiset() =~= self.found(*extent));
        }
        out
    }

    /// Append everything `find_bbox` finds in this subtree to `out`.
    fn find_into(&self, extent: &Extent, out: &mut Vec<(T, Coordinate)>)
        requires
            self.wf(),
        ensures
            final(out)@.to_multiset() == old(out)@.to_multiset().add(self.found(*extent)),
        decreases *self,
    {
        if self.extent.intersects(extent) {
            match &self.bucket {
                Some(b) => {
                    let vals: &Vec<T> = &b.0;
                    let c: Coordinate = b.1;
                    let mut i: usize = 0;
                    proof {
                        assert(vals@.take(0) =~= Seq::<T>::empty());
                        lemma_pairs_ms_empty::<T>(c);
                    }
                    while i < vals.len()
                        invariant
                            i <= vals@.len(),
                            out@.to_multiset() == old(out)@.to_multiset().add(
                                pairs_ms(vals@.take(i as int), c),
                            ),
                        decreases vals@.len() - i,
                    {
                        let ghost before = out@;
                        out.push((vals[i], c));
                        proof {
                            broadcast use vstd::seq_lib::group_to_multiset_ensures;

                            assert(vals@.take(i + 1) =~= vals@.take(i as int).push(
                                vals@[i as int],
                            ));
                            lemma_pairs_ms_push(vals@.take(i as int), c, vals@[i as int]);
                            assert(out@ == before.push((vals@[i as int], c)));
                            assert(out@.to_multiset() =~= old(out)@.to_multiset().add(
                                pairs_ms(vals@.take(i + 1), c),
                            ));
                        }
                        i += 1;
                    }
                    proof {
                        reveal_with_fuel(QuadTree::found, 2);
                        assert(vals@.take(vals@.len() as int) =~= vals@);
                        assert(self.found(*extent) =~= pairs_ms(vals@, c));
                        assert(out@.to_multiset() =~= old(out)@.to_multiset().add(
                            self.found(*extent),
                        ));
                    }
                },
                None => {
                    match &self.children {
                        Some(ch) => {
                            ch.bot_left.find_into(extent, out);
                            ch.bot_right.find_into(extent, out);
                            ch.top_left.find_into(extent, out);
                            ch.top_right.find_into(extent, out);
                            proof {
                                reveal_with_fuel(QuadTree::found, 2);
                                assert(out@.to_multiset() =~= old(out)@.to_multiset().add(
                                    self.found(*extent),
                                ));
                            }
                        },
                        None => {
                            proof {
                                reveal_with_fuel(QuadTree::found, 2);
                                assert(self.found(*extent) =~= Multiset::<(T, Coordinate)>::empty());
                                assert(out@.to_multiset() =~= old(out)@.to_multiset().add(
                                    self.found(*extent),
                                ));
                            }
                        },
                    }
                },
            }
        } else {
            proof {
                reveal_with_fuel(QuadTree::found, 2);
                assert(out@.to_multiset() =~= old(out)@.to_multiset().add(self.found(*extent)));
            }
        }
    }
}

/// Everything stored in a well-formed subtree lies within its extent.
pub proof fn lemma_contents_in_extent<T>(t: QuadTree<T>)
    requires
        t.wf(),
    ensures
        forall|p: (T, Coordinate)| #[trigger] t.contents().count(p) > 0 ==> t.root_extent(
        ).spec_contains(p.1),
    decreases t,
{
    reveal_with_fuel(QuadTree::wf, 2);
    reveal_with_fuel(QuadTree::contents, 2);
    match t.children {
        Some(ch) => {
            lemma_contents_in_extent(ch.bot_left);
            lemma_contents_in_extent(ch.bot_right);
            lemma_contents_in_extent(ch.top_left);
            lemma_contents_in_extent(ch.top_right);
            lemma_quad_extent_within(t.root_extent(), 0);
            lemma_quad_extent_within(t.root_extent(), 1);
            lemma_quad_extent_within(t.root_extent(), 2);
            lemma_quad_extent_within(t.root_extent(), 3);
            assert forall|p: (T, Coordinate)| #[trigger] t.contents().count(p) > 0 implies t
                .root_extent().spec_contains(p.1) by {
                assert(t.own_pairs().count(p) == 0);
                if ch.bot_left.contents().count(p) == 0 && ch.bot_right.contents().count(p) == 0
                    && ch.top_left.contents().count(p) == 0 {
                    assert(ch.top_right.contents().count(p) > 0);
                }
            }
        },
        None => {
            match t.bucket {
                Some(b) => {
                    lemma_pairs_ms_coord(b.0@, b.1);
                    assert forall|p: (T, Coordinate)| #[trigger] t.contents().count(p) > 0 implies t
                        .root_extent().spec_contains(p.1) by {
                        assert(pairs_ms(b.0@, b.1).count(p) > 0);
                    }
                },
                None => {
                },
            }
        },
    }
}

/// A rectangle query never fabricates entries: what it finds is a
/// sub-multiset of what is stored.
pub proof fn lemma_find_bbox_sound<T>(t: QuadTree<T>, q: Extent)
    requires
        t.wf(),
    ensures
        t.found(q).subset_of(t.contents()),
    decreases t,
{
    reveal_with_fuel(QuadTree::wf, 2);
    reveal_with_fuel(QuadTree::contents, 2);
    reveal_with_fuel(QuadTree::found, 2);
    match t.children {
        Some(ch) => {
            lemma_find_bbox_sound(ch.bot_left, q);
            lemma_find_bbox_sound(ch.bot_right, q);
            lemma_find_bbox_sound(ch.top_left, q);
            lemma_find_bbox_sound(ch.top_right, q);
        },
        None => {
        },
    }
}

/// A rectangle query is complete with multiplicity for every pair whose
/// coordinate the query extent contains: such pairs are found exactly as
/// often as they are stored.
pub proof fn lemma_find_bbox_complete<T>(t: QuadTree<T>, q: Extent)
    requires
        t.wf(),
    ensures
        forall|p: (T, Coordinate)|
            q.spec_contains(p.1) ==> #[trigger] t.found(q).count(p) == t.contents().count(p),
    decreases t,
{
    reveal_with_fuel(QuadTree::wf, 2);
    reveal_with_fuel(QuadTree::contents, 2);
    reveal_with_fuel(QuadTree::found, 2);
    if !t.root_extent().spec_intersects(q) {
        lemma_contents_in_extent(t);
        assert forall|p: (T, Coordinate)| q.spec_contains(p.1) implies #[trigger] t.found(q).count(
            p,
        ) == t.contents().count(p) by {
            if t.contents().count(p) > 0 {
                lemma_point_in_both_intersects(t.root_extent(), q, p.1);
            }
        }
    } else {
        match t.children {
            Some(ch) => {
                lemma_find_bbox_complete(ch.bot_left, q);
                lemma_find_bbox_complete(ch.bot_right, q);
                lemma_find_bbox_complete(ch.top_left, q);
                lemma_find_bbox_complete(ch.top_right, q);
                assert forall|p: (T, Coordinate)| q.spec_contains(p.1) implies #[trigger] t.found(
                    q,
                ).count(p) == t.contents().count(p) by {
                    assert(ch.bot_left.found(q).count(p) == ch.bot_left.contents().count(p));
                    assert(ch.bot_right.found(q).count(p) == ch.bot_right.contents().count(p));
                    assert(ch.top_left.found(q).count(p) == ch.top_left.contents().count(p));
                    assert(ch.top_right.found(q).count(p) == ch.top_right.contents().count(p));
                }
            },
            None => {
                assert forall|p: (T, Coordinate)| q.spec_contains(p.1) implies #[trigger] t.found(
                    q,
                ).count(p) == t.contents().count(p) by {
                    assert(t.found(q) == t.own_pairs().add(Multiset::<(T, Coordinate)>::empty()));
                }
            },
        }
    }
}

/// A query whose extent contains every stored coordinate returns exactly
/// the stored pairs: N points inserted with pairwise-distinct coordinates
/// come back exactly once each, and K values inserted at one coordinate
/// come back together.
pub proof fn lemma_find_bbox_covering<T>(t: QuadTree<T>, q: Extent)
    requires
        t.wf(),
        forall|p: (T, Coordinate)| #[trigger] t.contents().count(p) > 0 ==> q.spec_contains(p.1),
    ensures
        t.found(q) == t.contents(),
{
    lemma_find_bbox_sound(t, q);
    lemma_find_bbox_complete(t, q);
    assert forall|p: (T, Coordinate)|
        #[trigger] t.found(q).count(p) == t.contents().count(p) by {
        if t.contents().count(p) > 0 {
        } else {
            assert(t.found(q).count(p) <= t.contents().count(p));
        }
    }
    assert(t.found(q) =~= t.contents());
}

/// A query extent disjoint from every stored point's containing region
/// returns an empty result.
pub proof fn lemma_find_bbox_disjoint<T>(t: QuadTree<T>, q: Extent)
    requires
        t.wf(),
        forall|e: Extent| #[trigger] t.regions().contains(e) ==> !e.spec_intersects(q),
    ensures
        t.found(q) == Multiset::<(T, Coordinate)>::empty(),
{
    lemma_find_bbox_disjoint_rec(t, q);
}

proof fn lemma_find_bbox_disjoint_rec<T>(t: QuadTree<T>, q: Extent)
    requires
        t.wf(),
        forall|e: Extent| #[trigger] t.regions().contains(e) ==> !e.spec_intersects(q),
    ensures
        t.found(q) == Multiset::<(T, Coordinate)>::empty(),
    decreases t,
{
    reveal_with_fuel(QuadTree::wf, 2);
    reveal_with_fuel(QuadTree::found, 2);
    reveal_with_fuel(QuadTree::regions, 2);
    if t.root_extent().spec_intersects(q) {
        if t.bucket is Some {
            assert(t.regions().contains(t.root_extent()));
            assert(false);
        }
        match t.children {
            Some(ch) => {
                assert forall|e: Extent| #[trigger] ch.bot_left.regions().contains(e)
                    implies !e.spec_intersects(q) by {
                    assert(t.regions().contains(e));
                }
                assert forall|e: Extent| #[trigger] ch.bot_right.regions().contains(e)
                    implies !e.spec_intersects(q) by {
                    assert(t.regions().contains(e));
                }
                assert forall|e: Extent| #[trigger] ch.top_left.regions().contains(e)
                    implies !e.spec_intersects(q) by {
                    assert(t.regions().contains(e));
                }
                assert forall|e: Extent| #[trigger] ch.top_right.regions().contains(e)
                    implies !e.spec_intersects(q) by {
                    assert(t.regions().contains(e));
                }
                lemma_find_bbox_disjoint_rec(ch.bot_left, q);
                lemma_find_bbox_disjoint_rec(ch.bot_right, q);
                lemma_find_bbox_disjoint_rec(ch.top_left, q);
                lemma_find_bbox_disjoint_rec(ch.top_right, q);
                assert(t.found(q) =~= Multiset::<(T, Coordinate)>::empty());
            },
            None => {
                assert(t.found(q) =~= Multiset::<(T, Coordinate)>::empty());
            },
        }
    }
}

} // verus!
