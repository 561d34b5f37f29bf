//! The object tree as a forest: what it means for the parent, sibling and
//! child numbers of the first `n` objects to form one, and that taking an
//! object out or putting it in keeps it one.

use vstd::prelude::*;
use vstd::set_lib::{lemma_int_range, lemma_len_subset, set_int_range};
use crate::zmemory::{Link, MemView, MAX_CHAIN};

verus! {

/// The parent, sibling and child number of every object, 0 for none.
pub struct Links {
    pub parent: spec_fn(u8) -> u8,
    pub sibling: spec_fn(u8) -> u8,
    pub child: spec_fn(u8) -> u8,
}

/// A place at which `obj` stands in `list`.
pub open spec fn place_of(list: Seq<u8>, obj: u8) -> int {
    choose|i: int| 0 <= i < list.len() && list[i] == obj
}

/// The lists of children after the child at place `i` has left `p`.
pub open spec fn kids_without(kids: spec_fn(u8) -> Seq<u8>, p: u8, i: int) -> spec_fn(u8) -> Seq<
    u8,
> {
    |q: u8|
        if q == p {
            kids(p).remove(i)
        } else {
            kids(q)
        }
}

/// The lists of children after `obj` has become the first child of `dest`.
pub open spec fn kids_with(kids: spec_fn(u8) -> Seq<u8>, dest: u8, obj: u8) -> spec_fn(u8) -> Seq<
    u8,
> {
    |q: u8|
        if q == dest {
            seq![obj] + kids(dest)
        } else {
            kids(q)
        }
}

impl Links {
    /// The chain of siblings that starts at `first` is `list`: `first` is
    /// its first object, each object of the list is followed by its sibling,
    /// and the last has none.
    pub open spec fn is_chain(self, first: u8, list: Seq<u8>) -> bool {
        &&& first == (if list.len() > 0 {
            list[0]
        } else {
            0u8
        })
        &&& forall|j: int|
            0 <= j < list.len() ==> (#[trigger] list[j]) != 0 && (self.sibling)(list[j]) == (if j
                + 1 < list.len() {
                list[j + 1]
            } else {
                0u8
            })
    }

    /// The object `k` siblings behind `o`, 0 behind the end of the chain.
    pub open spec fn nth_sibling(self, o: u8, k: nat) -> u8
        decreases k,
    {
        if k == 0 || o == 0 {
            o
        } else {
            self.nth_sibling((self.sibling)(o), (k - 1) as nat)
        }
    }

    /// The object `k` parents above `o`, 0 above a root.
    pub open spec fn nth_parent(self, o: u8, k: nat) -> u8
        decreases k,
    {
        if k == 0 || o == 0 {
            o
        } else {
            self.nth_parent((self.parent)(o), (k - 1) as nat)
        }
    }

    /// `o` is `top` or stands somewhere below it.
    pub open spec fn is_below(self, o: u8, top: u8) -> bool {
        exists|k: nat| #[trigger] self.nth_parent(o, k) == top
    }

    /// The first `n` objects form the forest in which `kids` gives each
    /// object's children in their order, and `rank` is larger for a child
    /// than for its parent: the chain from each object's first child is its
    /// list of children; the children of an object are among the `n`, differ
    /// from each other, and have it as parent; and every object with a
    /// parent stands in that parent's list.
    pub open spec fn shapes(self, n: u8, kids: spec_fn(u8) -> Seq<u8>, rank: spec_fn(u8) -> nat)
        -> bool {
        &&& forall|o: u8| 1 <= o <= n ==> #[trigger] (self.parent)(o) <= n
        &&& forall|p: u8| 1 <= p <= n ==> self.is_chain((self.child)(p), #[trigger] kids(p))
        &&& forall|p: u8, i: int|
            1 <= p <= n && 0 <= i < kids(p).len() ==> 1 <= (#[trigger] kids(p)[i]) <= n
                && (self.parent)(kids(p)[i]) == p
        &&& forall|p: u8| 1 <= p <= n ==> (#[trigger] kids(p)).no_duplicates()
        &&& forall|o: u8|
            1 <= o <= n && (self.parent)(o) != 0 ==> kids(#[trigger] (self.parent)(o)).contains(o)
        &&& forall|o: u8|
            1 <= o <= n && (self.parent)(o) != 0 ==> rank((self.parent)(o)) < #[trigger] rank(o)
    }

    /// Following siblings along a chain gives the objects of its list, and 0
    /// behind the last.
    pub proof fn lemma_chain_nth(self, first: u8, list: Seq<u8>, k: nat)
        requires
            self.is_chain(first, list),
            k <= list.len(),
        ensures
            self.nth_sibling(first, k) == (if k < list.len() {
                list[k as int]
            } else {
                0u8
            }),
        decreases k,
    {
        if k > 0 {
            let rest = list.skip(1);
            assert(list[0] != 0);
            assert(self.is_chain((self.sibling)(first), rest)) by {
                assert forall|j: int| 0 <= j < rest.len() implies (#[trigger] rest[j]) != 0 && (
                self.sibling)(rest[j]) == (if j + 1 < rest.len() {
                    rest[j + 1]
                } else {
                    0u8
                }) by {
                    assert(rest[j] == list[j + 1]);
                }
            }
            self.lemma_chain_nth((self.sibling)(first), rest, (k - 1) as nat);
        }
    }
}

/// A list of bytes that differ from each other has at most 256 of them.
pub proof fn lemma_distinct_bytes(list: Seq<u8>)
    requires
        list.no_duplicates(),
    ensures
        list.len() <= 256,
{
    let wide = Seq::new(list.len(), |i: int| list[i] as int);
    assert(wide.no_duplicates());
    wide.unique_seq_to_set();
    lemma_int_range(0, 256);
    assert(wide.to_set().subset_of(set_int_range(0, 256))) by {
        assert forall|x: int| wide.to_set().contains(x) implies set_int_range(0, 256).contains(
            x,
        ) by {
            let i = choose|i: int| 0 <= i < wide.len() && wide[i] == x;
            assert(wide[i] == list[i] as int);
        }
    }
    lemma_len_subset(wide.to_set(), set_int_range(0, 256));
}

/// The objects of a list without its place `i`.
pub proof fn lemma_remove_index(list: Seq<u8>, i: int)
    requires
        0 <= i < list.len(),
    ensures
        list.remove(i).len() == list.len() - 1,
        forall|j: int|
            0 <= j < list.len() - 1 ==> #[trigger] list.remove(i)[j] == (if j < i {
                list[j]
            } else {
                list[j + 1]
            }),
{
}

impl Links {
    /// A chain that is closed over its place `i` is the chain of the list
    /// without that place.
    pub proof fn lemma_chain_remove(self, after: Links, list: Seq<u8>, i: int, first: u8)
        requires
            0 <= i < list.len(),
            self.is_chain(list[0], list),
            list.no_duplicates(),
            forall|j: int|
                0 <= j < list.len() && j != i ==> (after.sibling)(#[trigger] list[j]) == (if j == i
                    - 1 {
                    (self.sibling)(list[i])
                } else {
                    (self.sibling)(list[j])
                }),
            first == (if i == 0 {
                (self.sibling)(list[0])
            } else {
                list[0]
            }),
        ensures
            after.is_chain(first, list.remove(i)),
    {
        let short = list.remove(i);
        lemma_remove_index(list, i);
        assert(list[0] != 0);
        assert forall|j: int| 0 <= j < short.len() implies (#[trigger] short[j]) != 0 && (
        after.sibling)(short[j]) == (if j + 1 < short.len() {
            short[j + 1]
        } else {
            0u8
        }) by {
            if j < i {
                assert(short[j] == list[j]);
                assert(list[j] != 0);
                assert(list[i] != 0);
                if j == i - 1 {
                    assert((self.sibling)(list[i]) == (if i + 1 < list.len() {
                        list[i + 1]
                    } else {
                        0u8
                    }));
                } else {
                    assert((self.sibling)(list[j]) == list[j + 1]);
                }
            } else {
                assert(short[j] == list[j + 1]);
                assert(list[j + 1] != 0);
                assert((self.sibling)(list[j + 1]) == (if j + 2 < list.len() {
                    list[j + 2]
                } else {
                    0u8
                }));
            }
        }
        if i == 0 {
            assert((self.sibling)(list[0]) == (if 1 < list.len() {
                list[1]
            } else {
                0u8
            }));
        }
    }

    /// Links that agree with those of a forest on its objects are those of
    /// the same forest.
    pub proof fn lemma_same_shapes(
        self,
        after: Links,
        n: u8,
        kids: spec_fn(u8) -> Seq<u8>,
        rank: spec_fn(u8) -> nat,
    )
        requires
            self.shapes(n, kids, rank),
            forall|x: u8| 1 <= x <= n ==> #[trigger] (after.parent)(x) == (self.parent)(x),
            forall|x: u8| 1 <= x <= n ==> #[trigger] (after.sibling)(x) == (self.sibling)(x),
            forall|x: u8| 1 <= x <= n ==> #[trigger] (after.child)(x) == (self.child)(x),
        ensures
            after.shapes(n, kids, rank),
    {
        assert forall|q: u8| 1 <= q <= n implies after.is_chain(
            (after.child)(q),
            #[trigger] kids(q),
        ) by {
            let list = kids(q);
            assert(self.is_chain((self.child)(q), list));
            assert forall|j: int| 0 <= j < list.len() implies (#[trigger] list[j]) != 0 && (
            after.sibling)(list[j]) == (if j + 1 < list.len() {
                list[j + 1]
            } else {
                0u8
            }) by {
                assert(1 <= kids(q)[j] <= n);
            }
        }
        assert forall|q: u8, k: int| 1 <= q <= n && 0 <= k < kids(q).len() implies 1 <= (
        #[trigger] kids(q)[k]) <= n && (after.parent)(kids(q)[k]) == q by {
            assert((self.parent)(kids(q)[k]) == q);
        }
        assert forall|o: u8| 1 <= o <= n && (after.parent)(o) != 0 implies kids(
            #[trigger] (after.parent)(o),
        ).contains(o) by {
            assert((after.parent)(o) == (self.parent)(o));
        }
        assert forall|o: u8| 1 <= o <= n && (after.parent)(o) != 0 implies rank((after.parent)(o))
            < #[trigger] rank(o) by {
            assert((after.parent)(o) == (self.parent)(o));
        }
    }

    /// Where an object with a parent leaves a forest, and the chain of its
    /// parent's children is closed over it, what is left is a forest: the
    /// object is gone from the list of its parent's children, and the other
    /// lists and the ranks are as they were.
    #[verifier::rlimit(50)]
    pub proof fn lemma_unlink(
        self,
        after: Links,
        n: u8,
        kids: spec_fn(u8) -> Seq<u8>,
        rank: spec_fn(u8) -> nat,
        obj: u8,
    )
        requires
            self.shapes(n, kids, rank),
            1 <= obj <= n,
            (self.parent)(obj) != 0,
            forall|x: u8|
                1 <= x <= n ==> #[trigger] (after.parent)(x) == (if x == obj {
                    0u8
                } else {
                    (self.parent)(x)
                }),
            forall|x: u8|
                1 <= x <= n ==> #[trigger] (after.sibling)(x) == (if x == obj {
                    0u8
                } else if place_of(kids((self.parent)(obj)), obj) > 0 && x == kids(
                    (self.parent)(obj),
                )[place_of(kids((self.parent)(obj)), obj) - 1] {
                    (self.sibling)(obj)
                } else {
                    (self.sibling)(x)
                }),
            forall|x: u8|
                1 <= x <= n ==> #[trigger] (after.child)(x) == (if place_of(
                    kids((self.parent)(obj)),
                    obj,
                ) == 0 && x == (self.parent)(obj) {
                    (self.sibling)(obj)
                } else {
                    (self.child)(x)
                }),
        ensures
            after.shapes(
                n,
                kids_without(kids, (self.parent)(obj), place_of(kids((self.parent)(obj)), obj)),
                rank,
            ),
    {
        let p = (self.parent)(obj);
        let list = kids(p);
        assert(1 <= p <= n);
        assert(list.contains(obj));
        let i = place_of(list, obj);
        let left = kids_without(kids, p, i);
        let short = list.remove(i);
        lemma_remove_index(list, i);
        assert(left(p) == short);
        assert(self.is_chain((self.child)(p), list));
        assert(list.no_duplicates());
        assert forall|k: int| 0 <= k < list.len() implies 1 <= (#[trigger] list[k]) <= n && (
        self.parent)(list[k]) == p by {
            assert(1 <= kids(p)[k] <= n);
        }
        assert forall|q: u8| 1 <= q <= n implies after.is_chain(
            (after.child)(q),
            #[trigger] left(q),
        ) by {
            if q == p {
                assert forall|j: int| 0 <= j < list.len() && j != i implies (after.sibling)(
                    #[trigger] list[j],
                ) == (if j == i - 1 {
                    (self.sibling)(list[i])
                } else {
                    (self.sibling)(list[j])
                }) by {
                    assert(list[j] != list[i]);
                    assert(1 <= list[j] <= n);
                    if i > 0 && j != i - 1 {
                        assert(list[j] != list[i - 1]);
                    }
                }
                self.lemma_chain_remove(after, list, i, (after.child)(p));
            } else {
                let other = kids(q);
                assert(left(q) == other);
                assert(self.is_chain((self.child)(q), other));
                assert forall|j: int| 0 <= j < other.len() implies (#[trigger] other[j]) != 0 && (
                after.sibling)(other[j]) == (if j + 1 < other.len() {
                    other[j + 1]
                } else {
                    0u8
                }) by {
                    assert(1 <= kids(q)[j] <= n && (self.parent)(kids(q)[j]) == q);
                    assert(other[j] != obj);
                    if i > 0 {
                        assert((self.parent)(list[i - 1]) == p);
                        assert(other[j] != list[i - 1]);
                    }
                }
            }
        }
        assert forall|q: u8, k: int| 1 <= q <= n && 0 <= k < left(q).len() implies 1 <= (
        #[trigger] left(q)[k]) <= n && (after.parent)(left(q)[k]) == q by {
            if q == p {
                let at = if k < i {
                    k
                } else {
                    k + 1
                };
                assert(short[k] == list[at]);
                assert(list[at] != list[i]);
                assert(1 <= list[at] <= n && (self.parent)(list[at]) == p);
            } else {
                assert(1 <= kids(q)[k] <= n && (self.parent)(kids(q)[k]) == q);
                assert(kids(q)[k] != obj);
            }
        }
        assert forall|q: u8| 1 <= q <= n implies (#[trigger] left(q)).no_duplicates() by {
            if q == p {
                assert forall|a: int, b: int|
                    0 <= a < short.len() && 0 <= b < short.len() && a != b implies short[a]
                    != short[b] by {
                    let wa = if a < i {
                        a
                    } else {
                        a + 1
                    };
                    let wb = if b < i {
                        b
                    } else {
                        b + 1
                    };
                    assert(short[a] == list[wa] && short[b] == list[wb]);
                    assert(list[wa] != list[wb]);
                }
            } else {
                assert(kids(q).no_duplicates());
            }
        }
        assert forall|o: u8| 1 <= o <= n && (after.parent)(o) != 0 implies left(
            #[trigger] (after.parent)(o),
        ).contains(o) by {
            assert(o != obj);
            let q = (self.parent)(o);
            assert((after.parent)(o) == q);
            assert(kids(q).contains(o));
            if q == p {
                let k = choose|k: int| 0 <= k < list.len() && list[k] == o;
                assert(k != i);
                let at = if k < i {
                    k
                } else {
                    k - 1
                };
                assert(short[at] == o);
            }
        }
        assert forall|o: u8| 1 <= o <= n && (after.parent)(o) != 0 implies rank((after.parent)(o))
            < #[trigger] rank(o) by {
            assert((after.parent)(o) == (self.parent)(o));
        }
    }
}


/// The ranks after `obj` has gone below `dest`: `obj` and all below it rise
/// above the rank of `dest`.
pub open spec fn rank_below(links: Links, rank: spec_fn(u8) -> nat, dest: u8, obj: u8) -> spec_fn(
    u8,
) -> nat {
    |x: u8|
        if links.is_below(x, obj) {
            rank(x) + rank(dest) + 1
        } else {
            rank(x)
        }
}

impl Links {
    /// What stands below `top` and is not `top` has its parent below `top`.
    pub proof fn lemma_parent_below(self, o: u8, top: u8)
        requires
            self.is_below(o, top),
            o != top,
        ensures
            o != 0,
            self.is_below((self.parent)(o), top),
    {
        let k = choose|k: nat| #[trigger] self.nth_parent(o, k) == top;
        assert(k > 0);
        if o == 0 {
            self.lemma_above_nothing(k);
        }
        assert(self.nth_parent((self.parent)(o), (k - 1) as nat) == top);
    }

    /// Above no object there is no object.
    pub proof fn lemma_above_nothing(self, k: nat)
        ensures
            self.nth_parent(0, k) == 0,
    {
    }

    /// The child of what stands below `top` stands below `top`.
    pub proof fn lemma_child_below(self, o: u8, top: u8)
        requires
            o != 0,
            self.is_below((self.parent)(o), top),
        ensures
            self.is_below(o, top),
    {
        let above = (self.parent)(o);
        let k = choose|k: nat| #[trigger] self.nth_parent(above, k) == top;
        assert(self.nth_parent(o, k + 1) == top);
    }

    /// Where a root of a forest becomes the first child of an object that
    /// does not stand below it, the result is a forest: the root heads the
    /// list of that object's children, and it and all below it rise in rank.
    #[verifier::rlimit(50)]
    pub proof fn lemma_link(
        self,
        after: Links,
        n: u8,
        kids: spec_fn(u8) -> Seq<u8>,
        rank: spec_fn(u8) -> nat,
        obj: u8,
        dest: u8,
    )
        requires
            self.shapes(n, kids, rank),
            1 <= obj <= n,
            1 <= dest <= n,
            (self.parent)(obj) == 0,
            !self.is_below(dest, obj),
            forall|x: u8|
                1 <= x <= n ==> #[trigger] (after.parent)(x) == (if x == obj {
                    dest
                } else {
                    (self.parent)(x)
                }),
            forall|x: u8|
                1 <= x <= n ==> #[trigger] (after.sibling)(x) == (if x == obj {
                    (self.child)(dest)
                } else {
                    (self.sibling)(x)
                }),
            forall|x: u8|
                1 <= x <= n ==> #[trigger] (after.child)(x) == (if x == dest {
                    obj
                } else {
                    (self.child)(x)
                }),
        ensures
            after.shapes(n, kids_with(kids, dest, obj), rank_below(self, rank, dest, obj)),
    {
        let more = kids_with(kids, dest, obj);
        let risen = rank_below(self, rank, dest, obj);
        let old_list = kids(dest);
        let new_list = seq![obj] + old_list;
        assert(more(dest) == new_list);
        assert(self.nth_parent(obj, 0) == obj);
        assert(self.is_below(obj, obj));
        assert(obj != dest);
        // the root stands in no list
        assert forall|q: u8, k: int| 1 <= q <= n && 0 <= k < kids(q).len() implies (
        #[trigger] kids(q)[k]) != obj by {
            assert((self.parent)(kids(q)[k]) == q);
        }
        assert forall|q: u8| 1 <= q <= n implies after.is_chain(
            (after.child)(q),
            #[trigger] more(q),
        ) by {
            assert(self.is_chain((self.child)(q), kids(q)));
            if q == dest {
                assert forall|j: int| 0 <= j < new_list.len() implies (#[trigger] new_list[j]) != 0
                    && (after.sibling)(new_list[j]) == (if j + 1 < new_list.len() {
                    new_list[j + 1]
                } else {
                    0u8
                }) by {
                    if j > 0 {
                        assert(new_list[j] == old_list[j - 1]);
                        assert(kids(dest)[j - 1] != obj);
                        assert(1 <= kids(dest)[j - 1] <= n);
                        assert(old_list[j - 1] != 0);
                    }
                }
            } else {
                let other = kids(q);
                assert(more(q) == other);
                assert forall|j: int| 0 <= j < other.len() implies (#[trigger] other[j]) != 0 && (
                after.sibling)(other[j]) == (if j + 1 < other.len() {
                    other[j + 1]
                } else {
                    0u8
                }) by {
                    assert(kids(q)[j] != obj);
                    assert(1 <= kids(q)[j] <= n);
                }
            }
        }
        assert forall|q: u8, k: int| 1 <= q <= n && 0 <= k < more(q).len() implies 1 <= (
        #[trigger] more(q)[k]) <= n && (after.parent)(more(q)[k]) == q by {
            if q == dest {
                if k > 0 {
                    assert(new_list[k] == old_list[k - 1]);
                    assert(kids(dest)[k - 1] != obj);
                    assert(1 <= kids(dest)[k - 1] <= n && (self.parent)(kids(dest)[k - 1]) == dest);
                }
            } else {
                assert(kids(q)[k] != obj);
                assert(1 <= kids(q)[k] <= n && (self.parent)(kids(q)[k]) == q);
            }
        }
        assert forall|q: u8| 1 <= q <= n implies (#[trigger] more(q)).no_duplicates() by {
            assert(kids(q).no_duplicates());
            if q == dest {
                assert forall|a: int, b: int|
                    0 <= a < new_list.len() && 0 <= b < new_list.len() && a != b implies new_list[a]
                    != new_list[b] by {
                    if a > 0 {
                        assert(new_list[a] == old_list[a - 1]);
                        assert(kids(dest)[a - 1] != obj);
                    }
                    if b > 0 {
                        assert(new_list[b] == old_list[b - 1]);
                        assert(kids(dest)[b - 1] != obj);
                    }
                }
            }
        }
        assert forall|o: u8| 1 <= o <= n && (after.parent)(o) != 0 implies more(
            #[trigger] (after.parent)(o),
        ).contains(o) by {
            if o == obj {
                assert(new_list[0] == obj);
            } else {
                let q = (self.parent)(o);
                assert((after.parent)(o) == q);
                assert(kids(q).contains(o));
                if q == dest {
                    let k = choose|k: int| 0 <= k < old_list.len() && old_list[k] == o;
                    assert(new_list[k + 1] == o);
                }
            }
        }
        assert forall|o: u8| 1 <= o <= n && (after.parent)(o) != 0 implies risen((after.parent)(o))
            < #[trigger] risen(o) by {
            if o == obj {
            } else {
                let q = (self.parent)(o);
                assert((after.parent)(o) == q);
                assert(rank(q) < rank(o));
                if self.is_below(o, obj) {
                    self.lemma_parent_below(o, obj);
                } else {
                    if self.is_below(q, obj) {
                        self.lemma_child_below(o, obj);
                    }
                }
            }
        }
    }
}


impl Links {
    /// What stands below `top` when all parents but that of `top` are as in
    /// `self` stands below `top` in `self` too.
    pub proof fn lemma_below_carries(self, after: Links, n: u8, o: u8, top: u8, k: nat)
        requires
            forall|x: u8| 1 <= x <= n ==> #[trigger] (self.parent)(x) <= n,
            forall|x: u8|
                1 <= x <= n && x != top ==> #[trigger] (after.parent)(x) == (self.parent)(x),
            o <= n,
            1 <= top,
            after.nth_parent(o, k) == top,
        ensures
            self.is_below(o, top),
        decreases k,
    {
        if o == top {
            assert(self.nth_parent(o, 0) == top);
        } else {
            if o == 0 {
                after.lemma_above_nothing(k);
            }
            assert(k > 0);
            let above = (self.parent)(o);
            assert((after.parent)(o) == above);
            self.lemma_below_carries(after, n, above, top, (k - 1) as nat);
            self.lemma_child_below(o, top);
        }
    }
}

impl MemView {
    /// The parent, sibling and child numbers that the object table holds.
    pub open spec fn links(self) -> Links {
        Links {
            parent: |x: u8| self.parent(x),
            sibling: |x: u8| self.sibling(x),
            child: |x: u8| self.child(x),
        }
    }

    /// The first `n` objects form a forest: their entries lie inside the
    /// image, following parents never comes back, every object with a parent
    /// is reached from the parent's first child by following siblings, and
    /// every object so reached has that parent.
    pub open spec fn is_forest(self, n: u8) -> bool {
        &&& n == 0 || self.has_object(n)
        &&& exists|kids: spec_fn(u8) -> Seq<u8>, rank: spec_fn(u8) -> nat|
            self.links().shapes(n, kids, rank)
    }

    /// `dest` is `obj` or stands somewhere below it.
    pub open spec fn stands_below(self, dest: u8, obj: u8) -> bool {
        self.links().is_below(dest, obj)
    }

    /// `other` holds the same objects as `self`, with the same parents,
    /// siblings and children, but for the new parent of `po`, the new sibling
    /// of `so` and the new child of `co`, where these are not 0.
    pub open spec fn relinked(
        self,
        other: MemView,
        po: u8,
        parent: u8,
        so: u8,
        sibling: u8,
        co: u8,
        child: u8,
    ) -> bool {
        &&& other.bytes.len() == self.bytes.len()
        &&& other.objects_idx == self.objects_idx
        &&& forall|x: u8| #[trigger] other.has_object(x) == self.has_object(x)
        &&& forall|x: u8|
            self.has_object(x) ==> #[trigger] other.parent(x) == (if x == po {
                parent
            } else {
                self.parent(x)
            })
        &&& forall|x: u8|
            self.has_object(x) ==> #[trigger] other.sibling(x) == (if x == so {
                sibling
            } else {
                self.sibling(x)
            })
        &&& forall|x: u8|
            self.has_object(x) ==> #[trigger] other.child(x) == (if x == co {
                child
            } else {
                self.child(x)
            })
    }

    /// A new parent number changes nothing else.
    pub proof fn lemma_set_parent_reads(self, o: u8, v: u8)
        requires
            self.has_object(o),
        ensures
            self.relinked(self.set_parent(o, v), o, v, 0, 0, 0, 0),
    {
    }

    /// A new sibling number changes nothing else.
    pub proof fn lemma_set_sibling_reads(self, o: u8, v: u8)
        requires
            self.has_object(o),
        ensures
            self.relinked(self.set_sibling(o, v), 0, 0, o, v, 0, 0),
    {
    }

    /// A new child number changes nothing else.
    pub proof fn lemma_set_child_reads(self, o: u8, v: u8)
        requires
            self.has_object(o),
        ensures
            self.relinked(self.set_child(o, v), 0, 0, 0, 0, o, v),
    {
    }

    /// Every object up to `n` lies inside the image when `n` does.
    pub proof fn lemma_objects_inside(self, n: u8, o: u8)
        requires
            n == 0 || self.has_object(n),
            1 <= o <= n,
        ensures
            self.has_object(o),
    {
    }

    /// A walk along a chain of distinct objects finds `obj` behind the
    /// object in front of it.
    pub proof fn lemma_walk_chain(self, list: Seq<u8>, j: int, i: int, fuel: nat)
        requires
            self.links().is_chain(list[0], list),
            list.no_duplicates(),
            forall|k: int| 0 <= k < list.len() ==> self.has_object(#[trigger] list[k]),
            0 <= j < i < list.len(),
            fuel >= i - j,
        ensures
            self.walk(list[j], list[i], fuel) == Link::After(list[i - 1]),
        decreases i - j,
    {
        assert(list[j] != 0 && (self.links().sibling)(list[j]) == list[j + 1]);
        assert(list[j + 1] != 0);
        if j + 1 < i {
            self.lemma_walk_chain(list, j + 1, i, (fuel - 1) as nat);
        }
    }

    /// In a forest, an object with a parent is found among the parent's
    /// children: as the first, or behind the one in front of it.
    #[verifier::rlimit(50)]
    pub proof fn lemma_locate(
        self,
        n: u8,
        kids: spec_fn(u8) -> Seq<u8>,
        rank: spec_fn(u8) -> nat,
        obj: u8,
    )
        requires
            n == 0 || self.has_object(n),
            self.links().shapes(n, kids, rank),
            1 <= obj <= n,
            self.parent(obj) != 0,
        ensures
            0 <= place_of(kids(self.parent(obj)), obj) < kids(self.parent(obj)).len(),
            kids(self.parent(obj))[place_of(kids(self.parent(obj)), obj)] == obj,
            self.locate(self.parent(obj), obj) == (if place_of(kids(self.parent(obj)), obj) == 0 {
                Link::First
            } else {
                Link::After(
                    kids(self.parent(obj))[place_of(kids(self.parent(obj)), obj) - 1],
                )
            }),
    {
        let links = self.links();
        let p = self.parent(obj);
        assert((links.parent)(obj) == p);
        let list = kids(p);
        assert(1 <= p <= n);
        assert(list.contains(obj));
        let i = place_of(list, obj);
        assert(links.is_chain((links.child)(p), list));
        assert(list.no_duplicates());
        self.lemma_objects_inside(n, p);
        assert forall|k: int| 0 <= k < list.len() implies self.has_object(#[trigger] list[k]) by {
            assert(1 <= kids(p)[k] <= n);
            self.lemma_objects_inside(n, list[k]);
        }
        assert(list[0] != 0);
        assert(self.child(p) == list[0]);
        if i > 0 {
            lemma_distinct_bytes(list);
            assert(list[0] != list[i]);
            self.lemma_walk_chain(list, 0, i, MAX_CHAIN as nat);
        }
    }

    /// What the objects hold after `obj` has left its parent: `obj` has no
    /// parent; where it stood among its parent's children, it has no sibling
    /// and the object in front of it, or the parent, points behind it.
    #[verifier::rlimit(50)]
    pub proof fn lemma_detach_reads(self, obj: u8)
        requires
            self.can_detach(obj),
        ensures
            self.detach(obj).bytes.len() == self.bytes.len(),
            self.detach(obj).objects_idx == self.objects_idx,
            forall|x: u8| #[trigger] self.detach(obj).has_object(x) == self.has_object(x),
            forall|x: u8|
                self.has_object(x) ==> #[trigger] self.detach(obj).parent(x) == (if x == obj {
                    0u8
                } else {
                    self.parent(x)
                }),
            forall|x: u8|
                self.has_object(x) ==> #[trigger] self.detach(obj).sibling(x) == (if self.parent(
                    obj,
                ) == 0 {
                    self.sibling(x)
                } else {
                    match self.locate(self.parent(obj), obj) {
                        Link::First => if x == obj {
                            0u8
                        } else {
                            self.sibling(x)
                        },
                        Link::After(prev) => if x == obj {
                            0u8
                        } else if x == prev {
                            self.sibling(obj)
                        } else {
                            self.sibling(x)
                        },
                        _ => self.sibling(x),
                    }
                }),
            forall|x: u8|
                self.has_object(x) ==> #[trigger] self.detach(obj).child(x) == (if self.parent(obj)
                    != 0 && self.locate(self.parent(obj), obj) == Link::First && x == self.parent(
                    obj,
                ) {
                    self.sibling(obj)
                } else {
                    self.child(x)
                }),
    {
        let p = self.parent(obj);
        let orphan = self.set_parent(obj, 0);
        self.lemma_set_parent_reads(obj, 0);
        if p != 0 {
            match self.locate(p, obj) {
                Link::First => {
                    let closed = orphan.set_child(p, self.sibling(obj));
                    orphan.lemma_set_child_reads(p, self.sibling(obj));
                    closed.lemma_set_sibling_reads(obj, 0);
                },
                Link::After(prev) => {
                    self.lemma_walk_found(self.child(p), obj, MAX_CHAIN as nat);
                    let closed = orphan.set_sibling(prev, self.sibling(obj));
                    orphan.lemma_set_sibling_reads(prev, self.sibling(obj));
                    closed.lemma_set_sibling_reads(obj, 0);
                },
                _ => {},
            }
        }
    }

    /// In a forest, an object can be taken out, and what is left is a forest
    /// in which the object has no parent.
    #[verifier::rlimit(50)]
    pub proof fn lemma_detach_keeps_shapes(
        self,
        n: u8,
        kids: spec_fn(u8) -> Seq<u8>,
        rank: spec_fn(u8) -> nat,
        obj: u8,
    )
        requires
            n == 0 || self.has_object(n),
            self.links().shapes(n, kids, rank),
            1 <= obj <= n,
        ensures
            self.can_detach(obj),
            self.detach(obj).has_object(n),
            self.detach(obj).parent(obj) == 0,
            forall|x: u8|
                1 <= x <= n && x != obj ==> #[trigger] self.detach(obj).parent(x) == self.parent(x),
            self.detach(obj).links().shapes(
                n,
                if self.parent(obj) == 0 {
                    kids
                } else {
                    kids_without(kids, self.parent(obj), place_of(kids(self.parent(obj)), obj))
                },
                rank,
            ),
    {
        let p = self.parent(obj);
        let after = self.detach(obj);
        self.lemma_objects_inside(n, obj);
        assert forall|x: u8| 1 <= x <= n implies self.has_object(x) by {
            self.lemma_objects_inside(n, x);
        }
        if p == 0 {
            self.lemma_detach_reads(obj);
            self.links().lemma_same_shapes(after.links(), n, kids, rank);
        } else {
            self.lemma_locate(n, kids, rank, obj);
            self.lemma_detach_reads(obj);
            self.links().lemma_unlink(after.links(), n, kids, rank, obj);
        }
    }

    /// Taking an object of a forest out leaves a forest.
    pub proof fn lemma_remove_keeps_forest(self, n: u8, obj: u8)
        requires
            self.is_forest(n),
            1 <= obj <= n,
        ensures
            self.can_detach(obj),
            self.detach(obj).is_forest(n),
    {
        let (kids, rank) = choose|kids: spec_fn(u8) -> Seq<u8>, rank: spec_fn(u8) -> nat|
            self.links().shapes(n, kids, rank);
        self.lemma_detach_keeps_shapes(n, kids, rank, obj);
    }

    /// Making an object of a forest the first child of another leaves a
    /// forest, where that other is neither the object itself nor stands
    /// below it.
    #[verifier::rlimit(50)]
    pub proof fn lemma_insert_keeps_forest(self, n: u8, obj: u8, dest: u8)
        requires
            self.is_forest(n),
            1 <= obj <= n,
            1 <= dest <= n,
            !self.stands_below(dest, obj),
        ensures
            self.can_detach(obj),
            self.insert(obj, dest).is_forest(n),
    {
        let (kids, rank) = choose|kids: spec_fn(u8) -> Seq<u8>, rank: spec_fn(u8) -> nat|
            self.links().shapes(n, kids, rank);
        self.lemma_detach_keeps_shapes(n, kids, rank, obj);
        let loose = self.detach(obj);
        let left = if self.parent(obj) == 0 {
            kids
        } else {
            kids_without(kids, self.parent(obj), place_of(kids(self.parent(obj)), obj))
        };
        assert forall|x: u8| 1 <= x <= n implies loose.has_object(x) by {
            loose.lemma_objects_inside(n, x);
        }
        // the other object does not stand below this one after that either
        if loose.links().is_below(dest, obj) {
            let k = choose|k: nat| #[trigger] loose.links().nth_parent(dest, k) == obj;
            self.links().lemma_below_carries(loose.links(), n, dest, obj, k);
        }
        let a = loose.set_parent(obj, dest);
        let b = a.set_sibling(obj, loose.child(dest));
        let c = b.set_child(dest, obj);
        loose.lemma_set_parent_reads(obj, dest);
        a.lemma_set_sibling_reads(obj, loose.child(dest));
        b.lemma_set_child_reads(dest, obj);
        assert(c == self.insert(obj, dest));
        loose.links().lemma_link(c.links(), n, left, rank, obj, dest);
    }

    /// In a forest, every object `o` that has a parent is reached from the
    /// parent's first child by following siblings, and following siblings on
    /// from there comes to an end: no cycle appears.
    pub proof fn lemma_siblings_reach(self, n: u8, o: u8)
        requires
            self.is_forest(n),
            1 <= o <= n,
            self.parent(o) != 0,
        ensures
            exists|k: nat, end: nat|
                k < end && #[trigger] self.links().nth_sibling(self.child(self.parent(o)), k) == o
                    && #[trigger] self.links().nth_sibling(self.child(self.parent(o)), end) == 0,
    {
        let (kids, rank) = choose|kids: spec_fn(u8) -> Seq<u8>, rank: spec_fn(u8) -> nat|
            self.links().shapes(n, kids, rank);
        let links = self.links();
        let p = self.parent(o);
        assert((links.parent)(o) == p);
        let list = kids(p);
        assert(list.contains(o));
        let k = choose|k: int| 0 <= k < list.len() && list[k] == o;
        assert(links.is_chain((links.child)(p), list));
        links.lemma_chain_nth(self.child(p), list, k as nat);
        links.lemma_chain_nth(self.child(p), list, list.len());
    }
}


impl Links {
    /// Where a child is ranked above its parent, following parents from an
    /// object comes to an end within as many steps as the object's rank and
    /// one more.
    pub proof fn lemma_parents_end_within(
        self,
        n: u8,
        kids: spec_fn(u8) -> Seq<u8>,
        rank: spec_fn(u8) -> nat,
        o: u8,
        steps: nat,
    )
        requires
            self.shapes(n, kids, rank),
            o <= n,
            o == 0 || rank(o) < steps,
        ensures
            self.nth_parent(o, steps) == 0,
        decreases steps,
    {
        if o != 0 && steps > 0 {
            let above = (self.parent)(o);
            assert(above <= n);
            if above != 0 {
                assert(rank(above) < rank(o));
            }
            self.lemma_parents_end_within(n, kids, rank, above, (steps - 1) as nat);
        }
    }
}

impl MemView {
    /// In a forest, following parents from an object comes to an end: no
    /// object stands below itself.
    pub proof fn lemma_parents_end(self, n: u8, o: u8)
        requires
            self.is_forest(n),
            1 <= o <= n,
        ensures
            exists|k: nat| #[trigger] self.links().nth_parent(o, k) == 0,
    {
        let (kids, rank) = choose|kids: spec_fn(u8) -> Seq<u8>, rank: spec_fn(u8) -> nat|
            self.links().shapes(n, kids, rank);
        self.links().lemma_parents_end_within(n, kids, rank, o, rank(o) + 1);
    }

    /// In a forest, the first child of an object has that object as its
    /// parent.
    pub proof fn lemma_child_has_parent(self, n: u8, p: u8)
        requires
            self.is_forest(n),
            1 <= p <= n,
            self.child(p) != 0,
        ensures
            1 <= self.child(p) <= n,
            self.parent(self.child(p)) == p,
    {
        let (kids, rank) = choose|kids: spec_fn(u8) -> Seq<u8>, rank: spec_fn(u8) -> nat|
            self.links().shapes(n, kids, rank);
        let links = self.links();
        let list = kids(p);
        assert(links.is_chain((links.child)(p), list));
        assert(list.len() > 0);
        assert(1 <= kids(p)[0] <= n && (links.parent)(kids(p)[0]) == p);
    }
}

} // verus!
