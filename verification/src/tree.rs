//! The insertion-ordered category tree.
//!
//! Children of a node form an ordered mapping from path-segment token to child
//! node, kept as a vector of pairs whose keys are unique and stand in
//! first-creation order — the invariant the original ordered map provided.
//! A record's id, split on `-`, is the path from the root to the node that
//! owns the record; nodes exist exactly for the prefixes of inserted ids.

use vstd::prelude::*;
use vstd::string::*;

use crate::normalize::normalize_first_category;
use crate::normalize::spec_normalize;
use crate::parser::CatModel;
use crate::parser::Category;
use crate::parser::cat_views;
use crate::parser::lemma_cat_views_push;
use crate::parser::parse_categories;
use crate::parser::spec_parse_entries;
use crate::reconstruct::construct_lines;
use crate::reconstruct::spec_construct_lines;
use crate::text::lemma_seq_views_push;
use crate::text::seq_views;
use crate::text::spec_trim;
use crate::text::split_on;
use crate::text::split_on_exec;
use crate::text::str_eq;
use crate::text::trim_exec;

verus! {

/// Hierarchical, insertion-ordered record store keyed by id path segments.
#[derive(Debug)]
pub struct CategoryTree {
    children: Vec<(String, CategoryTree)>,
    categories: Vec<Category>,
}

/// The position of the first child pair carrying key `k`, or `-1`.
pub closed spec fn key_index(cs: Seq<(String, CategoryTree)>, k: Seq<char>) -> int
    decreases cs.len(),
{
    if cs.len() == 0 {
        -1
    } else if cs[0].0@ == k {
        0
    } else {
        let r = key_index(cs.drop_first(), k);
        if r < 0 {
            -1
        } else {
            r + 1
        }
    }
}

/// The keys of a child list, in order.
pub closed spec fn keys_list(cs: Seq<(String, CategoryTree)>) -> Seq<Seq<char>> {
    Seq::new(cs.len(), |i: int| cs[i].0@)
}

/// The records attached to the node at path `p`, in insertion order; empty
/// where no such node exists.
pub closed spec fn cats_at(t: CategoryTree, p: Seq<Seq<char>>) -> Seq<CatModel>
    decreases p.len(),
{
    if p.len() == 0 {
        cat_views(t.categories@)
    } else {
        let j = key_index(t.children@, p[0]);
        if j >= 0 {
            cats_at(t.children@[j].1, p.drop_first())
        } else {
            Seq::empty()
        }
    }
}

/// Whether a node exists at path `p`.
pub closed spec fn node_at(t: CategoryTree, p: Seq<Seq<char>>) -> bool
    decreases p.len(),
{
    p.len() == 0 || {
        let j = key_index(t.children@, p[0]);
        j >= 0 && node_at(t.children@[j].1, p.drop_first())
    }
}

/// The child keys of the node at path `p`, in first-creation order; empty
/// where no such node exists.
pub closed spec fn keys_at(t: CategoryTree, p: Seq<Seq<char>>) -> Seq<Seq<char>>
    decreases p.len(),
{
    if p.len() == 0 {
        keys_list(t.children@)
    } else {
        let j = key_index(t.children@, p[0]);
        if j >= 0 {
            keys_at(t.children@[j].1, p.drop_first())
        } else {
            Seq::empty()
        }
    }
}

pub open spec fn is_prefix(p: Seq<Seq<char>>, q: Seq<Seq<char>>) -> bool {
    p.len() <= q.len() && p == q.take(p.len() as int)
}

pub open spec fn distinct_seqs(ks: Seq<Seq<char>>) -> bool {
    forall|i: int, j: int| 0 <= i < j < ks.len() ==> ks[i] != ks[j]
}

/// The tree's invariant: at every node, the child keys are distinct, so the
/// child list is an ordered mapping.
pub open spec fn wf(t: CategoryTree) -> bool {
    forall|p: Seq<Seq<char>>| #[trigger] node_at(t, p) ==> distinct_seqs(keys_at(t, p))
}

/// A tree with no nodes but the root and no records.
pub open spec fn fresh_tree(t: CategoryTree) -> bool {
    &&& forall|p: Seq<Seq<char>>| #[trigger] cats_at(t, p) == Seq::<CatModel>::empty()
    &&& forall|p: Seq<Seq<char>>| #[trigger] node_at(t, p) <==> p.len() == 0
    &&& forall|p: Seq<Seq<char>>| #[trigger] keys_at(t, p) == Seq::<Seq<char>>::empty()
}

/// How one insertion of record `c` at `path` changes every observation of the
/// tree: `t1` before, `t2` after.
pub open spec fn insert_updates(
    t1: CategoryTree,
    t2: CategoryTree,
    path: Seq<Seq<char>>,
    c: CatModel,
) -> bool {
    &&& forall|p: Seq<Seq<char>>|
        #[trigger] cats_at(t2, p) == if p == path {
            cats_at(t1, p).push(c)
        } else {
            cats_at(t1, p)
        }
    &&& forall|p: Seq<Seq<char>>|
        #[trigger] node_at(t2, p) <==> node_at(t1, p) || is_prefix(p, path)
    &&& forall|p: Seq<Seq<char>>|
        node_at(t1, p) ==> #[trigger] keys_at(t2, p) == if is_prefix(p, path) && p.len()
            < path.len() && !node_at(t1, p.push(path[p.len() as int])) {
            keys_at(t1, p).push(path[p.len() as int])
        } else {
            keys_at(t1, p)
        }
    &&& forall|p: Seq<Seq<char>>|
        !node_at(t1, p) && #[trigger] node_at(t2, p) ==> keys_at(t2, p) == if p.len()
            < path.len() {
            seq![path[p.len() as int]]
        } else {
            Seq::<Seq<char>>::empty()
        }
}

proof fn lemma_key_index_contains(cs: Seq<(String, CategoryTree)>, k: Seq<char>)
    ensures
        key_index(cs, k) >= 0 <==> keys_list(cs).contains(k),
        key_index(cs, k) >= 0 ==> 0 <= key_index(cs, k) < cs.len() && cs[key_index(cs, k)].0@
            == k,
        key_index(cs, k) >= 0 ==> forall|t: int|
            0 <= t < key_index(cs, k) ==> (#[trigger] cs[t]).0@ != k,
    decreases cs.len(),
{
    if cs.len() == 0 {
    } else if cs[0].0@ == k {
        assert(keys_list(cs)[0] == k);
    } else {
        lemma_key_index_contains(cs.drop_first(), k);
        assert(keys_list(cs.drop_first()) =~= keys_list(cs).drop_first());
        if keys_list(cs).contains(k) {
            let i = choose|i: int| 0 <= i < keys_list(cs).len() && keys_list(cs)[i] == k;
            assert(i > 0);
            assert(keys_list(cs).drop_first()[i - 1] == k);
        }
        if keys_list(cs).drop_first().contains(k) {
            let i = choose|i: int|
                0 <= i < keys_list(cs).drop_first().len() && keys_list(cs).drop_first()[i] == k;
            assert(keys_list(cs)[i + 1] == k);
        }
        if key_index(cs.drop_first(), k) >= 0 {
            assert forall|t: int| 0 <= t < key_index(cs, k) implies (#[trigger] cs[t]).0@ != k by {
                if t > 0 {
                    assert(cs.drop_first()[t - 1] == cs[t]);
                }
            }
        }
    }
}

proof fn lemma_key_index_first(cs: Seq<(String, CategoryTree)>, k: Seq<char>, j: int)
    requires
        0 <= j <= cs.len(),
        forall|t: int| 0 <= t < j ==> (#[trigger] cs[t]).0@ != k,
        j < cs.len() ==> cs[j].0@ == k,
    ensures
        j < cs.len() ==> key_index(cs, k) == j,
        j == cs.len() ==> key_index(cs, k) == -1,
    decreases cs.len(),
{
    if cs.len() > 0 {
        if j == 0 {
        } else {
            assert(cs[0].0@ != k);
            assert forall|t: int| 0 <= t < j - 1 implies (#[trigger] cs.drop_first()[t]).0@
                != k by {
                assert(cs.drop_first()[t] == cs[t + 1]);
            }
            assert(j - 1 < cs.drop_first().len() ==> cs.drop_first()[j - 1].0@ == k);
            lemma_key_index_first(cs.drop_first(), k, j - 1);
        }
    }
}

proof fn lemma_key_index_push(cs: Seq<(String, CategoryTree)>, k: Seq<char>, pair: (String, CategoryTree))
    ensures
        key_index(cs.push(pair), k) == if key_index(cs, k) >= 0 {
            key_index(cs, k)
        } else if pair.0@ == k {
            cs.len() as int
        } else {
            -1
        },
    decreases cs.len(),
{
    if cs.len() == 0 {
        assert(cs.push(pair)[0] == pair);
        assert(cs.push(pair).drop_first() =~= Seq::<(String, CategoryTree)>::empty());
        assert(key_index(Seq::<(String, CategoryTree)>::empty(), k) == -1);
    } else {
        assert(cs.push(pair)[0] == cs[0]);
        assert(cs.push(pair).drop_first() =~= cs.drop_first().push(pair));
        lemma_key_index_push(cs.drop_first(), k, pair);
        assert(key_index(cs.push(pair).drop_first(), k) == key_index(
            cs.drop_first().push(pair),
            k,
        ));
    }
}

proof fn lemma_key_index_update(
    cs: Seq<(String, CategoryTree)>,
    j: int,
    pair: (String, CategoryTree),
)
    requires
        0 <= j < cs.len(),
        pair.0@ == cs[j].0@,
    ensures
        forall|k: Seq<char>| #[trigger] key_index(cs.update(j, pair), k) == key_index(cs, k),
        keys_list(cs.update(j, pair)) == keys_list(cs),
    decreases cs.len(),
{
    assert(keys_list(cs.update(j, pair)) =~= keys_list(cs));
    if j == 0 {
        assert(cs.update(0, pair).drop_first() =~= cs.drop_first());
        assert forall|k: Seq<char>| #[trigger] key_index(cs.update(j, pair), k) == key_index(
            cs,
            k,
        ) by {
            assert(cs.update(0, pair)[0] == pair);
        }
    } else {
        assert(cs.update(j, pair).drop_first() =~= cs.drop_first().update(j - 1, pair));
        assert(cs.drop_first()[j - 1] == cs[j]);
        lemma_key_index_update(cs.drop_first(), j - 1, pair);
        assert forall|k: Seq<char>| #[trigger] key_index(cs.update(j, pair), k) == key_index(
            cs,
            k,
        ) by {
            assert(cs.update(j, pair)[0] == cs[0]);
            assert(key_index(cs.drop_first().update(j - 1, pair), k) == key_index(
                cs.drop_first(),
                k,
            ));
        }
    }
}

proof fn lemma_prefix_cons(p: Seq<Seq<char>>, q: Seq<Seq<char>>)
    requires
        p.len() > 0,
        q.len() > 0,
    ensures
        is_prefix(p, q) <==> (p[0] == q[0] && is_prefix(p.drop_first(), q.drop_first())),
{
    if p.len() <= q.len() {
        if p[0] == q[0] && is_prefix(p.drop_first(), q.drop_first()) {
            assert(p =~= q.take(p.len() as int)) by {
                assert forall|t: int| 0 <= t < p.len() implies p[t] == q.take(p.len() as int)[t] by {
                    if t > 0 {
                        assert(p.drop_first()[t - 1] == q.drop_first().take(
                            p.drop_first().len() as int,
                        )[t - 1]);
                    }
                }
            }
        }
        if is_prefix(p, q) {
            assert(p[0] == q.take(p.len() as int)[0]);
            assert(p.drop_first() =~= q.drop_first().take(p.drop_first().len() as int)) by {
                assert forall|t: int| 0 <= t < p.len() - 1 implies p.drop_first()[t]
                    == q.drop_first()[t] by {
                    assert(p[t + 1] == q.take(p.len() as int)[t + 1]);
                }
            }
        }
    }
}

proof fn lemma_prefix_empty(q: Seq<Seq<char>>)
    ensures
        is_prefix(Seq::<Seq<char>>::empty(), q),
{
    assert(Seq::<Seq<char>>::empty() =~= q.take(0));
}

impl CategoryTree {
    /// A tree with nothing in it.
    pub fn new() -> (t: CategoryTree)
        ensures
            fresh_tree(t),
            wf(t),
    {
        let t = CategoryTree { children: Vec::new(), categories: Vec::new() };
        proof {
            assert forall|p: Seq<Seq<char>>| #[trigger] cats_at(t, p)
                == Seq::<CatModel>::empty() by {
                if p.len() == 0 {
                    assert(cat_views(t.categories@) =~= Seq::<CatModel>::empty());
                }
            }
            assert forall|p: Seq<Seq<char>>| #[trigger] node_at(t, p) <==> p.len() == 0 by {}
            assert forall|p: Seq<Seq<char>>| #[trigger] keys_at(t, p)
                == Seq::<Seq<char>>::empty() by {
                if p.len() == 0 {
                    assert(keys_list(t.children@) =~= Seq::<Seq<char>>::empty());
                }
            }
        }
        t
    }

    /// The first child pair carrying `key`, if the node has one.
    fn find_child(cs: &Vec<(String, CategoryTree)>, key: &String) -> (r: Option<usize>)
        ensures
            match r {
                Some(j) => 0 <= j < cs@.len() && key_index(cs@, key@) == j,
                None => key_index(cs@, key@) == -1,
            },
    {
        let mut i: usize = 0;
        while i < cs.len()
            invariant
                i <= cs@.len(),
                forall|t: int| 0 <= t < i ==> (#[trigger] cs@[t]).0@ != key@,
            decreases cs@.len() - i,
        {
            if cs[i].0 == *key {
                proof {
                    lemma_key_index_first(cs@, key@, i as int);
                }
                return Some(i);
            }
            i = i + 1;
        }
        proof {
            lemma_key_index_first(cs@, key@, cs@.len() as int);
        }
        None
    }

    /// Inserts `category` at the path given by segments `i..` of `segs`,
    /// creating missing nodes along the way.
    fn insert_at(&mut self, segs: &Vec<String>, i: usize, category: Category)
        requires
            i <= segs@.len(),
        ensures
            insert_updates(
                *old(self),
                *final(self),
                seq_views(segs@).skip(i as int),
                category@,
            ),
        decreases segs@.len() - i,
    {
        let ghost path = seq_views(segs@).skip(i as int);
        let ghost t1 = *old(self);
        if i == segs.len() {
            let ghost old_cats = self.categories@;
            self.categories.push(category);
            proof {
                let t2 = *self;
                assert(path =~= Seq::<Seq<char>>::empty());
                lemma_cat_views_push(old_cats, category);
                lemma_prefix_empty(path);
                assert forall|p: Seq<Seq<char>>| #[trigger] cats_at(t2, p) == (if p == path {
                    cats_at(t1, p).push(category@)
                } else {
                    cats_at(t1, p)
                }) by {
                    if p.len() == 0 {
                        assert(p =~= path);
                    }
                }
                assert forall|p: Seq<Seq<char>>| #[trigger] node_at(t2, p) <==> node_at(t1, p)
                    || is_prefix(p, path) by {
                    if is_prefix(p, path) {
                        assert(p.len() == 0);
                    }
                }
                assert forall|p: Seq<Seq<char>>| node_at(t1, p) implies #[trigger] keys_at(t2, p)
                    == keys_at(t1, p) by {}
            }
            return;
        }
        let key: &String = &segs[i];
        let r = Self::find_child(&self.children, key);
        let j: usize;
        let ghost fresh: CategoryTree;
        match r {
            Some(x) => {
                j = x;
                proof {
                    // no child is created on this branch; give the ghost a value
                    fresh = t1;
                }
            },
            None => {
                let f = CategoryTree::new();
                proof {
                    fresh = f;
                }
                self.children.push((key.clone(), f));
                j = self.children.len() - 1;
                proof {
                    lemma_key_index_push(t1.children@, key@, self.children@.last());
                }
            },
        }
        let ghost cs1 = self.children@;
        let pair = self.children.remove(j);
        let (seg_key, mut child) = pair;
        let ghost child_pre = child;
        child.insert_at(segs, i + 1, category);
        let ghost child_post = child;
        self.children.insert(j, (seg_key, child));
        proof {
            let t2 = *self;
            let k = segs@[i as int]@;
            let dpath = seq_views(segs@).skip(i as int + 1);
            assert(path[0] == k);
            assert(path.drop_first() =~= dpath);
            assert(path.len() == segs@.len() - i);
            // the child list after the update
            assert(t2.children@ =~= cs1.update(j as int, (seg_key, child_post)));
            assert(cs1[j as int].0@ == k && seg_key@ == k) by {
                if r is Some {
                    lemma_key_index_contains(t1.children@, k);
                } else {
                    assert(cs1 == t1.children@.push((seg_key, fresh)));
                    assert(cs1.last().0@ == k);
                }
            }
            lemma_key_index_update(cs1, j as int, (seg_key, child_post));
            // key_index in cs1 versus the original children
            assert(key_index(cs1, k) == j as int) by {
                if r is None {
                    lemma_key_index_push(t1.children@, k, (seg_key, fresh));
                }
            }
            assert(t2.categories@ == t1.categories@);
            assert forall|k2: Seq<char>| k2 != k implies #[trigger] key_index(t2.children@, k2)
                == key_index(t1.children@, k2) && (key_index(t1.children@, k2) >= 0
                ==> t2.children@[key_index(t1.children@, k2)] == t1.children@[key_index(
                t1.children@,
                k2,
            )]) by {
                if r is None {
                    lemma_key_index_push(t1.children@, k2, (seg_key, fresh));
                }
                lemma_key_index_contains(t1.children@, k2);
                lemma_key_index_contains(cs1, k2);
                if key_index(t1.children@, k2) >= 0 {
                    assert(t1.children@[key_index(t1.children@, k2)].0@ == k2);
                    assert(key_index(t1.children@, k2) != j as int);
                }
            }
            // observations of the old tree at paths through k
            assert(key_index(t1.children@, k) == if r is Some {
                j as int
            } else {
                -1
            });
            assert(child_pre == if r is Some {
                t1.children@[j as int].1
            } else {
                fresh
            });
            assert(key_index(t2.children@, k) == j as int);
            assert(t2.children@[j as int].1 == child_post);
            assert(t2.children@[j as int].0@ == k);
            // clause 1: categories at every path
            assert forall|p: Seq<Seq<char>>| #[trigger] cats_at(t2, p) == (if p == path {
                cats_at(t1, p).push(category@)
            } else {
                cats_at(t1, p)
            }) by {
                if p.len() == 0 {
                    assert(p != path);
                } else {
                    let dp = p.drop_first();
                    if p[0] == k {
                        assert(cats_at(t2, p) == cats_at(child_post, dp));
                        if p == path {
                            assert(dp =~= dpath);
                            assert(cats_at(child_post, dp) == cats_at(child_pre, dp).push(
                                category@,
                            ));
                            if r is Some {
                                assert(cats_at(t1, p) == cats_at(child_pre, dp));
                            } else {
                                assert(cats_at(t1, p) =~= Seq::<CatModel>::empty());
                                assert(cats_at(child_pre, dp) == Seq::<CatModel>::empty());
                            }
                        } else {
                            assert(dp != dpath) by {
                                if dp == dpath {
                                    assert(p.len() == path.len());
                                    assert forall|t: int| 0 <= t < p.len() implies p[t]
                                        == path[t] by {
                                        if t > 0 {
                                            assert(p[t] == dp[t - 1]);
                                            assert(path[t] == path.drop_first()[t - 1]);
                                        }
                                    }
                                    assert(p =~= path);
                                }
                            }
                            assert(cats_at(child_post, dp) == cats_at(child_pre, dp));
                            if r is Some {
                                assert(cats_at(t1, p) == cats_at(child_pre, dp));
                            } else {
                                assert(cats_at(t1, p) =~= Seq::<CatModel>::empty());
                                assert(cats_at(child_pre, dp) == Seq::<CatModel>::empty());
                            }
                        }
                    } else {
                        assert(p != path);
                        if key_index(t1.children@, p[0]) >= 0 {
                            assert(cats_at(t2, p) == cats_at(t1, p));
                        }
                    }
                }
            }
            // clause 2: node existence at every path
            assert forall|p: Seq<Seq<char>>| #[trigger] node_at(t2, p) <==> node_at(t1, p)
                || is_prefix(p, path) by {
                if p.len() == 0 {
                    lemma_prefix_empty(path);
                } else {
                    let dp = p.drop_first();
                    lemma_prefix_cons(p, path);
                    if p[0] == k {
                        assert(node_at(t2, p) <==> node_at(child_post, dp));
                        assert(node_at(child_post, dp) <==> node_at(child_pre, dp) || is_prefix(
                            dp,
                            dpath,
                        ));
                        if r is Some {
                            assert(node_at(t1, p) <==> node_at(child_pre, dp));
                        } else {
                            assert(!node_at(t1, p));
                            assert(node_at(child_pre, dp) <==> dp.len() == 0);
                            if dp.len() == 0 {
                                assert(dp =~= Seq::<Seq<char>>::empty());
                                lemma_prefix_empty(dpath);
                            }
                        }
                    } else {
                        assert(!is_prefix(p, path));
                        if key_index(t1.children@, p[0]) >= 0 {
                            assert(node_at(t2, p) <==> node_at(t1, p));
                        }
                    }
                }
            }
            // clause 3: child keys of pre-existing nodes
            assert forall|p: Seq<Seq<char>>| node_at(t1, p) implies #[trigger] keys_at(t2, p)
                == (if is_prefix(p, path) && p.len() < path.len() && !node_at(
                t1,
                p.push(path[p.len() as int]),
            ) {
                keys_at(t1, p).push(path[p.len() as int])
            } else {
                keys_at(t1, p)
            }) by {
                if p.len() == 0 {
                    assert(p =~= Seq::<Seq<char>>::empty());
                    lemma_prefix_empty(path);
                    assert(is_prefix(p, path));
                    assert(p.push(path[0]) =~= seq![k]);
                    assert(node_at(t1, seq![k]) <==> key_index(t1.children@, k) >= 0) by {
                        assert(seq![k][0] == k);
                        assert(seq![k].drop_first() =~= Seq::<Seq<char>>::empty());
                        if key_index(t1.children@, k) >= 0 {
                            lemma_key_index_contains(t1.children@, k);
                            assert(node_at(
                                t1.children@[key_index(t1.children@, k)].1,
                                seq![k].drop_first(),
                            ));
                        }
                    }
                    if r is Some {
                        assert(keys_at(t2, p) =~= keys_at(t1, p));
                    } else {
                        assert(keys_list(cs1) =~= keys_list(t1.children@).push(k));
                    }
                } else {
                    let dp = p.drop_first();
                    lemma_prefix_cons(p, path);
                    if p[0] == k {
                        assert(node_at(t1, p) <==> (r is Some && node_at(child_pre, dp)));
                        assert(keys_at(t2, p) == keys_at(child_post, dp));
                        assert(keys_at(t1, p) == keys_at(child_pre, dp));
                        assert(p.push(path[p.len() as int]).drop_first() =~= dp.push(
                            path[p.len() as int],
                        ));
                        if p.len() < path.len() {
                            assert(path[p.len() as int] == dpath[dp.len() as int]);
                        }
                        assert(node_at(t1, p.push(path[p.len() as int])) <==> node_at(
                            child_pre,
                            dp.push(path[p.len() as int]),
                        )) by {
                            assert((p.push(path[p.len() as int]))[0] == k);
                        }
                    } else {
                        assert(!is_prefix(p, path));
                        if key_index(t1.children@, p[0]) >= 0 {
                            assert(keys_at(t2, p) == keys_at(t1, p));
                        }
                    }
                }
            }
            // clause 4: child keys of newly created nodes
            assert forall|p: Seq<Seq<char>>| !node_at(t1, p) && #[trigger] node_at(t2, p) implies
                keys_at(t2, p) == (if p.len() < path.len() {
                seq![path[p.len() as int]]
            } else {
                Seq::<Seq<char>>::empty()
            }) by {
                assert(p.len() > 0);
                let dp = p.drop_first();
                if p[0] == k {
                    assert(node_at(child_post, dp));
                    assert(keys_at(t2, p) == keys_at(child_post, dp));
                    if p.len() < path.len() {
                        assert(path[p.len() as int] == dpath[dp.len() as int]);
                    }
                    if r is Some && node_at(child_pre, dp) {
                        assert(node_at(t1, p));
                    }
                    if !node_at(child_pre, dp) {
                        assert(keys_at(child_post, dp) == (if dp.len() < dpath.len() {
                            seq![dpath[dp.len() as int]]
                        } else {
                            Seq::<Seq<char>>::empty()
                        }));
                    } else {
                        // child existed fresh in the new-child case with dp empty
                        assert(r is None && dp.len() == 0);
                        assert(dp =~= Seq::<Seq<char>>::empty());
                        assert(keys_at(child_pre, dp) == Seq::<Seq<char>>::empty());
                        assert(!node_at(child_pre, dp.push(dpath[0])) && is_prefix(dp, dpath)) by {
                            lemma_prefix_empty(dpath);
                            assert(dp.push(dpath[0]).len() > 0);
                        }
                        if dp.len() < dpath.len() {
                            assert(keys_at(child_post, dp) == keys_at(child_pre, dp).push(
                                dpath[dp.len() as int],
                            ));
                            assert(keys_at(child_pre, dp).push(dpath[0]) =~= seq![dpath[0]]);
                        } else {
                            assert(keys_at(child_post, dp) == keys_at(child_pre, dp));
                        }
                    }
                } else {
                    if key_index(t1.children@, p[0]) >= 0 {
                        assert(node_at(t2, p) <==> node_at(t1, p));
                    }
                    assert(false);
                }
            }
        }
    }

    /// Splits `id` on `-` into segments, walks from the root creating a child
    /// for each segment on first encounter, and appends `category` to the
    /// record list of the final node. An empty id attaches under a child keyed
    /// by the empty segment, as splitting the empty string yields one empty
    /// segment; no id is rejected.
    pub fn insert(&mut self, id: String, category: Category)
        ensures
            insert_updates(*old(self), *final(self), split_on(id@, '-'), category@),
            wf(*old(self)) ==> wf(*final(self)),
    {
        let segs = split_on_exec(id.as_str(), '-');
        self.insert_at(&segs, 0, category);
        proof {
            assert(seq_views(segs@).skip(0) =~= split_on(id@, '-'));
            if wf(*old(self)) {
                lemma_wf_preserved(*old(self), *self, split_on(id@, '-'), category@);
            }
        }
    }
}

/// One insertion event: the id path and the record that landed on it.
pub open spec fn inserted_at(
    s: Seq<(Seq<Seq<char>>, CatModel)>,
    p: Seq<Seq<char>>,
) -> Seq<CatModel>
    decreases s.len(),
{
    if s.len() == 0 {
        Seq::empty()
    } else {
        inserted_at(s.drop_last(), p) + (if s.last().0 == p {
            seq![s.last().1]
        } else {
            Seq::empty()
        })
    }
}

/// Some inserted id path extends `p`.
pub open spec fn path_inserted(s: Seq<(Seq<Seq<char>>, CatModel)>, p: Seq<Seq<char>>) -> bool {
    exists|n: int| 0 <= n < s.len() && is_prefix(p, (#[trigger] s[n]).0)
}

/// The child segments created under `p` by the insertions `s`, in order of
/// first insertion.
pub open spec fn first_keys(s: Seq<(Seq<Seq<char>>, CatModel)>, p: Seq<Seq<char>>) -> Seq<
    Seq<char>,
>
    decreases s.len(),
{
    if s.len() == 0 {
        Seq::empty()
    } else {
        let prev = first_keys(s.drop_last(), p);
        let q = s.last().0;
        if is_prefix(p, q) && p.len() < q.len() && !prev.contains(q[p.len() as int]) {
            prev.push(q[p.len() as int])
        } else {
            prev
        }
    }
}

/// `t` is the tree that the insertion sequence `s` builds: at every path, its
/// records are exactly the records inserted at that path, in order; its nodes
/// are exactly the prefixes of inserted id paths; and its children stand in
/// order of first insertion.
pub open spec fn built_from(t: CategoryTree, s: Seq<(Seq<Seq<char>>, CatModel)>) -> bool {
    &&& forall|p: Seq<Seq<char>>| #[trigger] cats_at(t, p) == inserted_at(s, p)
    &&& forall|p: Seq<Seq<char>>| #[trigger] node_at(t, p) <==> p.len() == 0 || path_inserted(s, p)
    &&& forall|p: Seq<Seq<char>>| #[trigger] keys_at(t, p) == first_keys(s, p)
}

proof fn lemma_missing_node_keys(t: CategoryTree, p: Seq<Seq<char>>)
    requires
        !node_at(t, p),
    ensures
        keys_at(t, p) == Seq::<Seq<char>>::empty(),
    decreases p.len(),
{
    if p.len() > 0 {
        let j = key_index(t.children@, p[0]);
        if j >= 0 {
            lemma_missing_node_keys(t.children@[j].1, p.drop_first());
        }
    }
}

pub proof fn lemma_built_from_empty(t: CategoryTree)
    requires
        fresh_tree(t),
    ensures
        built_from(t, Seq::empty()),
{
    assert forall|p: Seq<Seq<char>>| #[trigger] cats_at(t, p) == inserted_at(
        Seq::<(Seq<Seq<char>>, CatModel)>::empty(),
        p,
    ) by {
        assert(inserted_at(Seq::<(Seq<Seq<char>>, CatModel)>::empty(), p)
            == Seq::<CatModel>::empty());
    }
    assert forall|p: Seq<Seq<char>>| #[trigger] keys_at(t, p) == first_keys(
        Seq::<(Seq<Seq<char>>, CatModel)>::empty(),
        p,
    ) by {
        assert(first_keys(Seq::<(Seq<Seq<char>>, CatModel)>::empty(), p)
            == Seq::<Seq<char>>::empty());
    }
}

pub proof fn lemma_inserted_at_push(
    s: Seq<(Seq<Seq<char>>, CatModel)>,
    path: Seq<Seq<char>>,
    c: CatModel,
    p: Seq<Seq<char>>,
)
    ensures
        inserted_at(s.push((path, c)), p) == inserted_at(s, p) + (if p == path {
            seq![c]
        } else {
            Seq::<CatModel>::empty()
        }),
{
    assert(s.push((path, c)).drop_last() =~= s);
    assert(s.push((path, c)).last() == (path, c));
}

pub proof fn lemma_path_inserted_push(
    s: Seq<(Seq<Seq<char>>, CatModel)>,
    path: Seq<Seq<char>>,
    c: CatModel,
    p: Seq<Seq<char>>,
)
    ensures
        path_inserted(s.push((path, c)), p) <==> path_inserted(s, p) || is_prefix(p, path),
{
    let s2 = s.push((path, c));
    if path_inserted(s, p) {
        let n = choose|n: int| 0 <= n < s.len() && is_prefix(p, (#[trigger] s[n]).0);
        assert(s2[n] == s[n]);
        assert(path_inserted(s2, p));
    }
    if is_prefix(p, path) {
        assert(s2[s.len() as int].0 == path);
        assert(path_inserted(s2, p));
    }
    if path_inserted(s2, p) {
        let n = choose|n: int| 0 <= n < s2.len() && is_prefix(p, (#[trigger] s2[n]).0);
        if n < s.len() {
            assert(s2[n] == s[n]);
        } else {
            assert(s2[n].0 == path);
        }
    }
}

/// Extending a built tree by one insertion extends its insertion sequence.
pub proof fn lemma_built_from_insert(
    t1: CategoryTree,
    t2: CategoryTree,
    s: Seq<(Seq<Seq<char>>, CatModel)>,
    path: Seq<Seq<char>>,
    c: CatModel,
)
    requires
        built_from(t1, s),
        insert_updates(t1, t2, path, c),
    ensures
        built_from(t2, s.push((path, c))),
{
    assert forall|p: Seq<Seq<char>>| #[trigger] cats_at(t2, p) == inserted_at(
        s.push((path, c)),
        p,
    ) by {
        lemma_inserted_at_push(s, path, c, p);
        if p == path {
            assert(cats_at(t1, p).push(c) =~= inserted_at(s, p) + seq![c]);
        } else {
            assert(inserted_at(s, p) + Seq::<CatModel>::empty() =~= inserted_at(s, p));
        }
    }
    assert forall|p: Seq<Seq<char>>| #[trigger] node_at(t2, p) <==> p.len() == 0 || path_inserted(
        s.push((path, c)),
        p,
    ) by {
        lemma_path_inserted_push(s, path, c, p);
    }
    assert forall|p: Seq<Seq<char>>| #[trigger] keys_at(t2, p) == first_keys(
        s.push((path, c)),
        p,
    ) by {
        assert(s.push((path, c)).drop_last() =~= s);
        assert(s.push((path, c)).last() == (path, c));
        let prev = first_keys(s, p);
        if node_at(t1, p) {
            lemma_node_push_contains(t1, p, path[p.len() as int]);
        } else {
            lemma_missing_node_keys(t1, p);
            if !node_at(t2, p) {
                lemma_missing_node_keys(t2, p);
                if is_prefix(p, path) {
                    assert(node_at(t2, p));
                }
            } else {
                assert(is_prefix(p, path));
                assert(prev.contains(path[p.len() as int]) == false);
            }
        }
    }
}

proof fn lemma_inserted_at_present(s: Seq<(Seq<Seq<char>>, CatModel)>, n: int)
    requires
        0 <= n < s.len(),
    ensures
        inserted_at(s, s[n].0).len() > 0,
    decreases s.len(),
{
    if n == s.len() - 1 {
    } else {
        assert(s.drop_last()[n] == s[n]);
        lemma_inserted_at_present(s.drop_last(), n);
    }
}

proof fn lemma_inserted_at_witness(s: Seq<(Seq<Seq<char>>, CatModel)>, q: Seq<Seq<char>>)
    requires
        inserted_at(s, q).len() > 0,
    ensures
        exists|n: int| 0 <= n < s.len() && (#[trigger] s[n]).0 == q,
    decreases s.len(),
{
    if s.len() > 0 {
        if s.last().0 == q {
            assert(s[s.len() - 1].0 == q);
        } else {
            lemma_inserted_at_witness(s.drop_last(), q);
            let n = choose|n: int|
                0 <= n < s.drop_last().len() && (#[trigger] s.drop_last()[n]).0 == q;
            assert(s[n].0 == q);
        }
    }
}

/// Insertion order does not matter beyond the per-path order of records: any
/// two insertion sequences that land, at every id path, the same records in
/// the same relative order build trees with identical records at every path
/// and identical node sets. (The creation order of sibling nodes does depend
/// on the order of first insertions across paths, and is not part of this
/// law.)
pub proof fn lemma_insert_order_irrelevant(
    t1: CategoryTree,
    s1: Seq<(Seq<Seq<char>>, CatModel)>,
    t2: CategoryTree,
    s2: Seq<(Seq<Seq<char>>, CatModel)>,
)
    requires
        built_from(t1, s1),
        built_from(t2, s2),
        forall|p: Seq<Seq<char>>| #[trigger] inserted_at(s1, p) == inserted_at(s2, p),
    ensures
        forall|p: Seq<Seq<char>>| #[trigger] cats_at(t1, p) == cats_at(t2, p),
        forall|p: Seq<Seq<char>>| #[trigger] node_at(t1, p) <==> node_at(t2, p),
{
    assert forall|p: Seq<Seq<char>>| #[trigger] node_at(t1, p) <==> node_at(t2, p) by {
        if path_inserted(s1, p) {
            let n = choose|n: int| 0 <= n < s1.len() && is_prefix(p, (#[trigger] s1[n]).0);
            lemma_inserted_at_present(s1, n);
            lemma_inserted_at_witness(s2, s1[n].0);
        }
        if path_inserted(s2, p) {
            let n = choose|n: int| 0 <= n < s2.len() && is_prefix(p, (#[trigger] s2[n]).0);
            lemma_inserted_at_present(s2, n);
            lemma_inserted_at_witness(s1, s2[n].0);
        }
    }
}

/// The other half of order-insensitivity: two insertion sequences that also
/// create, under every node, the same child segments in the same first-
/// insertion order build trees with identical children order at every node.
/// Preserving only the per-path record order does not give this half: swapping
/// the first insertions of the ids `1-01` and `1-02` keeps every per-path
/// record order but reverses the sibling order under the node `1`.
pub proof fn lemma_insert_order_keys(
    t1: CategoryTree,
    s1: Seq<(Seq<Seq<char>>, CatModel)>,
    t2: CategoryTree,
    s2: Seq<(Seq<Seq<char>>, CatModel)>,
)
    requires
        built_from(t1, s1),
        built_from(t2, s2),
        forall|p: Seq<Seq<char>>| #[trigger] first_keys(s1, p) == first_keys(s2, p),
    ensures
        forall|p: Seq<Seq<char>>| #[trigger] keys_at(t1, p) == keys_at(t2, p),
{
}

proof fn lemma_node_push_contains(t: CategoryTree, p: Seq<Seq<char>>, k: Seq<char>)
    requires
        node_at(t, p),
    ensures
        node_at(t, p.push(k)) <==> keys_at(t, p).contains(k),
    decreases p.len(),
{
    if p.len() == 0 {
        lemma_key_index_contains(t.children@, k);
        assert(p.push(k)[0] == k);
        assert(p.push(k).drop_first() =~= Seq::<Seq<char>>::empty());
        let j = key_index(t.children@, k);
        if j >= 0 {
            assert(node_at(t.children@[j].1, p.push(k).drop_first()));
        }
        assert(keys_at(t, p) == keys_list(t.children@));
    } else {
        let j = key_index(t.children@, p[0]);
        assert(p.push(k)[0] == p[0]);
        assert(p.push(k).drop_first() =~= p.drop_first().push(k));
        lemma_node_push_contains(t.children@[j].1, p.drop_first(), k);
        assert(node_at(t, p.push(k)) <==> node_at(t.children@[j].1, p.drop_first().push(k)));
        assert(keys_at(t, p) == keys_at(t.children@[j].1, p.drop_first()));
    }
}

proof fn lemma_wf_preserved(t1: CategoryTree, t2: CategoryTree, path: Seq<Seq<char>>, c: CatModel)
    requires
        wf(t1),
        insert_updates(t1, t2, path, c),
    ensures
        wf(t2),
{
    assert forall|p: Seq<Seq<char>>| #[trigger] node_at(t2, p) implies distinct_seqs(
        keys_at(t2, p),
    ) by {
        if node_at(t1, p) {
            if is_prefix(p, path) && p.len() < path.len() && !node_at(
                t1,
                p.push(path[p.len() as int]),
            ) {
                let ks = keys_at(t1, p);
                let x = path[p.len() as int];
                lemma_node_push_contains(t1, p, x);
                assert(!ks.contains(x));
                assert forall|a: int, b: int| 0 <= a < b < ks.push(x).len() implies ks.push(x)[a]
                    != ks.push(x)[b] by {
                    if b < ks.len() {
                    } else {
                        assert(ks.push(x)[b] == x);
                        if ks.push(x)[a] == x {
                            assert(ks.contains(x));
                        }
                    }
                }
            }
        }
    }
}

/// The insertion events of a record sequence: each record keyed by its id
/// split on `-`.
pub open spec fn batch(cs: Seq<CatModel>) -> Seq<(Seq<Seq<char>>, CatModel)> {
    Seq::new(cs.len(), |i: int| (split_on(cs[i].id, '-'), cs[i]))
}

/// Some inserted id path extends `p` by the segment `k`.
pub open spec fn seg_inserted(
    s: Seq<(Seq<Seq<char>>, CatModel)>,
    p: Seq<Seq<char>>,
    k: Seq<char>,
) -> bool {
    exists|n: int|
        0 <= n < s.len() && is_prefix(p, (#[trigger] s[n]).0) && p.len() < s[n].0.len()
            && s[n].0[p.len() as int] == k
}

/// The child segments that the insertion events `s` create under the node at
/// `p` of the tree `t`, in order of first insertion: segments already present
/// in `t` are skipped, and each new segment appears once.
pub open spec fn added_keys(
    t: CategoryTree,
    s: Seq<(Seq<Seq<char>>, CatModel)>,
    p: Seq<Seq<char>>,
) -> Seq<Seq<char>>
    decreases s.len(),
{
    if s.len() == 0 {
        Seq::empty()
    } else {
        let prev = added_keys(t, s.drop_last(), p);
        let q = s.last().0;
        if is_prefix(p, q) && p.len() < q.len() && !node_at(t, p.push(q[p.len() as int]))
            && !prev.contains(q[p.len() as int]) {
            prev.push(q[p.len() as int])
        } else {
            prev
        }
    }
}

/// `t2` is `t1` after exactly the insertion events `s`, in order: the records
/// at every path grow by the records inserted there, the nodes are extended by
/// the prefixes of the inserted id paths, and the children of every node are
/// the old ones followed, in order of first insertion, by the new segments.
pub open spec fn applies_batch(
    t1: CategoryTree,
    t2: CategoryTree,
    s: Seq<(Seq<Seq<char>>, CatModel)>,
) -> bool {
    &&& forall|p: Seq<Seq<char>>| #[trigger] cats_at(t2, p) == cats_at(t1, p) + inserted_at(s, p)
    &&& forall|p: Seq<Seq<char>>| #[trigger] node_at(t2, p) <==> node_at(t1, p) || path_inserted(
        s,
        p,
    )
    &&& forall|p: Seq<Seq<char>>| #[trigger] keys_at(t2, p) == keys_at(t1, p) + added_keys(
        t1,
        s,
        p,
    )
}

proof fn lemma_applies_batch_empty(t: CategoryTree)
    ensures
        applies_batch(t, t, Seq::empty()),
{
    assert forall|p: Seq<Seq<char>>| #[trigger] cats_at(t, p) == cats_at(t, p) + inserted_at(
        Seq::<(Seq<Seq<char>>, CatModel)>::empty(),
        p,
    ) by {
        assert(cats_at(t, p) + Seq::<CatModel>::empty() =~= cats_at(t, p));
    }
    assert forall|p: Seq<Seq<char>>| #[trigger] keys_at(t, p) == keys_at(t, p) + added_keys(
        t,
        Seq::<(Seq<Seq<char>>, CatModel)>::empty(),
        p,
    ) by {
        assert(added_keys(t, Seq::<(Seq<Seq<char>>, CatModel)>::empty(), p)
            == Seq::<Seq<char>>::empty());
        assert(keys_at(t, p) + Seq::<Seq<char>>::empty() =~= keys_at(t, p));
    }
}

proof fn lemma_prefix_push(p: Seq<Seq<char>>, k: Seq<char>, q: Seq<Seq<char>>)
    ensures
        is_prefix(p.push(k), q) <==> (is_prefix(p, q) && p.len() < q.len() && q[p.len() as int]
            == k),
{
    if is_prefix(p, q) && p.len() < q.len() && q[p.len() as int] == k {
        assert forall|t: int| 0 <= t < p.len() + 1 implies p.push(k)[t] == q.take(
            p.len() as int + 1,
        )[t] by {
            if t < p.len() {
                assert(p[t] == q.take(p.len() as int)[t]);
            }
        }
        assert(p.push(k) =~= q.take(p.len() as int + 1));
    }
    if is_prefix(p.push(k), q) {
        assert(p.push(k)[p.len() as int] == q.take(p.len() as int + 1)[p.len() as int]);
        assert forall|t: int| 0 <= t < p.len() implies p[t] == q.take(p.len() as int)[t] by {
            assert(p.push(k)[t] == q.take(p.len() as int + 1)[t]);
        }
        assert(p =~= q.take(p.len() as int));
    }
}

proof fn lemma_node_prefix(t: CategoryTree, p: Seq<Seq<char>>, k: Seq<char>)
    requires
        node_at(t, p.push(k)),
    ensures
        node_at(t, p),
    decreases p.len(),
{
    if p.len() > 0 {
        assert(p.push(k)[0] == p[0]);
        assert(p.push(k).drop_first() =~= p.drop_first().push(k));
        let j = key_index(t.children@, p[0]);
        assert(node_at(t.children@[j].1, p.drop_first().push(k)));
        lemma_node_prefix(t.children@[j].1, p.drop_first(), k);
    }
}

proof fn lemma_contains_concat(a: Seq<Seq<char>>, b: Seq<Seq<char>>, k: Seq<char>)
    ensures
        (a + b).contains(k) <==> a.contains(k) || b.contains(k),
{
    if a.contains(k) {
        let i = choose|i: int| 0 <= i < a.len() && a[i] == k;
        assert((a + b)[i] == k);
    }
    if b.contains(k) {
        let i = choose|i: int| 0 <= i < b.len() && b[i] == k;
        assert((a + b)[a.len() + i] == k);
    }
    if (a + b).contains(k) {
        let i = choose|i: int| 0 <= i < (a + b).len() && (a + b)[i] == k;
        if i < a.len() {
            assert(a[i] == k);
        } else {
            assert(b[i - a.len()] == k);
        }
    }
}

proof fn lemma_added_keys_contains(
    t: CategoryTree,
    s: Seq<(Seq<Seq<char>>, CatModel)>,
    p: Seq<Seq<char>>,
    k: Seq<char>,
)
    ensures
        added_keys(t, s, p).contains(k) <==> (!node_at(t, p.push(k)) && seg_inserted(s, p, k)),
    decreases s.len(),
{
    if s.len() == 0 {
    } else {
        lemma_added_keys_contains(t, s.drop_last(), p, k);
        let prev = added_keys(t, s.drop_last(), p);
        let cur = added_keys(t, s, p);
        let q = s.last().0;
        let pushed = is_prefix(p, q) && p.len() < q.len() && !node_at(t, p.push(q[p.len() as int]))
            && !prev.contains(q[p.len() as int]);
        // membership in the step result
        if prev.contains(k) {
            let i = choose|i: int| 0 <= i < prev.len() && prev[i] == k;
            assert(cur[i] == k);
        }
        if cur.contains(k) && !prev.contains(k) {
            let i = choose|i: int| 0 <= i < cur.len() && cur[i] == k;
            assert(i == prev.len() && pushed && q[p.len() as int] == k);
        }
        // the event witnesses shift between s and s.drop_last()
        if seg_inserted(s.drop_last(), p, k) {
            let n = choose|n: int|
                0 <= n < s.drop_last().len() && is_prefix(p, (#[trigger] s.drop_last()[n]).0)
                    && p.len() < s.drop_last()[n].0.len() && s.drop_last()[n].0[p.len() as int]
                    == k;
            assert(s[n] == s.drop_last()[n]);
            assert(seg_inserted(s, p, k));
        }
        if !node_at(t, p.push(k)) && seg_inserted(s, p, k) {
            let n = choose|n: int|
                0 <= n < s.len() && is_prefix(p, (#[trigger] s[n]).0) && p.len() < s[n].0.len()
                    && s[n].0[p.len() as int] == k;
            if n < s.len() - 1 {
                assert(s.drop_last()[n] == s[n]);
                assert(seg_inserted(s.drop_last(), p, k));
                assert(prev.contains(k));
            } else {
                assert(q[p.len() as int] == k);
                if !prev.contains(k) {
                    assert(pushed);
                    assert(cur[prev.len() as int] == k);
                }
            }
        }
        if pushed && q[p.len() as int] == k {
            assert(cur[prev.len() as int] == k);
            assert(seg_inserted(s, p, k)) by {
                assert(is_prefix(p, (s[s.len() - 1]).0) && p.len() < s[s.len() - 1].0.len()
                    && s[s.len() - 1].0[p.len() as int] == k);
            }
        }
    }
}

proof fn lemma_path_inserted_seg(
    s: Seq<(Seq<Seq<char>>, CatModel)>,
    p: Seq<Seq<char>>,
    k: Seq<char>,
)
    ensures
        path_inserted(s, p.push(k)) <==> seg_inserted(s, p, k),
{
    if path_inserted(s, p.push(k)) {
        let n = choose|n: int| 0 <= n < s.len() && is_prefix(p.push(k), (#[trigger] s[n]).0);
        lemma_prefix_push(p, k, s[n].0);
        assert(seg_inserted(s, p, k));
    }
    if seg_inserted(s, p, k) {
        let n = choose|n: int|
            0 <= n < s.len() && is_prefix(p, (#[trigger] s[n]).0) && p.len() < s[n].0.len()
                && s[n].0[p.len() as int] == k;
        lemma_prefix_push(p, k, s[n].0);
        assert(is_prefix(p.push(k), s[n].0));
        assert(path_inserted(s, p.push(k)));
    }
}

proof fn lemma_added_keys_concat(
    t1: CategoryTree,
    t2: CategoryTree,
    s1: Seq<(Seq<Seq<char>>, CatModel)>,
    s2: Seq<(Seq<Seq<char>>, CatModel)>,
    p: Seq<Seq<char>>,
)
    requires
        applies_batch(t1, t2, s1),
    ensures
        added_keys(t1, s1 + s2, p) == added_keys(t1, s1, p) + added_keys(t2, s2, p),
    decreases s2.len(),
{
    let add_a = added_keys(t1, s1, p);
    if s2.len() == 0 {
        assert(s1 + s2 =~= s1);
        assert(add_a + added_keys(t2, s2, p) =~= add_a);
    } else {
        let s2p = s2.drop_last();
        assert((s1 + s2).drop_last() =~= s1 + s2p);
        assert((s1 + s2).last() == s2.last());
        lemma_added_keys_concat(t1, t2, s1, s2p, p);
        let add_b = added_keys(t2, s2p, p);
        let q = s2.last().0;
        if is_prefix(p, q) && p.len() < q.len() {
            let seg = q[p.len() as int];
            lemma_contains_concat(add_a, add_b, seg);
            lemma_added_keys_contains(t1, s1, p, seg);
            lemma_path_inserted_seg(s1, p, seg);
            assert(node_at(t2, p.push(seg)) <==> node_at(t1, p.push(seg)) || path_inserted(
                s1,
                p.push(seg),
            ));
            if !node_at(t2, p.push(seg)) && !add_b.contains(seg) {
                assert((add_a + add_b).push(seg) =~= add_a + add_b.push(seg));
            }
        }
    }
}

proof fn lemma_inserted_at_concat(
    s1: Seq<(Seq<Seq<char>>, CatModel)>,
    s2: Seq<(Seq<Seq<char>>, CatModel)>,
    p: Seq<Seq<char>>,
)
    ensures
        inserted_at(s1 + s2, p) == inserted_at(s1, p) + inserted_at(s2, p),
    decreases s2.len(),
{
    if s2.len() == 0 {
        assert(s1 + s2 =~= s1);
        assert(inserted_at(s1, p) + inserted_at(s2, p) =~= inserted_at(s1, p));
    } else {
        assert((s1 + s2).drop_last() =~= s1 + s2.drop_last());
        assert((s1 + s2).last() == s2.last());
        lemma_inserted_at_concat(s1, s2.drop_last(), p);
        assert((inserted_at(s1, p) + inserted_at(s2.drop_last(), p)) + (if s2.last().0 == p {
            seq![s2.last().1]
        } else {
            Seq::<CatModel>::empty()
        }) =~= inserted_at(s1, p) + (inserted_at(s2.drop_last(), p) + (if s2.last().0 == p {
            seq![s2.last().1]
        } else {
            Seq::<CatModel>::empty()
        })));
    }
}

proof fn lemma_path_inserted_concat(
    s1: Seq<(Seq<Seq<char>>, CatModel)>,
    s2: Seq<(Seq<Seq<char>>, CatModel)>,
    p: Seq<Seq<char>>,
)
    ensures
        path_inserted(s1 + s2, p) <==> path_inserted(s1, p) || path_inserted(s2, p),
{
    let s = s1 + s2;
    if path_inserted(s1, p) {
        let n = choose|n: int| 0 <= n < s1.len() && is_prefix(p, (#[trigger] s1[n]).0);
        assert(s[n] == s1[n]);
    }
    if path_inserted(s2, p) {
        let n = choose|n: int| 0 <= n < s2.len() && is_prefix(p, (#[trigger] s2[n]).0);
        assert(s[s1.len() + n] == s2[n]);
    }
    if path_inserted(s, p) {
        let n = choose|n: int| 0 <= n < s.len() && is_prefix(p, (#[trigger] s[n]).0);
        if n < s1.len() {
            assert(s1[n] == s[n]);
        } else {
            assert(s2[n - s1.len()] == s[n]);
        }
    }
}

proof fn lemma_applies_batch_trans(
    t1: CategoryTree,
    t2: CategoryTree,
    t3: CategoryTree,
    s1: Seq<(Seq<Seq<char>>, CatModel)>,
    s2: Seq<(Seq<Seq<char>>, CatModel)>,
)
    requires
        applies_batch(t1, t2, s1),
        applies_batch(t2, t3, s2),
    ensures
        applies_batch(t1, t3, s1 + s2),
{
    assert forall|p: Seq<Seq<char>>| #[trigger] cats_at(t3, p) == cats_at(t1, p) + inserted_at(
        s1 + s2,
        p,
    ) by {
        lemma_inserted_at_concat(s1, s2, p);
        assert((cats_at(t1, p) + inserted_at(s1, p)) + inserted_at(s2, p) =~= cats_at(t1, p) + (
        inserted_at(s1, p) + inserted_at(s2, p)));
    }
    assert forall|p: Seq<Seq<char>>| #[trigger] node_at(t3, p) <==> node_at(t1, p)
        || path_inserted(s1 + s2, p) by {
        lemma_path_inserted_concat(s1, s2, p);
    }
    assert forall|p: Seq<Seq<char>>| #[trigger] keys_at(t3, p) == keys_at(t1, p) + added_keys(
        t1,
        s1 + s2,
        p,
    ) by {
        lemma_added_keys_concat(t1, t2, s1, s2, p);
        assert((keys_at(t1, p) + added_keys(t1, s1, p)) + added_keys(t2, s2, p) =~= keys_at(t1, p)
            + (added_keys(t1, s1, p) + added_keys(t2, s2, p)));
    }
}

proof fn lemma_updates_to_batch(
    t1: CategoryTree,
    t2: CategoryTree,
    path: Seq<Seq<char>>,
    c: CatModel,
)
    requires
        insert_updates(t1, t2, path, c),
    ensures
        applies_batch(t1, t2, seq![(path, c)]),
{
    let s = seq![(path, c)];
    assert(s.drop_last() =~= Seq::<(Seq<Seq<char>>, CatModel)>::empty());
    assert(s.last() == (path, c));
    assert forall|p: Seq<Seq<char>>| #[trigger] cats_at(t2, p) == cats_at(t1, p) + inserted_at(
        s,
        p,
    ) by {
        assert(inserted_at(s.drop_last(), p) == Seq::<CatModel>::empty());
        if p == path {
            assert(cats_at(t1, p).push(c) =~= cats_at(t1, p) + (Seq::<CatModel>::empty()
                + seq![c]));
        } else {
            assert(cats_at(t1, p) =~= cats_at(t1, p) + (Seq::<CatModel>::empty()
                + Seq::<CatModel>::empty()));
        }
    }
    assert forall|p: Seq<Seq<char>>| #[trigger] node_at(t2, p) <==> node_at(t1, p)
        || path_inserted(s, p) by {
        if is_prefix(p, path) {
            assert(is_prefix(p, s[0].0));
        }
    }
    assert forall|p: Seq<Seq<char>>| #[trigger] keys_at(t2, p) == keys_at(t1, p) + added_keys(
        t1,
        s,
        p,
    ) by {
        assert(added_keys(t1, s.drop_last(), p) == Seq::<Seq<char>>::empty());
        let within = is_prefix(p, path) && p.len() < path.len();
        if within {
            let seg = path[p.len() as int];
            assert(!Seq::<Seq<char>>::empty().contains(seg));
            if !node_at(t1, p.push(seg)) {
                assert(added_keys(t1, s, p) =~= seq![seg]);
            }
        }
        if node_at(t1, p) {
            if within && !node_at(t1, p.push(path[p.len() as int])) {
                assert(keys_at(t1, p).push(path[p.len() as int]) =~= keys_at(t1, p) + seq![
                    path[p.len() as int],
                ]);
            } else {
                assert(keys_at(t1, p) + added_keys(t1, s, p) =~= keys_at(t1, p));
            }
        } else {
            lemma_missing_node_keys(t1, p);
            if node_at(t2, p) {
                assert(is_prefix(p, path));
                if within {
                    let seg = path[p.len() as int];
                    if node_at(t1, p.push(seg)) {
                        lemma_node_prefix(t1, p, seg);
                    }
                    assert(keys_at(t2, p) =~= keys_at(t1, p) + added_keys(t1, s, p));
                } else {
                    assert(keys_at(t2, p) == Seq::<Seq<char>>::empty());
                    assert(keys_at(t2, p) =~= keys_at(t1, p) + added_keys(t1, s, p));
                }
            } else {
                lemma_missing_node_keys(t2, p);
                if within {
                    assert(node_at(t2, p));
                }
                assert(keys_at(t2, p) =~= keys_at(t1, p) + added_keys(t1, s, p));
            }
        }
    }
}

/// The records of one cell text, as insertion events.
pub open spec fn column_batch(text: Seq<char>) -> Seq<(Seq<Seq<char>>, CatModel)> {
    batch(spec_parse_entries(spec_construct_lines(text)))
}

/// Positional pairing of two columns' entries: each pair joined with one
/// space and trimmed, empty results dropped, excess entries of the longer
/// side ignored.
pub open spec fn combine_from(la: Seq<Seq<char>>, lb: Seq<Seq<char>>, i: int) -> Seq<Seq<char>>
    decreases la.len() + lb.len() - 2 * i,
{
    if 0 <= i < la.len() && i < lb.len() {
        let merged = spec_trim(la[i] + seq![' '] + lb[i]);
        (if merged.len() > 0 {
            seq![merged]
        } else {
            Seq::empty()
        }) + combine_from(la, lb, i + 1)
    } else {
        Seq::empty()
    }
}

/// The paired entries joined by a blank-line separator into one text block.
pub open spec fn join_blank(ls: Seq<Seq<char>>) -> Seq<char>
    decreases ls.len(),
{
    if ls.len() == 0 {
        Seq::empty()
    } else if ls.len() == 1 {
        ls[0]
    } else {
        ls[0] + seq!['\n', '\n', '\n'] + join_blank(ls.drop_first())
    }
}

proof fn lemma_join_blank_push(s: Seq<Seq<char>>, x: Seq<char>)
    ensures
        join_blank(s.push(x)) == if s.len() == 0 {
            x
        } else {
            join_blank(s) + seq!['\n', '\n', '\n'] + x
        },
    decreases s.len(),
{
    if s.len() == 0 {
        assert(s.push(x)[0] == x);
    } else if s.len() == 1 {
        assert(s.push(x)[0] == s[0]);
        assert(s.push(x).drop_first() =~= seq![x]);
        assert(join_blank(seq![x]) == x);
    } else {
        assert(s.push(x)[0] == s[0]);
        assert(s.push(x).drop_first() =~= s.drop_first().push(x));
        lemma_join_blank_push(s.drop_first(), x);
        assert((s[0] + seq!['\n', '\n', '\n']) + (join_blank(s.drop_first()) + seq![
            '\n',
            '\n',
            '\n',
        ] + x) =~= ((s[0] + seq!['\n', '\n', '\n']) + join_blank(s.drop_first())) + seq![
            '\n',
            '\n',
            '\n',
        ] + x);
    }
}

/// The text that two paired columns produce for re-reconstruction.
pub open spec fn spec_two_columns(a: Seq<char>, b: Seq<char>) -> Seq<char> {
    join_blank(combine_from(spec_construct_lines(a), spec_construct_lines(b), 0))
}

/// The cell text of the first column after the reading-order repair, or raw
/// where the repair does not apply.
pub open spec fn cell1_text(raw: Seq<char>) -> Seq<char> {
    match spec_normalize(raw) {
        Some(t) => t,
        None => raw,
    }
}

/// The insertion events of one grid row: column 1 (repaired), column 3, and
/// the column pair 5 and 6, in that order; other columns are ignored.
pub open spec fn row_batch(row: Seq<Seq<char>>) -> Seq<(Seq<Seq<char>>, CatModel)> {
    (if row.len() > 0 {
        column_batch(cell1_text(row[0]))
    } else {
        Seq::empty()
    }) + (if row.len() > 2 {
        column_batch(row[2])
    } else {
        Seq::empty()
    }) + (if row.len() > 4 {
        column_batch(
            spec_two_columns(
                spec_trim(row[4]),
                spec_trim(
                    if row.len() > 5 {
                        row[5]
                    } else {
                        Seq::empty()
                    },
                ),
            ),
        )
    } else {
        Seq::empty()
    })
}

/// The insertion events of a whole grid, row by row.
pub open spec fn grid_batch(rows: Seq<Seq<Seq<char>>>) -> Seq<(Seq<Seq<char>>, CatModel)>
    decreases rows.len(),
{
    if rows.len() == 0 {
        Seq::empty()
    } else {
        grid_batch(rows.drop_last()) + row_batch(rows.last())
    }
}

/// The views of a grid of cell strings.
pub open spec fn grid_views(rows: Seq<Vec<String>>) -> Seq<Seq<Seq<char>>> {
    Seq::new(rows.len(), |i: int| seq_views(rows[i]@))
}

pub open spec fn opt_seq(d: Option<Seq<char>>) -> Seq<char> {
    match d {
        Some(x) => x,
        None => Seq::empty(),
    }
}

/// One record's outline line: id, then code and description in brackets.
pub open spec fn render_cat_line(prefix: Seq<char>, connector: Seq<char>, c: CatModel) -> Seq<
    char,
> {
    match c.code {
        Some(code) => prefix + connector + c.id + " ["@ + code + ", "@ + opt_seq(c.desc) + "]"@,
        None => prefix + connector + c.id + " ["@ + opt_seq(c.desc) + "]"@,
    }
}

/// The record lines of one node from position `i` on; the last record closes
/// the branch glyph only when the node has no children.
pub open spec fn render_cats(
    cats: Seq<CatModel>,
    has_children: bool,
    prefix: Seq<char>,
    i: int,
) -> Seq<Seq<char>>
    decreases cats.len() - i,
{
    if 0 <= i < cats.len() {
        seq![
            render_cat_line(
                prefix,
                if i == cats.len() - 1 && !has_children {
                    "└── "@
                } else {
                    "├── "@
                },
                cats[i],
            ),
        ] + render_cats(cats, has_children, prefix, i + 1)
    } else {
        Seq::empty()
    }
}

/// How many children the root node of `t` has.
pub closed spec fn n_children(t: CategoryTree) -> int {
    t.children@.len() as int
}

/// The outline block of one subtree: the node's record lines, then each
/// child's key line and subtree block in creation order.
pub closed spec fn spec_render(t: CategoryTree, prefix: Seq<char>, is_last: bool) -> Seq<Seq<char>>
    decreases t, n_children(t) + 1int,
{
    render_cats(cat_views(t.categories@), t.children@.len() > 0, prefix, 0)
        + spec_render_children(t, 0, prefix, is_last)
}

/// The key lines and subtree blocks of the children from position `i` on.
pub closed spec fn spec_render_children(
    t: CategoryTree,
    i: int,
    prefix: Seq<char>,
    is_last: bool,
) -> Seq<Seq<char>>
    decreases t, n_children(t) - i,
{
    if 0 <= i < t.children@.len() {
        seq![
            prefix + (if is_last {
                "└── "@
            } else {
                "├── "@
            }) + t.children@[i].0@,
        ] + spec_render(
            t.children@[i].1,
            prefix + (if is_last {
                "    "@
            } else {
                "│   "@
            }),
            i == t.children@.len() - 1,
        ) + spec_render_children(t, i + 1, prefix, is_last)
    } else {
        Seq::empty()
    }
}

impl CategoryTree {
    /// Inserts every record of `cats`, in order, each at the path its id
    /// gives.
    fn insert_all(&mut self, cats: Vec<Category>)
        ensures
            applies_batch(*old(self), *final(self), batch(cat_views(cats@))),
            wf(*old(self)) ==> wf(*final(self)),
    {
        let ghost t0 = *self;
        let ghost all = cats@;
        let ghost bseq = batch(cat_views(all));
        let mut rest = cats;
        let ghost k: int = 0;
        proof {
            lemma_applies_batch_empty(t0);
            assert(bseq.take(0) =~= Seq::<(Seq<Seq<char>>, CatModel)>::empty());
        }
        while rest.len() > 0
            invariant
                0 <= k <= all.len(),
                rest@ == all.skip(k),
                applies_batch(t0, *self, bseq.take(k)),
                bseq == batch(cat_views(all)),
                wf(t0) ==> wf(*self),
            decreases rest@.len(),
        {
            let ghost prev = *self;
            let c = rest.remove(0);
            proof {
                assert(c == all[k]);
                assert(rest@ =~= all.skip(k + 1));
            }
            let idc = c.id.clone();
            self.insert(idc, c);
            proof {
                lemma_updates_to_batch(prev, *self, split_on(all[k].id@, '-'), all[k]@);
                lemma_applies_batch_trans(
                    t0,
                    prev,
                    *self,
                    bseq.take(k),
                    seq![(split_on(all[k].id@, '-'), all[k]@)],
                );
                assert(bseq[k] == (split_on(cat_views(all)[k].id, '-'), cat_views(all)[k]));
                assert(bseq.take(k + 1) =~= bseq.take(k) + seq![
                    (split_on(all[k].id@, '-'), all[k]@),
                ]);
                k = k + 1;
            }
        }
        proof {
            assert(bseq.take(all.len() as int) =~= bseq);
        }
    }

    /// Reconstructs one cell's logical entries, parses them, and inserts every
    /// record into the tree.
    pub fn parse_one_column(&mut self, cell_text: &str)
        ensures
            applies_batch(*old(self), *final(self), column_batch(cell_text@)),
            wf(*old(self)) ==> wf(*final(self)),
    {
        let chunks = construct_lines(cell_text);
        let parsed = parse_categories(&chunks);
        self.insert_all(parsed);
    }

    /// Reconstructs two adjacent columns independently, pairs their entries
    /// positionally, re-reconstructs the joined text, parses it and inserts
    /// the records. Returns how many excess entries the longer column lost to
    /// the pairing, so the silent truncation of the source data is observable.
    pub fn parse_two_columns(&mut self, cell_first: &str, cell_second: &str) -> (dropped: usize)
        ensures
            applies_batch(
                *old(self),
                *final(self),
                column_batch(spec_two_columns(cell_first@, cell_second@)),
            ),
            wf(*old(self)) ==> wf(*final(self)),
            dropped == if spec_construct_lines(cell_first@).len() >= spec_construct_lines(
                cell_second@,
            ).len() {
                spec_construct_lines(cell_first@).len() - spec_construct_lines(cell_second@).len()
            } else {
                spec_construct_lines(cell_second@).len() - spec_construct_lines(cell_first@).len()
            },
    {
        let la = construct_lines(cell_first);
        let lb = construct_lines(cell_second);
        let ghost va = seq_views(la@);
        let ghost vb = seq_views(lb@);
        let min = if la.len() <= lb.len() {
            la.len()
        } else {
            lb.len()
        };
        let dropped = if la.len() >= lb.len() {
            la.len() - lb.len()
        } else {
            lb.len() - la.len()
        };
        let mut combined: Vec<String> = Vec::new();
        let mut i: usize = 0;
        proof {
            assert(seq_views(combined@) + combine_from(va, vb, 0) =~= combine_from(va, vb, 0));
            reveal_strlit(" ");
            assert(" "@ =~= seq![' ']);
        }
        while i < min
            invariant
                i <= min,
                min <= la@.len() && min <= lb@.len(),
                (min == la@.len() || min == lb@.len()),
                va == seq_views(la@),
                vb == seq_views(lb@),
                " "@ == seq![' '],
                combine_from(va, vb, 0) == seq_views(combined@) + combine_from(va, vb, i as int),
            decreases min - i,
        {
            let ai: &String = &la[i];
            let bi: &String = &lb[i];
            let joined = String::from_str(ai.as_str()).concat(" ").concat(bi.as_str());
            let trimmed = trim_exec(joined.as_str());
            let ghost old_combined = combined@;
            proof {
                assert(joined@ == va[i as int] + seq![' '] + vb[i as int]);
            }
            if trimmed.unicode_len() > 0 {
                combined.push(String::from_str(trimmed));
                proof {
                    lemma_seq_views_push(old_combined, combined@.last());
                    assert(seq_views(combined@) + combine_from(va, vb, i + 1) =~= seq_views(
                        old_combined,
                    ) + (seq![trimmed@] + combine_from(va, vb, i + 1)));
                }
            } else {
                proof {
                    assert(seq_views(combined@) + combine_from(va, vb, i + 1) =~= seq_views(
                        combined@,
                    ) + (Seq::<Seq<char>>::empty() + combine_from(va, vb, i + 1)));
                }
            }
            i = i + 1;
        }
        proof {
            assert(combine_from(va, vb, 0) =~= seq_views(combined@));
        }
        let mut text = String::new();
        let mut j: usize = 0;
        proof {
            assert(seq_views(combined@).take(0) =~= Seq::<Seq<char>>::empty());
            reveal_strlit("\n\n\n");
            assert("\n\n\n"@ =~= seq!['\n', '\n', '\n']);
        }
        while j < combined.len()
            invariant
                j <= combined@.len(),
                "\n\n\n"@ == seq!['\n', '\n', '\n'],
                text@ == join_blank(seq_views(combined@).take(j as int)),
            decreases combined@.len() - j,
        {
            if j > 0 {
                text.append("\n\n\n");
            }
            let cj: &String = &combined[j];
            text.append(cj.as_str());
            proof {
                lemma_join_blank_push(seq_views(combined@).take(j as int), combined@[j as int]@);
                assert(seq_views(combined@).take(j + 1) =~= seq_views(combined@).take(
                    j as int,
                ).push(combined@[j as int]@));
            }
            j = j + 1;
        }
        proof {
            assert(seq_views(combined@).take(combined@.len() as int) =~= seq_views(combined@));
        }
        let chunks = construct_lines(text.as_str());
        let parsed = parse_categories(&chunks);
        self.insert_all(parsed);
        dropped
    }

    /// Builds the tree from a grid of cell texts, rows outermost: for each
    /// row, column 1 through the reading-order repair (raw on "not
    /// applicable"), column 3 directly, and columns 5 and 6 as a pair,
    /// trimmed, through the column combiner.
    pub fn build_from_grid(&mut self, rows: &Vec<Vec<String>>)
        ensures
            applies_batch(*old(self), *final(self), grid_batch(grid_views(rows@))),
            wf(*old(self)) ==> wf(*final(self)),
    {
        let ghost t0 = *self;
        let ghost gv = grid_views(rows@);
        let mut r: usize = 0;
        proof {
            lemma_applies_batch_empty(t0);
            assert(grid_batch(gv.take(0)) =~= Seq::<(Seq<Seq<char>>, CatModel)>::empty());
        }
        while r < rows.len()
            invariant
                r <= rows@.len(),
                gv == grid_views(rows@),
                applies_batch(t0, *self, grid_batch(gv.take(r as int))),
                wf(t0) ==> wf(*self),
            decreases rows@.len() - r,
        {
            let row: &Vec<String> = &rows[r];
            let ghost rv = seq_views(row@);
            let ghost tr0 = *self;
            proof {
                assert(gv[r as int] == rv);
            }
            let ghost b1 = if rv.len() > 0 {
                column_batch(cell1_text(rv[0]))
            } else {
                Seq::<(Seq<Seq<char>>, CatModel)>::empty()
            };
            let ghost b2 = if rv.len() > 2 {
                column_batch(rv[2])
            } else {
                Seq::<(Seq<Seq<char>>, CatModel)>::empty()
            };
            let ghost b3 = if rv.len() > 4 {
                column_batch(
                    spec_two_columns(
                        spec_trim(rv[4]),
                        spec_trim(
                            if rv.len() > 5 {
                                rv[5]
                            } else {
                                Seq::<char>::empty()
                            },
                        ),
                    ),
                )
            } else {
                Seq::<(Seq<Seq<char>>, CatModel)>::empty()
            };
            if row.len() > 0 {
                let c1: &String = &row[0];
                match normalize_first_category(c1.as_str()) {
                    Some(t) => {
                        self.parse_one_column(t.as_str());
                    },
                    None => {
                        self.parse_one_column(c1.as_str());
                    },
                }
            } else {
                proof {
                    lemma_applies_batch_empty(*self);
                }
            }
            let ghost tr1 = *self;
            proof {
                assert(applies_batch(tr0, tr1, b1));
            }
            if row.len() > 2 {
                let c3: &String = &row[2];
                self.parse_one_column(c3.as_str());
            } else {
                proof {
                    lemma_applies_batch_empty(*self);
                }
            }
            let ghost tr2 = *self;
            proof {
                assert(applies_batch(tr1, tr2, b2));
            }
            if row.len() > 4 {
                let c5: &String = &row[4];
                let a = trim_exec(c5.as_str());
                if row.len() > 5 {
                    let c6: &String = &row[5];
                    let b = trim_exec(c6.as_str());
                    let _dropped = self.parse_two_columns(a, b);
                } else {
                    let b = trim_exec("");
                    proof {
                        reveal_strlit("");
                        assert(""@ =~= Seq::<char>::empty());
                    }
                    let _dropped = self.parse_two_columns(a, b);
                }
            } else {
                proof {
                    lemma_applies_batch_empty(*self);
                }
            }
            let ghost tr3 = *self;
            proof {
                assert(applies_batch(tr2, tr3, b3));
                lemma_applies_batch_trans(tr0, tr1, tr2, b1, b2);
                lemma_applies_batch_trans(tr0, tr2, tr3, b1 + b2, b3);
                assert(row_batch(rv) == (b1 + b2) + b3);
                lemma_applies_batch_trans(t0, tr0, tr3, grid_batch(gv.take(r as int)), row_batch(rv));
                assert(gv.take(r + 1).drop_last() =~= gv.take(r as int));
                assert(gv.take(r + 1).last() == rv);
                assert(grid_batch(gv.take(r + 1)) == grid_batch(gv.take(r as int)) + row_batch(rv));
            }
            r = r + 1;
        }
        proof {
            assert(gv.take(gv.len() as int) =~= gv);
        }
    }

    /// Appends to `out` the outline lines of this subtree: this node's record
    /// lines first, then, per child, its key line followed by its subtree.
    fn render_lines_inner(&self, prefix: &str, is_last: bool, out: &mut Vec<String>)
        ensures
            seq_views(final(out)@) == seq_views(old(out)@) + spec_render(*self, prefix@, is_last),
        decreases *self,
    {
        let ghost out0 = old(out)@;
        let ghost cv = cat_views(self.categories@);
        let has_children = self.children.len() > 0;
        let n = self.categories.len();
        let mut i: usize = 0;
        proof {
            assert(seq_views(out@) + render_cats(cv, has_children, prefix@, 0) =~= seq_views(out0)
                + render_cats(cv, has_children, prefix@, 0));
        }
        while i < n
            invariant
                i <= n,
                n == self.categories@.len(),
                cv == cat_views(self.categories@),
                has_children == (self.children@.len() > 0),
                seq_views(out@) + render_cats(cv, has_children, prefix@, i as int) == seq_views(
                    out0,
                ) + render_cats(cv, has_children, prefix@, 0),
            decreases n - i,
        {
            let cat: &Category = &self.categories[i];
            let connector: &str = if i == n - 1 && !has_children {
                "└── "
            } else {
                "├── "
            };
            let line = String::from_str(prefix).concat(connector).concat(cat.id.as_str()).concat(
                " [",
            );
            let line = match &cat.code {
                Some(code) => line.concat(code.as_str()).concat(", "),
                None => line,
            };
            let line = match &cat.desc {
                Some(d) => line.concat(d.as_str()),
                None => line,
            };
            let line = line.concat("]");
            let ghost old_out = out@;
            out.push(line);
            proof {
                lemma_seq_views_push(old_out, out@.last());
                assert(out@.last()@ == render_cat_line(
                    prefix@,
                    if i == n - 1 && !has_children {
                        "└── "@
                    } else {
                        "├── "@
                    },
                    cv[i as int],
                )) by {
                    if cat.desc is None {
                        assert(opt_seq(cv[i as int].desc) =~= Seq::<char>::empty());
                        match cat.code {
                            Some(_) => {
                                assert((prefix@ + connector@ + cv[i as int].id + " ["@ + opt_seq(
                                    cv[i as int].code,
                                ) + ", "@) + Seq::<char>::empty() =~= prefix@ + connector@
                                    + cv[i as int].id + " ["@ + opt_seq(cv[i as int].code)
                                    + ", "@);
                            },
                            None => {
                                assert((prefix@ + connector@ + cv[i as int].id + " ["@)
                                    + Seq::<char>::empty() =~= prefix@ + connector@
                                    + cv[i as int].id + " ["@);
                            },
                        }
                    }
                }
                assert(seq_views(out@) + render_cats(cv, has_children, prefix@, i + 1)
                    =~= seq_views(old_out) + (seq![
                    render_cat_line(
                        prefix@,
                        if i == n - 1 && !has_children {
                            "└── "@
                        } else {
                            "├── "@
                        },
                        cv[i as int],
                    ),
                ] + render_cats(cv, has_children, prefix@, i + 1)));
            }
            i = i + 1;
        }
        let m = self.children.len();
        let mut j: usize = 0;
        proof {
            assert(render_cats(cv, has_children, prefix@, n as int)
                == Seq::<Seq<char>>::empty());
            assert(seq_views(out@) + Seq::<Seq<char>>::empty() =~= seq_views(out@));
            assert(seq_views(out@) + spec_render_children(*self, 0, prefix@, is_last)
                =~= seq_views(out0) + (render_cats(cv, has_children, prefix@, 0)
                + spec_render_children(*self, 0, prefix@, is_last)));
        }
        while j < m
            invariant
                j <= m,
                m == self.children@.len(),
                seq_views(out@) + spec_render_children(*self, j as int, prefix@, is_last)
                    == seq_views(out0) + spec_render(*self, prefix@, is_last),
            decreases m - j,
        {
            let branch: &str = if is_last {
                "└── "
            } else {
                "├── "
            };
            let kref: &String = &self.children[j].0;
            let key_line = String::from_str(prefix).concat(branch).concat(kref.as_str());
            let ghost old_out = out@;
            out.push(key_line);
            proof {
                lemma_seq_views_push(old_out, out@.last());
            }
            let new_prefix = String::from_str(prefix).concat(
                if is_last {
                    "    "
                } else {
                    "│   "
                },
            );
            let ghost mid_out = out@;
            let child: &CategoryTree = &self.children[j].1;
            proof {
                assert(decreases_to!(*self => self.children));
                assert(decreases_to!(self.children => self.children[j as int]));
            }
            child.render_lines_inner(new_prefix.as_str(), j == m - 1, out);
            proof {
                assert(seq_views(out@) + spec_render_children(*self, j + 1, prefix@, is_last)
                    =~= (seq_views(old_out) + (seq![
                    prefix@ + (if is_last {
                        "└── "@
                    } else {
                        "├── "@
                    }) + self.children@[j as int].0@,
                ] + (spec_render(
                    self.children@[j as int].1,
                    prefix@ + (if is_last {
                        "    "@
                    } else {
                        "│   "@
                    }),
                    j == m - 1,
                ) + spec_render_children(*self, j + 1, prefix@, is_last)))));
            }
            j = j + 1;
        }
        proof {
            assert(spec_render_children(*self, m as int, prefix@, is_last)
                == Seq::<Seq<char>>::empty());
            assert(seq_views(out@) + Seq::<Seq<char>>::empty() =~= seq_views(out@));
        }
    }

    /// The depth-first indented outline of the whole tree, one line per
    /// record or child key, ready to be written to any sink.
    pub fn render_lines(&self) -> (out: Vec<String>)
        ensures
            seq_views(out@) == spec_render(*self, Seq::empty(), true),
    {
        let mut out: Vec<String> = Vec::new();
        proof {
            reveal_strlit("");
            assert(""@ =~= Seq::<char>::empty());
            assert(seq_views(out@) =~= Seq::<Seq<char>>::empty());
        }
        self.render_lines_inner("", true, &mut out);
        proof {
            assert(Seq::<Seq<char>>::empty() + spec_render(*self, ""@, true) =~= spec_render(
                *self,
                ""@,
                true,
            ));
        }
        out
    }

    /// The records attached directly to this node, in insertion order.
    pub fn categories(&self) -> (r: &Vec<Category>)
        ensures
            cat_views(r@) == cats_at(*self, Seq::empty()),
    {
        &self.categories
    }

    /// How many children this node has.
    pub fn child_count(&self) -> (n: usize)
        ensures
            n == keys_at(*self, Seq::empty()).len(),
    {
        proof {
            assert(keys_at(*self, Seq::empty()).len() == self.children@.len());
        }
        self.children.len()
    }

    /// The key of the `i`-th child, in first-creation order.
    pub fn child_key(&self, i: usize) -> (k: &String)
        requires
            i < keys_at(*self, Seq::empty()).len(),
        ensures
            k@ == keys_at(*self, Seq::empty())[i as int],
    {
        proof {
            assert(keys_at(*self, Seq::empty()) == keys_list(self.children@));
        }
        &self.children[i].0
    }

    /// The child node reached by one segment, if it exists: the subtree whose
    /// observations are this tree's at every path extended by `key`.
    pub fn child<'a>(&'a self, key: &str) -> (r: Option<&'a CategoryTree>)
        ensures
            match r {
                Some(c) => node_at(*self, seq![key@]) && (forall|p: Seq<Seq<char>>|
                    #[trigger] cats_at(*c, p) == cats_at(*self, seq![key@] + p)) && (forall|
                    p: Seq<Seq<char>>,
                |
                    #[trigger] node_at(*c, p) == node_at(*self, seq![key@] + p)) && (forall|
                    p: Seq<Seq<char>>,
                |
                    #[trigger] keys_at(*c, p) == keys_at(*self, seq![key@] + p)),
                None => !node_at(*self, seq![key@]),
            },
    {
        let mut i: usize = 0;
        while i < self.children.len()
            invariant
                i <= self.children@.len(),
                forall|t: int| 0 <= t < i ==> (#[trigger] self.children@[t]).0@ != key@,
            decreases self.children@.len() - i,
        {
            if str_eq(self.children[i].0.as_str(), key) {
                proof {
                    lemma_key_index_first(self.children@, key@, i as int);
                    assert(seq![key@][0] == key@);
                    let child = self.children@[i as int].1;
                    assert forall|p: Seq<Seq<char>>| #[trigger] cats_at(child, p) == cats_at(
                        *self,
                        seq![key@] + p,
                    ) by {
                        assert((seq![key@] + p)[0] == key@);
                        assert((seq![key@] + p).drop_first() =~= p);
                    }
                    assert forall|p: Seq<Seq<char>>| #[trigger] node_at(child, p) == node_at(
                        *self,
                        seq![key@] + p,
                    ) by {
                        assert((seq![key@] + p)[0] == key@);
                        assert((seq![key@] + p).drop_first() =~= p);
                    }
                    assert forall|p: Seq<Seq<char>>| #[trigger] keys_at(child, p) == keys_at(
                        *self,
                        seq![key@] + p,
                    ) by {
                        assert((seq![key@] + p)[0] == key@);
                        assert((seq![key@] + p).drop_first() =~= p);
                    }
                    assert(node_at(*self, seq![key@])) by {
                        assert(seq![key@].drop_first() =~= Seq::<Seq<char>>::empty());
                        assert(node_at(self.children@[i as int].1, seq![key@].drop_first()));
                    }
                }
                return Some(&self.children[i].1);
            }
            i = i + 1;
        }
        proof {
            lemma_key_index_first(self.children@, key@, self.children@.len() as int);
            assert(seq![key@][0] == key@);
        }
        None
    }
}

} // verus!
