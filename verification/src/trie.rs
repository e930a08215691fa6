//! A prefix trie keyed by sequences of characters.
//!
//! Shared key prefixes share path nodes. Each node optionally stores a value;
//! a value is present at a node exactly when some inserted key ends there.
//! Lookups never clone stored values: they hand out references into the trie.

use vstd::prelude::*;

verus! {

/// A rooted prefix tree. Every node owns its children exclusively; the
/// structure is acyclic by construction.
pub struct Trie<T> {
    value: Option<T>,
    paths: Vec<(char, Trie<T>)>,
}

impl<T> Trie<T> {
    /// The first child reached by step `c`, if one exists.
    pub closed spec fn child_spec(self, c: char) -> Option<Trie<T>> {
        Self::find_child(self.paths@, c)
    }

    spec fn find_child(s: Seq<(char, Trie<T>)>, c: char) -> Option<Trie<T>>
        decreases s.len(),
    {
        if s.len() <= 0 {
            None
        } else if s[0].0 == c {
            Some(s[0].1)
        } else {
            Self::find_child(s.skip(1), c)
        }
    }

    /// The value stored at the node reached by walking `steps` from this
    /// node: `None` when no such node exists or when the node holds no value.
    pub closed spec fn value_at(self, steps: Seq<char>) -> Option<T>
        decreases steps.len(),
    {
        if steps.len() <= 0 {
            self.value
        } else {
            match self.child_spec(steps[0]) {
                None => None,
                Some(t) => t.value_at(steps.skip(1)),
            }
        }
    }

    /// Whether a node exists at the end of path `steps`.
    pub closed spec fn has_path(self, steps: Seq<char>) -> bool
        decreases steps.len(),
    {
        if steps.len() <= 0 {
            true
        } else {
            match self.child_spec(steps[0]) {
                None => false,
                Some(t) => t.has_path(steps.skip(1)),
            }
        }
    }

    /// The path walked by the greedy descent along `steps`: the longest
    /// prefix of `steps` that exists as a path in the trie.
    pub closed spec fn walk(self, steps: Seq<char>) -> Seq<char>
        decreases steps.len(),
    {
        if steps.len() <= 0 {
            Seq::empty()
        } else {
            match self.child_spec(steps[0]) {
                None => Seq::empty(),
                Some(t) => seq![steps[0]] + t.walk(steps.skip(1)),
            }
        }
    }

    /// What `best_match` returns: the value at the final node of the greedy
    /// walk, which is not necessarily the deepest ancestor holding a value.
    pub closed spec fn best_match_spec(self, steps: Seq<char>) -> Option<T>
        decreases steps.len(),
    {
        if steps.len() <= 0 {
            self.value
        } else {
            match self.child_spec(steps[0]) {
                None => self.value,
                Some(t) => t.best_match_spec(steps.skip(1)),
            }
        }
    }

    /// The steps of the immediate children, in stored order.
    pub closed spec fn child_steps(self) -> Seq<char> {
        self.paths@.map_values(|p: (char, Trie<T>)| p.0)
    }

    /// A fresh trie holding nothing: no values, no paths but the empty one.
    pub fn root() -> (r: Self)
        ensures
            forall|k: Seq<char>| #[trigger] r.value_at(k) is None,
            forall|k: Seq<char>| #[trigger] r.has_path(k) <==> k.len() == 0,
    {
        let r = Trie { value: None, paths: Vec::new() };
        proof {
            assert forall|k: Seq<char>| #[trigger] r.value_at(k) is None by {
                if k.len() > 0 {
                    assert(r.child_spec(k[0]) is None);
                }
            }
            assert forall|k: Seq<char>| #[trigger] r.has_path(k) <==> k.len() == 0 by {
                if k.len() > 0 {
                    assert(r.child_spec(k[0]) is None);
                }
            }
        }
        r
    }

    /// Exact-key lookup: the full step sequence must exist as a path, and the
    /// terminal node must hold a value.
    pub fn exact_match(&self, steps: &[char]) -> (r: Option<&T>)
        ensures
            match r {
                Some(v) => self.value_at(steps@) == Some(*v),
                None => self.value_at(steps@) is None,
            },
    {
        proof {
            assert(steps@.skip(0) =~= steps@);
        }
        self.exact_match_at(steps, 0)
    }

    fn exact_match_at(&self, steps: &[char], i: usize) -> (r: Option<&T>)
        requires
            i <= steps@.len(),
        ensures
            match r {
                Some(v) => self.value_at(steps@.skip(i as int)) == Some(*v),
                None => self.value_at(steps@.skip(i as int)) is None,
            },
        decreases steps@.len() - i,
    {
        if i == steps.len() {
            proof {
                assert(steps@.skip(i as int) =~= Seq::empty());
            }
            self.value.as_ref()
        } else {
            proof {
                assert(steps@.skip(i as int).len() > 0);
                assert(steps@.skip(i as int)[0] == steps@[i as int]);
                assert(steps@.skip(i as int).skip(1) =~= steps@.skip(i as int + 1));
            }
            match self.child(steps[i]) {
                None => None,
                Some(t) => t.exact_match_at(steps, i + 1),
            }
        }
    }

    /// Greedy lookup: descend while the current step has a matching child,
    /// then report the value at the node where the descent stopped. The
    /// descent never backtracks to a shallower node that held a value.
    pub fn best_match(&self, steps: &[char]) -> (r: Option<&T>)
        ensures
            match r {
                Some(v) => self.best_match_spec(steps@) == Some(*v),
                None => self.best_match_spec(steps@) is None,
            },
    {
        proof {
            assert(steps@.skip(0) =~= steps@);
        }
        self.best_match_at(steps, 0)
    }

    fn best_match_at(&self, steps: &[char], i: usize) -> (r: Option<&T>)
        requires
            i <= steps@.len(),
        ensures
            match r {
                Some(v) => self.best_match_spec(steps@.skip(i as int)) == Some(*v),
                None => self.best_match_spec(steps@.skip(i as int)) is None,
            },
        decreases steps@.len() - i,
    {
        if i == steps.len() {
            proof {
                assert(steps@.skip(i as int) =~= Seq::empty());
            }
            self.value.as_ref()
        } else {
            proof {
                assert(steps@.skip(i as int).len() > 0);
                assert(steps@.skip(i as int)[0] == steps@[i as int]);
                assert(steps@.skip(i as int).skip(1) =~= steps@.skip(i as int + 1));
            }
            match self.child(steps[i]) {
                None => self.value.as_ref(),
                Some(t) => t.best_match_at(steps, i + 1),
            }
        }
    }

    /// Borrow the child reached by step `c`, if one exists.
    pub fn child(&self, c: char) -> (r: Option<&Trie<T>>)
        ensures
            match r {
                Some(t) => self.child_spec(c) == Some(*t),
                None => self.child_spec(c) is None,
            },
    {
        match self.find_child_index(c) {
            Some(j) => {
                let p = &self.paths[j];
                proof {
                    Self::lemma_find_child_at(self.paths@, c, j as int);
                }
                Some(&p.1)
            },
            None => {
                proof {
                    Self::lemma_find_child_none(self.paths@, c);
                }
                None
            },
        }
    }

    /// The steps of the immediate children, in stored order.
    pub fn child_keys(&self) -> (r: Vec<char>)
        ensures
            r@ == self.child_steps(),
    {
        let mut r: Vec<char> = Vec::new();
        let mut l: usize = 0;
        while l < self.paths.len()
            invariant
                l <= self.paths@.len(),
                r@ =~= self.paths@.take(l as int).map_values(|p: (char, Trie<T>)| p.0),
            decreases self.paths@.len() - l,
        {
            let p = &self.paths[l];
            r.push(p.0);
            proof {
                assert(self.paths@.take(l as int + 1).drop_last() =~= self.paths@.take(l as int));
                assert(self.paths@.take(l as int + 1).last() == self.paths@[l as int]);
                assert(self.paths@.take(l as int + 1).map_values(|p: (char, Trie<T>)| p.0) =~= self
                    .paths@
                    .take(l as int)
                    .map_values(|p: (char, Trie<T>)| p.0)
                    .push(self.paths@[l as int].0));
            }
            l = l + 1;
        }
        proof {
            assert(self.paths@.take(self.paths@.len() as int) =~= self.paths@);
        }
        r
    }

    fn find_child_index(&self, c: char) -> (r: Option<usize>)
        ensures
            match r {
                Some(j) => j < self.paths@.len() && self.paths@[j as int].0 == c && (forall|
                    l: int,
                |
                    0 <= l < j ==> self.paths@[l].0 != c),
                None => forall|l: int| 0 <= l < self.paths@.len() ==> self.paths@[l].0 != c,
            },
    {
        let mut l: usize = 0;
        while l < self.paths.len()
            invariant
                l <= self.paths@.len(),
                forall|m: int| 0 <= m < l ==> self.paths@[m].0 != c,
            decreases self.paths@.len() - l,
        {
            let p = &self.paths[l];
            if p.0 == c {
                return Some(l);
            }
            l = l + 1;
        }
        None
    }

    /// Insert `val` at key `steps`, creating missing intermediate nodes and
    /// overwriting any value previously stored at that exact key. Inserting
    /// the empty key is defined as doing nothing.
    pub fn insert(&mut self, steps: &[char], val: T)
        ensures
            forall|k: Seq<char>|
                #[trigger] final(self).value_at(k) == (if steps@.len() > 0 && k == steps@ {
                    Some(val)
                } else {
                    old(self).value_at(k)
                }),
            forall|k: Seq<char>|
                #[trigger] final(self).has_path(k) <==> (old(self).has_path(k) || (steps@.len() > 0
                    && k.is_prefix_of(steps@))),
    {
        if steps.len() == 0 {
            return ;
        }
        proof {
            assert(steps@.skip(0) =~= steps@);
        }
        self.insert_at(steps, 0, val);
    }

    fn insert_at(&mut self, steps: &[char], i: usize, val: T)
        requires
            i < steps@.len(),
        ensures
            forall|k: Seq<char>|
                #[trigger] final(self).value_at(k) == (if k == steps@.skip(i as int) {
                    Some(val)
                } else {
                    old(self).value_at(k)
                }),
            forall|k: Seq<char>|
                #[trigger] final(self).has_path(k) <==> (old(self).has_path(k) || k.is_prefix_of(
                    steps@.skip(i as int),
                )),
        decreases steps@.len() - i,
    {
        let ghost tail = steps@.skip(i as int);
        let c = steps[i];
        proof {
            assert(tail.len() > 0);
            assert(tail[0] == c);
            assert(tail.skip(1) =~= steps@.skip(i as int + 1));
        }
        let ghost pre = *self;
        match self.find_child_index(c) {
            Some(j) => {
                let (cc, mut sub) = self.paths.remove(j);
                let ghost sub_pre = sub;
                proof {
                    Self::lemma_find_child_at(pre.paths@, c, j as int);
                }
                if i + 1 == steps.len() {
                    sub.value = Some(val);
                    proof {
                        Self::lemma_set_value(sub_pre, sub, val, tail.skip(1));
                    }
                } else {
                    sub.insert_at(steps, i + 1, val);
                }
                let ghost sub_post = sub;
                self.paths.insert(j, (cc, sub));
                proof {
                    assert(self.paths@ =~= pre.paths@.update(j as int, (c, sub_post)));
                    Self::lemma_lift_existing(pre, *self, sub_pre, sub_post, j as int, tail, val);
                }
            },
            None => {
                let mut sub = Self::root();
                let ghost sub_init = sub;
                if i + 1 == steps.len() {
                    sub.value = Some(val);
                    proof {
                        Self::lemma_set_value(sub_init, sub, val, tail.skip(1));
                    }
                } else {
                    sub.insert_at(steps, i + 1, val);
                }
                let ghost sub_post = sub;
                proof {
                    assert forall|k: Seq<char>| #[trigger] sub_post.value_at(k) == (if k
                        == tail.skip(1) {
                        Some(val)
                    } else {
                        None::<T>
                    }) by {
                        assert(sub_init.value_at(k) is None);
                    }
                    assert forall|k: Seq<char>| #[trigger] sub_post.has_path(k)
                        <==> k.is_prefix_of(tail.skip(1)) by {
                        assert(sub_init.has_path(k) <==> k.len() == 0);
                        if k.len() == 0 {
                            assert(k =~= Seq::<char>::empty());
                            assert(k.is_prefix_of(tail.skip(1)));
                        }
                    }
                }
                let pos = self.find_insert_pos(c);
                self.paths.insert(pos, (c, sub));
                proof {
                    Self::lemma_lift_new(pre, *self, sub_post, pos as int, tail, val);
                }
            },
        }
    }

    /// Inserting at one key twice leaves only the second value retrievable:
    /// the second insertion overwrites the first, and no other key changes.
    /// The hypotheses are exactly what two `insert` calls at `key` ensure.
    pub proof fn lemma_insert_overwrite(
        pre: Self,
        mid: Self,
        post: Self,
        key: Seq<char>,
        v1: T,
        v2: T,
    )
        requires
            key.len() > 0,
            forall|k: Seq<char>|
                #[trigger] mid.value_at(k) == (if k == key {
                    Some(v1)
                } else {
                    pre.value_at(k)
                }),
            forall|k: Seq<char>|
                #[trigger] post.value_at(k) == (if k == key {
                    Some(v2)
                } else {
                    mid.value_at(k)
                }),
        ensures
            post.value_at(key) == Some(v2),
            forall|k: Seq<char>| k != key ==> #[trigger] post.value_at(k) == pre.value_at(k),
    {
    }

    /// The greedy descent reaches exactly `walk(steps)`: the longest prefix
    /// of `steps` that exists as a path. `best_match` reads the value stored
    /// at that node — even when a shallower node along the way holds one.
    pub proof fn lemma_best_match_walk(self, steps: Seq<char>)
        ensures
            self.walk(steps).is_prefix_of(steps),
            self.has_path(self.walk(steps)),
            self.best_match_spec(steps) == self.value_at(self.walk(steps)),
            forall|p: Seq<char>|
                p.is_prefix_of(steps) && #[trigger] self.has_path(p) ==> p.len() <= self.walk(
                    steps,
                ).len(),
        decreases steps.len(),
    {
        let w = self.walk(steps);
        if steps.len() == 0 {
            assert(w =~= steps.subrange(0, 0));
            assert(w.is_prefix_of(steps));
        } else {
            match self.child_spec(steps[0]) {
                None => {
                    assert(w =~= steps.subrange(0, 0));
                    assert(w.is_prefix_of(steps));
                    assert forall|p: Seq<char>|
                        p.is_prefix_of(steps) && #[trigger] self.has_path(p) implies p.len()
                        <= w.len() by {
                        if p.len() > 0 {
                            lemma_seq_prefix_step(p, steps);
                            assert(p[0] == steps[0]);
                            assert(!self.has_path(p));
                        }
                    }
                },
                Some(t) => {
                    t.lemma_best_match_walk(steps.skip(1));
                    let wt = t.walk(steps.skip(1));
                    assert(w == seq![steps[0]] + wt);
                    assert(w.len() == 1 + wt.len());
                    assert(w[0] == steps[0]);
                    assert(w.skip(1) =~= wt);
                    lemma_seq_prefix_step(w, steps);
                    assert(self.has_path(w) <==> t.has_path(w.skip(1)));
                    assert(self.best_match_spec(steps) == t.best_match_spec(steps.skip(1)));
                    assert(self.value_at(w) == t.value_at(w.skip(1)));
                    assert forall|p: Seq<char>|
                        p.is_prefix_of(steps) && #[trigger] self.has_path(p) implies p.len()
                        <= w.len() by {
                        if p.len() > 0 {
                            lemma_seq_prefix_step(p, steps);
                            assert(p[0] == steps[0]);
                            assert(self.has_path(p) <==> t.has_path(p.skip(1)));
                            assert(p.skip(1).len() <= wt.len());
                        }
                    }
                },
            }
        }
    }

    /// Setting the value of a node changes `value_at` at the empty key only
    /// and leaves the path structure untouched.
    proof fn lemma_set_value(pre: Self, post: Self, val: T, tail2: Seq<char>)
        requires
            tail2.len() == 0,
            post.value == Some(val),
            post.paths == pre.paths,
        ensures
            forall|k: Seq<char>|
                #[trigger] post.value_at(k) == (if k == tail2 {
                    Some(val)
                } else {
                    pre.value_at(k)
                }),
            forall|k: Seq<char>|
                #[trigger] post.has_path(k) <==> (pre.has_path(k) || k.is_prefix_of(tail2)),
    {
        assert(tail2 =~= Seq::<char>::empty());
        assert forall|k: Seq<char>| #[trigger] post.value_at(k) == (if k == tail2 {
            Some(val)
        } else {
            pre.value_at(k)
        }) by {
            if k.len() == 0 {
                assert(k =~= tail2);
            } else {
                assert(post.child_spec(k[0]) == pre.child_spec(k[0]));
                assert(k != tail2);
            }
        }
        assert forall|k: Seq<char>| #[trigger] post.has_path(k) <==> (pre.has_path(k)
            || k.is_prefix_of(tail2)) by {
            if k.len() == 0 {
                assert(k =~= Seq::<char>::empty());
                assert(k.is_prefix_of(tail2));
            } else {
                assert(post.child_spec(k[0]) == pre.child_spec(k[0]));
                assert(!k.is_prefix_of(tail2));
            }
        }
    }

    proof fn lemma_lift_existing(
        pre: Self,
        post: Self,
        sub_pre: Self,
        sub_post: Self,
        j: int,
        tail: Seq<char>,
        val: T,
    )
        requires
            tail.len() > 0,
            post.value == pre.value,
            0 <= j < pre.paths@.len(),
            pre.paths@[j].0 == tail[0],
            pre.paths@[j].1 == sub_pre,
            forall|l: int| 0 <= l < j ==> pre.paths@[l].0 != tail[0],
            post.paths@ == pre.paths@.update(j, (tail[0], sub_post)),
            forall|k: Seq<char>|
                #[trigger] sub_post.value_at(k) == (if k == tail.skip(1) {
                    Some(val)
                } else {
                    sub_pre.value_at(k)
                }),
            forall|k: Seq<char>|
                #[trigger] sub_post.has_path(k) <==> (sub_pre.has_path(k) || k.is_prefix_of(
                    tail.skip(1),
                )),
        ensures
            forall|k: Seq<char>|
                #[trigger] post.value_at(k) == (if k == tail {
                    Some(val)
                } else {
                    pre.value_at(k)
                }),
            forall|k: Seq<char>|
                #[trigger] post.has_path(k) <==> (pre.has_path(k) || k.is_prefix_of(tail)),
    {
        Self::lemma_find_child_at(pre.paths@, tail[0], j);
        assert(pre.child_spec(tail[0]) == Some(sub_pre));
        assert forall|k: Seq<char>| #[trigger] post.value_at(k) == (if k == tail {
            Some(val)
        } else {
            pre.value_at(k)
        }) by {
            if k.len() == 0 {
                assert(k != tail);
            } else {
                Self::lemma_find_child_update(pre.paths@, j, tail[0], sub_post, k[0]);
                lemma_seq_head_tail_eq(k, tail);
                if k[0] == tail[0] {
                    assert(post.child_spec(k[0]) == Some(sub_post));
                    assert(sub_post.value_at(k.skip(1)) == (if k.skip(1) == tail.skip(1) {
                        Some(val)
                    } else {
                        sub_pre.value_at(k.skip(1))
                    }));
                } else {
                    assert(post.child_spec(k[0]) == pre.child_spec(k[0]));
                    assert(k != tail);
                }
            }
        }
        assert forall|k: Seq<char>| #[trigger] post.has_path(k) <==> (pre.has_path(k)
            || k.is_prefix_of(tail)) by {
            if k.len() == 0 {
                assert(k =~= Seq::<char>::empty());
                assert(k.is_prefix_of(tail));
                assert(post.has_path(k));
                assert(pre.has_path(k));
            } else {
                Self::lemma_find_child_update(pre.paths@, j, tail[0], sub_post, k[0]);
                lemma_seq_prefix_step(k, tail);
                if k[0] == tail[0] {
                    assert(post.child_spec(k[0]) == Some(sub_post));
                    assert(post.has_path(k) <==> sub_post.has_path(k.skip(1)));
                    assert(pre.has_path(k) <==> sub_pre.has_path(k.skip(1)));
                    assert(sub_post.has_path(k.skip(1)) <==> (sub_pre.has_path(k.skip(1))
                        || k.skip(1).is_prefix_of(tail.skip(1))));
                } else {
                    assert(post.child_spec(k[0]) == pre.child_spec(k[0]));
                    assert(post.has_path(k) <==> pre.has_path(k));
                    assert(!k.is_prefix_of(tail));
                }
            }
        }
    }

    proof fn lemma_lift_new(
        pre: Self,
        post: Self,
        sub_post: Self,
        pos: int,
        tail: Seq<char>,
        val: T,
    )
        requires
            tail.len() > 0,
            post.value == pre.value,
            0 <= pos <= pre.paths@.len(),
            forall|l: int| 0 <= l < pre.paths@.len() ==> pre.paths@[l].0 != tail[0],
            post.paths@ == pre.paths@.insert(pos, (tail[0], sub_post)),
            forall|k: Seq<char>|
                #[trigger] sub_post.value_at(k) == (if k == tail.skip(1) {
                    Some(val)
                } else {
                    None::<T>
                }),
            forall|k: Seq<char>| #[trigger] sub_post.has_path(k) <==> k.is_prefix_of(tail.skip(1)),
        ensures
            forall|k: Seq<char>|
                #[trigger] post.value_at(k) == (if k == tail {
                    Some(val)
                } else {
                    pre.value_at(k)
                }),
            forall|k: Seq<char>|
                #[trigger] post.has_path(k) <==> (pre.has_path(k) || k.is_prefix_of(tail)),
    {
        Self::lemma_find_child_none(pre.paths@, tail[0]);
        assert(pre.child_spec(tail[0]) is None);
        assert forall|k: Seq<char>| #[trigger] post.value_at(k) == (if k == tail {
            Some(val)
        } else {
            pre.value_at(k)
        }) by {
            if k.len() == 0 {
                assert(k != tail);
                assert(post.value_at(k) == post.value);
                assert(pre.value_at(k) == pre.value);
            } else {
                Self::lemma_find_child_insert(pre.paths@, pos, tail[0], sub_post, k[0]);
                lemma_seq_head_tail_eq(k, tail);
                if k[0] == tail[0] {
                    assert(post.child_spec(k[0]) == Some(sub_post));
                    assert(post.value_at(k) == sub_post.value_at(k.skip(1)));
                    assert(sub_post.value_at(k.skip(1)) == (if k.skip(1) == tail.skip(1) {
                        Some(val)
                    } else {
                        None::<T>
                    }));
                    assert(pre.value_at(k) is None);
                } else {
                    assert(post.child_spec(k[0]) == pre.child_spec(k[0]));
                    assert(post.value_at(k) == pre.value_at(k));
                    assert(k != tail);
                }
            }
        }
        assert forall|k: Seq<char>| #[trigger] post.has_path(k) <==> (pre.has_path(k)
            || k.is_prefix_of(tail)) by {
            if k.len() == 0 {
                assert(k =~= Seq::<char>::empty());
                assert(k.is_prefix_of(tail));
                assert(post.has_path(k));
                assert(pre.has_path(k));
            } else {
                Self::lemma_find_child_insert(pre.paths@, pos, tail[0], sub_post, k[0]);
                lemma_seq_prefix_step(k, tail);
                if k[0] == tail[0] {
                    assert(post.child_spec(k[0]) == Some(sub_post));
                    assert(post.has_path(k) <==> sub_post.has_path(k.skip(1)));
                    assert(sub_post.has_path(k.skip(1)) <==> k.skip(1).is_prefix_of(
                        tail.skip(1),
                    ));
                    assert(!pre.has_path(k));
                } else {
                    assert(post.child_spec(k[0]) == pre.child_spec(k[0]));
                    assert(post.has_path(k) <==> pre.has_path(k));
                    assert(!k.is_prefix_of(tail));
                }
            }
        }
    }

    fn find_insert_pos(&self, c: char) -> (pos: usize)
        ensures
            pos <= self.paths@.len(),
    {
        let mut l: usize = 0;
        while l < self.paths.len()
            invariant
                l <= self.paths@.len(),
            decreases self.paths@.len() - l,
        {
            let p = &self.paths[l];
            if (p.0 as u32) > (c as u32) {
                return l;
            }
            l = l + 1;
        }
        l
    }

    proof fn lemma_find_child_update(
        s: Seq<(char, Trie<T>)>,
        j: int,
        c: char,
        t2: Trie<T>,
        d: char,
    )
        requires
            0 <= j < s.len(),
            s[j].0 == c,
            forall|l: int| 0 <= l < j ==> s[l].0 != c,
        ensures
            Self::find_child(s.update(j, (c, t2)), d) == (if d == c {
                Some(t2)
            } else {
                Self::find_child(s, d)
            }),
        decreases j,
    {
        let s2 = s.update(j, (c, t2));
        if j == 0 {
            if d == c {
                assert(s2[0].0 == c);
            } else {
                assert(s2[0] == (c, t2));
                assert(s2.skip(1) =~= s.skip(1));
            }
        } else {
            assert(s2[0] == s[0]);
            assert(s2.skip(1) =~= s.skip(1).update(j - 1, (c, t2)));
            assert(s.skip(1)[j - 1] == s[j]);
            assert forall|l: int| 0 <= l < j - 1 implies s.skip(1)[l].0 != c by {
                assert(s.skip(1)[l] == s[l + 1]);
            }
            Self::lemma_find_child_update(s.skip(1), j - 1, c, t2, d);
        }
    }

    proof fn lemma_find_child_insert(
        s: Seq<(char, Trie<T>)>,
        pos: int,
        c: char,
        t2: Trie<T>,
        d: char,
    )
        requires
            0 <= pos <= s.len(),
            forall|l: int| 0 <= l < s.len() ==> s[l].0 != c,
        ensures
            Self::find_child(s.insert(pos, (c, t2)), d) == (if d == c {
                Some(t2)
            } else {
                Self::find_child(s, d)
            }),
        decreases pos,
    {
        let s2 = s.insert(pos, (c, t2));
        if pos == 0 {
            assert(s2[0] == (c, t2));
            if d != c {
                assert(s2.skip(1) =~= s);
            }
        } else {
            assert(s2[0] == s[0]);
            assert(s2.skip(1) =~= s.skip(1).insert(pos - 1, (c, t2)));
            assert forall|l: int| 0 <= l < s.skip(1).len() implies s.skip(1)[l].0 != c by {
                assert(s.skip(1)[l] == s[l + 1]);
            }
            Self::lemma_find_child_insert(s.skip(1), pos - 1, c, t2, d);
        }
    }

    proof fn lemma_find_child_at(s: Seq<(char, Trie<T>)>, c: char, j: int)
        requires
            0 <= j < s.len(),
            s[j].0 == c,
            forall|l: int| 0 <= l < j ==> s[l].0 != c,
        ensures
            Self::find_child(s, c) == Some(s[j].1),
        decreases j,
    {
        if j > 0 {
            assert(s[0].0 != c);
            assert(s.skip(1)[j - 1] == s[j]);
            assert forall|l: int| 0 <= l < j - 1 implies s.skip(1)[l].0 != c by {
                assert(s.skip(1)[l] == s[l + 1]);
            }
            Self::lemma_find_child_at(s.skip(1), c, j - 1);
        }
    }

    proof fn lemma_find_child_none(s: Seq<(char, Trie<T>)>, c: char)
        requires
            forall|l: int| 0 <= l < s.len() ==> s[l].0 != c,
        ensures
            Self::find_child(s, c) is None,
        decreases s.len(),
    {
        if s.len() > 0 {
            assert forall|l: int| 0 <= l < s.skip(1).len() implies s.skip(1)[l].0 != c by {
                assert(s.skip(1)[l] == s[l + 1]);
            }
            Self::lemma_find_child_none(s.skip(1), c);
        }
    }
}

impl<T> Default for Trie<T> {
    /// An empty trie, as `root` returns it.
    fn default() -> (r: Self)
        ensures
            forall|k: Seq<char>| #[trigger] r.value_at(k) is None,
            forall|k: Seq<char>| #[trigger] r.has_path(k) <==> k.len() == 0,
    {
        Self::root()
    }
}

/// Two non-empty sequences are equal exactly when their heads and tails are.
pub proof fn lemma_seq_head_tail_eq(k: Seq<char>, t: Seq<char>)
    requires
        k.len() > 0,
        t.len() > 0,
    ensures
        (k == t) <==> (k[0] == t[0] && k.skip(1) == t.skip(1)),
{
    if k[0] == t[0] && k.skip(1) == t.skip(1) {
        assert(k =~= t) by {
            assert(k.skip(1).len() == t.skip(1).len());
            assert forall|x: int| 0 <= x < k.len() implies k[x] == t[x] by {
                if x > 0 {
                    assert(k.skip(1)[x - 1] == k[x]);
                    assert(t.skip(1)[x - 1] == t[x]);
                }
            }
        }
    }
    if k == t {
        assert(k.skip(1) =~= t.skip(1));
    }
}

/// A non-empty sequence is a prefix of a non-empty sequence exactly when the
/// heads agree and the tail is a prefix of the tail.
pub proof fn lemma_seq_prefix_step(k: Seq<char>, t: Seq<char>)
    requires
        k.len() > 0,
        t.len() > 0,
    ensures
        k.is_prefix_of(t) <==> (k[0] == t[0] && k.skip(1).is_prefix_of(t.skip(1))),
{
    if k.is_prefix_of(t) {
        assert(k =~= t.subrange(0, k.len() as int));
        assert(k[0] == t[0]);
        assert(k.skip(1) =~= t.skip(1).subrange(0, k.skip(1).len() as int)) by {
            assert forall|x: int| 0 <= x < k.skip(1).len() implies k.skip(1)[x] == t.skip(1)[x] by {
                assert(k.skip(1)[x] == k[x + 1]);
                assert(t.skip(1)[x] == t[x + 1]);
            }
        }
    }
    if k[0] == t[0] && k.skip(1).is_prefix_of(t.skip(1)) {
        assert(k.skip(1) =~= t.skip(1).subrange(0, k.skip(1).len() as int));
        assert(k =~= t.subrange(0, k.len() as int)) by {
            assert forall|x: int| 0 <= x < k.len() implies k[x] == t.subrange(
                0,
                k.len() as int,
            )[x] by {
                if x > 0 {
                    assert(k.skip(1)[x - 1] == k[x]);
                    assert(t.skip(1)[x - 1] == t[x]);
                }
            }
        }
    }
}

} // verus!
