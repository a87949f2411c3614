use vstd::prelude::*;
use vstd::string::StrSliceExecFns;
use vstd::string::StringSliceAdditionalSpecFns;

verus! {

/// Trie or prefix tree: a tree of byte edges whose marked nodes spell the
/// stored words.
pub struct Trie {
    children: std::collections::BTreeMap<u8, Trie>,
    leaf: bool,
}

/// The word `w` is stored in the trie: its byte path exists and ends at a
/// marked node.
pub closed spec fn has_word(t: Trie, w: Seq<u8>) -> bool
    decreases t, w.len(),
{
    if w.len() == 0 {
        t.leaf
    } else if t.children@.contains_key(w[0]) {
        has_word(t.children@[w[0]], w.drop_first())
    } else {
        false
    }
}

impl Trie {
    pub fn new() -> (r: Self)
        ensures
            forall|w: Seq<u8>| !has_word(r, w),
    {
        Trie { children: std::collections::BTreeMap::new(), leaf: false }
    }

    /// Stores the word.
    pub fn insert(&mut self, s: &str)
        ensures
            forall|w: Seq<u8>|
                has_word(*final(self), w) <==> has_word(*old(self), w) || w == s.spec_bytes(),
    {
        broadcast use vstd::laws_cmp::group_laws_cmp;

        let bytes = s.as_bytes_vec();
        self.insert_at(&bytes, 0);
        proof {
            assert(bytes@.subrange(0, bytes@.len() as int) =~= s.spec_bytes());
        }
    }

    fn insert_at(&mut self, bytes: &Vec<u8>, i: usize)
        requires
            i <= bytes@.len(),
        ensures
            forall|w: Seq<u8>|
                has_word(*final(self), w) <==> has_word(*old(self), w) || w == bytes@.subrange(
                    i as int,
                    bytes@.len() as int,
                ),
        decreases bytes@.len() - i,
    {
        broadcast use vstd::laws_cmp::group_laws_cmp;

        let n = bytes.len();
        if i == n {
            self.leaf = true;
            proof {
                let suffix = bytes@.subrange(i as int, n as int);
                assert(suffix.len() == 0);
                assert forall|w: Seq<u8>|
                    has_word(*self, w) <==> has_word(*old(self), w) || w == suffix by {
                    if w.len() == 0 {
                        assert(w =~= suffix);
                    }
                }
            }
        } else {
            let ch = bytes[i];
            let present = self.children.contains_key(&ch);
            if !present {
                let fresh = Trie::new();
                self.children.insert(ch, fresh);
                proof {
                    assert forall|w: Seq<u8>|
                        has_word(*self, w) <==> has_word(*old(self), w) by {
                        if w.len() != 0 && w[0] == ch {
                            assert(!has_word(*old(self), w));
                            assert(!has_word(self.children@[ch], w.drop_first()));
                        } else if w.len() != 0 {
                            if self.children@.contains_key(w[0]) {
                                assert(self.children@[w[0]] == old(self).children@[w[0]]);
                            }
                        }
                    }
                }
            }
            let ghost mid = *self;
            proof {
                assert(forall|w: Seq<u8>| has_word(mid, w) <==> has_word(*old(self), w));
            }
            let mut child = self.children.remove(&ch).unwrap();
            child.insert_at(bytes, i + 1);
            self.children.insert(ch, child);
            proof {
                let suffix = bytes@.subrange(i as int, n as int);
                let subsuffix = bytes@.subrange(i + 1 as int, n as int);
                assert(suffix.len() >= 1 && suffix[0] == ch);
                assert(suffix.drop_first() =~= subsuffix);
                assert forall|w: Seq<u8>|
                    has_word(*self, w) <==> has_word(mid, w) || w == suffix by {
                    if w.len() == 0 {
                        assert(has_word(*self, w) == self.leaf);
                        assert(w != suffix);
                    } else if w[0] == ch {
                        assert(self.children@[ch] == child);
                        assert(has_word(*self, w) == has_word(child, w.drop_first()));
                        assert(has_word(mid, w) == has_word(mid.children@[ch], w.drop_first()));
                        if w.drop_first() == subsuffix {
                            assert forall|t: int| 0 <= t < w.len() implies w[t] == suffix[t] by {
                                if t == 0 {
                                } else {
                                    assert(w[t] == w.drop_first()[t - 1]);
                                    assert(suffix[t] == suffix.drop_first()[t - 1]);
                                }
                            }
                            assert(w =~= suffix);
                        }
                        if w == suffix {
                            assert(w.drop_first() =~= subsuffix);
                        }
                    } else {
                        assert(w != suffix);
                        if self.children@.contains_key(w[0]) {
                            assert(self.children@[w[0]] == mid.children@[w[0]]);
                        }
                    }
                }
                assert forall|w: Seq<u8>|
                    has_word(*self, w) <==> has_word(*old(self), w) || w == suffix by {
                    assert(has_word(*self, w) <==> has_word(mid, w) || w == suffix);
                    assert(has_word(mid, w) <==> has_word(*old(self), w));
                }
            }
        }
    }

    /// Whether the word is stored.
    pub fn contains(&self, p: &str) -> (r: bool)
        ensures
            r == has_word(*self, p.spec_bytes()),
    {
        broadcast use vstd::laws_cmp::group_laws_cmp;

        let bytes = p.as_bytes_vec();
        let r = self.contains_at(&bytes, 0);
        proof {
            assert(bytes@.subrange(0, bytes@.len() as int) =~= p.spec_bytes());
        }
        r
    }

    fn contains_at(&self, bytes: &Vec<u8>, i: usize) -> (r: bool)
        requires
            i <= bytes@.len(),
        ensures
            r == has_word(*self, bytes@.subrange(i as int, bytes@.len() as int)),
        decreases bytes@.len() - i,
    {
        broadcast use vstd::laws_cmp::group_laws_cmp;

        let n = bytes.len();
        let ghost suffix = bytes@.subrange(i as int, n as int);
        if i == n {
            proof {
                assert(suffix.len() == 0);
            }
            self.leaf
        } else {
            let ch = bytes[i];
            proof {
                assert(suffix.len() >= 1 && suffix[0] == ch);
                assert(suffix.drop_first() =~= bytes@.subrange(i + 1 as int, n as int));
            }
            if let Some(child) = self.children.get(&ch) {
                proof {
                    assert(self.children@.contains_key(ch));
                }
                child.contains_at(bytes, i + 1)
            } else {
                proof {
                    assert(!self.children@.contains_key(ch));
                }
                false
            }
        }
    }

    /// Removes the word, if stored; every other word stays.
    pub fn remove(&mut self, p: &str)
        ensures
            forall|w: Seq<u8>|
                has_word(*final(self), w) <==> has_word(*old(self), w) && w != p.spec_bytes(),
    {
        broadcast use vstd::laws_cmp::group_laws_cmp;

        let bytes = p.as_bytes_vec();
        if self.contains(p) {
            proof {
                assert(bytes@.subrange(0, bytes@.len() as int) =~= p.spec_bytes());
            }
            self.remove_at(&bytes, 0);
        } else {
            proof {
                assert forall|w: Seq<u8>|
                    has_word(*self, w) <==> has_word(*old(self), w) && w != p.spec_bytes() by {
                    if w == p.spec_bytes() {
                        assert(!has_word(*self, w));
                    }
                }
            }
        }
    }

    fn remove_at(&mut self, bytes: &Vec<u8>, i: usize)
        requires
            i <= bytes@.len(),
            has_word(*old(self), old(self).spec_suffix(bytes@, i as int)),
        ensures
            forall|w: Seq<u8>|
                has_word(*final(self), w) <==> has_word(*old(self), w) && w != bytes@.subrange(
                    i as int,
                    bytes@.len() as int,
                ),
        decreases bytes@.len() - i,
    {
        broadcast use vstd::laws_cmp::group_laws_cmp;

        let n = bytes.len();
        let ghost suffix = bytes@.subrange(i as int, n as int);
        if i == n {
            self.leaf = false;
            proof {
                assert(suffix.len() == 0);
                assert forall|w: Seq<u8>|
                    has_word(*self, w) <==> has_word(*old(self), w) && w != suffix by {
                    if w.len() == 0 {
                        assert(w =~= suffix);
                    }
                }
            }
        } else {
            let ch = bytes[i];
            proof {
                assert(suffix.len() >= 1 && suffix[0] == ch);
                assert(suffix.drop_first() =~= bytes@.subrange(i + 1 as int, n as int));
                assert(self.children@.contains_key(ch));
            }
            let child_empty = self.children.get(&ch).unwrap().children.is_empty();
            if child_empty {
                proof {
                    let child = self.children@[ch];
                    assert(has_word(child, suffix.drop_first()));
                    assert(suffix.drop_first().len() == 0) by {
                        if suffix.drop_first().len() > 0 {
                            assert(!child.children@.contains_key(suffix.drop_first()[0]));
                        }
                    }
                }
                self.children.remove(&ch);
                proof {
                    assert(suffix.len() == 1);
                    assert forall|w: Seq<u8>|
                        has_word(*self, w) <==> has_word(*old(self), w) && w != suffix by {
                        if w.len() != 0 && w[0] == ch {
                            assert(!self.children@.contains_key(ch));
                            assert(!has_word(*self, w));
                            if has_word(*old(self), w) {
                                let child = old(self).children@[ch];
                                assert(has_word(child, w.drop_first()));
                                if w.drop_first().len() > 0 {
                                    assert(!child.children@.contains_key(w.drop_first()[0]));
                                }
                                assert(w.drop_first().len() == 0);
                                assert(w =~= suffix);
                            }
                        } else if w.len() != 0 {
                            if old(self).children@.contains_key(w[0]) {
                                assert(self.children@[w[0]] == old(self).children@[w[0]]);
                            }
                            assert(w != suffix);
                        } else {
                            assert(w != suffix);
                        }
                    }
                }
            } else {
                let ghost mid = *self;
                let mut child = self.children.remove(&ch).unwrap();
                proof {
                    assert(child == mid.children@[ch]);
                    assert(has_word(child, child.spec_suffix(bytes@, i + 1 as int)));
                }
                child.remove_at(bytes, i + 1);
                self.children.insert(ch, child);
                proof {
                    let subsuffix = bytes@.subrange(i + 1 as int, n as int);
                    assert forall|w: Seq<u8>|
                        has_word(*self, w) <==> has_word(mid, w) && w != suffix by {
                        if w.len() == 0 {
                            assert(w != suffix);
                        } else if w[0] == ch {
                            assert(self.children@[ch] == child);
                            assert(has_word(*self, w) == has_word(child, w.drop_first()));
                            assert(has_word(mid, w) == has_word(mid.children@[ch], w.drop_first()));
                            if w.drop_first() == subsuffix {
                                assert forall|t: int|
                                    0 <= t < w.len() implies w[t] == suffix[t] by {
                                    if t != 0 {
                                        assert(w[t] == w.drop_first()[t - 1]);
                                        assert(suffix[t] == suffix.drop_first()[t - 1]);
                                    }
                                }
                                assert(w =~= suffix);
                            }
                            if w == suffix {
                                assert(w.drop_first() =~= subsuffix);
                            }
                        } else {
                            assert(w != suffix);
                            if self.children@.contains_key(w[0]) {
                                assert(self.children@[w[0]] == mid.children@[w[0]]);
                            }
                        }
                    }
                }
            }
        }
    }

    /// The stored suffix of the byte array from `i` on (a helper to phrase
    /// the recursive contracts).
    pub open spec fn spec_suffix(self, bytes: Seq<u8>, i: int) -> Seq<u8> {
        bytes.subrange(i, bytes.len() as int)
    }
}

} // verus!
