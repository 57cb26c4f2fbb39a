//! The mapping from key to collection, ordered by key, and the engine that
//! fills it from a sequence of lines.
use vstd::prelude::*;
use crate::collection::{lemma_insert_sorted, lemma_sorted_distinct, sorted_position, strictly_sorted, views, Collection};
use crate::pattern::{line_key, GroupId, Pattern, RegexMatcher};
use crate::text::{lemma_less_asymmetric, lemma_less_irreflexive, lemma_less_total, seq_less};

verus! {

/// A position at which `k` stands in `keys`, where it does.
pub open spec fn index_of_key(keys: Seq<Seq<char>>, k: Seq<char>) -> int {
    choose|j: int| 0 <= j < keys.len() && keys[j] == k
}

/// Keys in ascending order, each with the non-empty collection of its lines.
pub struct Grouping {
    pub unique: bool,
    pub keys: Vec<String>,
    pub groups: Vec<Collection>,
}

impl Grouping {
    pub open spec fn key_seq(&self) -> Seq<Seq<char>> {
        views(self.keys@)
    }

    pub open spec fn wf(&self) -> bool {
        &&& self.keys@.len() == self.groups@.len()
        &&& strictly_sorted(self.key_seq())
        &&& forall|j: int|
            0 <= j < self.groups@.len() ==> {
                &&& (#[trigger] self.groups@[j]).wf()
                &&& self.groups@[j].unique == self.unique
                &&& self.groups@[j]@.len() > 0
            }
    }

    /// The lines held under key `k`; empty where `k` is not a key.
    pub open spec fn members(&self, k: Seq<char>) -> Seq<Seq<char>> {
        if self.key_seq().contains(k) {
            self.groups@[index_of_key(self.key_seq(), k)]@
        } else {
            Seq::empty()
        }
    }

    pub proof fn lemma_members_at(&self, j: int)
        requires
            self.wf(),
            0 <= j < self.keys@.len(),
        ensures
            self.members(self.key_seq()[j]) == self.groups@[j]@,
    {
        let k = self.key_seq()[j];
        assert(self.key_seq().contains(k));
        let i = index_of_key(self.key_seq(), k);
        if i != j {
            lemma_sorted_distinct(self.key_seq(), i, j);
        }
        assert(self.members(k) == self.groups@[i]@);
    }

    /// An empty grouping whose collections are of the given kind.
    pub fn new(unique: bool) -> (r: Grouping)
        ensures
            r.wf(),
            r.unique == unique,
            r.key_seq() == Seq::<Seq<char>>::empty(),
    {
        let r = Grouping { unique, keys: Vec::new(), groups: Vec::new() };
        assert(r.key_seq() =~= Seq::<Seq<char>>::empty());
        r
    }

    /// The number of keys.
    pub fn len(&self) -> (r: usize)
        ensures
            r == self.key_seq().len(),
    {
        self.keys.len()
    }

    /// Adds `line` to the collection of `key`, creating it where `key` is new.
    pub fn add(&mut self, key: String, line: String)
        requires
            old(self).wf(),
        ensures
            final(self).wf(),
            final(self).unique == old(self).unique,
            final(self).key_seq().to_set() == old(self).key_seq().to_set().insert(key@),
            forall|k: Seq<char>| k != key@ ==> final(self).members(k) == old(self).members(k),
            !old(self).unique ==> final(self).members(key@) == old(self).members(key@).push(line@),
            old(self).unique ==> final(self).members(key@).to_set() == old(self).members(
                key@,
            ).to_set().insert(line@),
            old(self).unique && old(self).members(key@).contains(line@) ==> final(self).members(key@)
                == old(self).members(key@),
    {
        let ghost old_keys = self.key_seq();
        let i = sorted_position(&self.keys, &key);
        if i < self.keys.len() && self.keys[i] == key {
            proof {
                self.lemma_members_at(i as int);
            }
            let mut c = self.groups.remove(i);
            c.add(line);
            self.groups.insert(i, c);
            proof {
                assert(self.groups@ =~= old(self).groups@.update(i as int, c));
                assert(self.key_seq() == old_keys);
                if self.unique {
                    assert(c@.to_set().contains(line@));
                    assert(c@.contains(line@));
                }
                assert forall|j: int| 0 <= j < self.groups@.len() implies {
                    &&& (#[trigger] self.groups@[j]).wf()
                    &&& self.groups@[j].unique == self.unique
                    &&& self.groups@[j]@.len() > 0
                } by {
                    if j != i {
                        assert(self.groups@[j] == old(self).groups@[j]);
                    }
                }
                self.lemma_members_at(i as int);
                assert forall|k: Seq<char>| k != key@ implies self.members(k) == old(self).members(k) by {
                    if old_keys.contains(k) {
                        let j = choose|j: int| 0 <= j < old_keys.len() && old_keys[j] == k;
                        self.lemma_members_at(j);
                        old(self).lemma_members_at(j);
                    }
                }
            }
        } else {
            proof {
                if old_keys.contains(key@) {
                    let k = choose|k: int| 0 <= k < old_keys.len() && old_keys[k] == key@;
                    lemma_less_irreflexive(key@);
                    if k > i {
                        lemma_less_total(old_keys[i as int], key@);
                        assert(seq_less(old_keys[i as int], old_keys[k]));
                        lemma_less_asymmetric(key@, old_keys[i as int]);
                    }
                }
            }
            let mut c = Collection::new(self.unique);
            c.add(line);
            self.keys.insert(i, key);
            self.groups.insert(i, c);
            proof {
                assert(self.key_seq() =~= old_keys.insert(i as int, key@));
                lemma_insert_sorted(old_keys, key@, i as int);
                assert(Seq::<Seq<char>>::empty().to_set() =~= Set::<Seq<char>>::empty());
                if self.unique {
                    assert(c@.to_set().contains(line@));
                    assert(c@.contains(line@));
                } else {
                    assert(c@.len() == 1);
                }
                self.lemma_members_at(i as int);
                assert forall|j: int| 0 <= j < self.groups@.len() implies {
                    &&& (#[trigger] self.groups@[j]).wf()
                    &&& self.groups@[j].unique == self.unique
                    &&& self.groups@[j]@.len() > 0
                } by {
                    if j < i {
                        assert(self.groups@[j] == old(self).groups@[j]);
                    } else if j > i {
                        assert(self.groups@[j] == old(self).groups@[j - 1]);
                    }
                }
                assert forall|k: Seq<char>| k != key@ implies self.members(k) == old(self).members(k) by {
                    if old_keys.contains(k) {
                        let j = choose|j: int| 0 <= j < old_keys.len() && old_keys[j] == k;
                        old(self).lemma_members_at(j);
                        if j < i {
                            self.lemma_members_at(j);
                        } else {
                            self.lemma_members_at(j + 1);
                        }
                    } else {
                        assert(!self.key_seq().contains(k)) by {
                            if self.key_seq().contains(k) {
                                let j = choose|j: int| 0 <= j < self.key_seq().len() && self.key_seq()[j] == k;
                                if j < i {
                                    assert(old_keys[j] == k);
                                } else if j > i {
                                    assert(old_keys[j - 1] == k);
                                }
                            }
                        }
                    }
                }
                assert(self.key_seq().to_set() =~= old_keys.to_set().insert(key@)) by {
                    assert forall|x: Seq<char>| old_keys.to_set().insert(key@).contains(x) implies self.key_seq().to_set().contains(x) by {
                        if x != key@ {
                            assert(old_keys.contains(x));
                            let k = choose|k: int| 0 <= k < old_keys.len() && old_keys[k] == x;
                            if k < i {
                                assert(self.key_seq()[k] == x);
                            } else {
                                assert(self.key_seq()[k + 1] == x);
                            }
                        } else {
                            assert(self.key_seq()[i as int] == x);
                        }
                    }
                    assert forall|x: Seq<char>| self.key_seq().to_set().contains(x) implies old_keys.to_set().insert(key@).contains(x) by {
                        if x != key@ {
                            assert(self.key_seq().contains(x));
                            let k = choose|k: int| 0 <= k < self.key_seq().len() && self.key_seq()[k] == x;
                            if k < i {
                                assert(old_keys[k] == x);
                            } else {
                                assert(old_keys[k - 1] == x);
                            }
                        }
                    }
                }
            }
        }
    }
}


/// The lines whose key is `k`, in order of arrival; `keys[i]` is the key of `lines[i]`.
pub open spec fn lines_with_key(keys: Seq<Seq<char>>, lines: Seq<Seq<char>>, k: Seq<char>) -> Seq<
    Seq<char>,
>
    decreases lines.len(),
{
    if lines.len() == 0 {
        Seq::empty()
    } else {
        let rest = lines_with_key(keys, lines.drop_last(), k);
        if keys[lines.len() - 1] == k {
            rest.push(lines.last())
        } else {
            rest
        }
    }
}

/// What grouping `lines` under `keys` gives: every key once, in ascending order,
/// and under each key the lines that have it, in order of arrival, or, with
/// `unique`, each of them once in ascending order.
pub open spec fn groups_lines(
    g: Grouping,
    keys: Seq<Seq<char>>,
    lines: Seq<Seq<char>>,
    unique: bool,
) -> bool {
    &&& g.wf()
    &&& g.unique == unique
    &&& g.key_seq().to_set() == keys.take(lines.len() as int).to_set()
    &&& !unique ==> forall|k: Seq<char>| #[trigger] g.members(k) == lines_with_key(keys, lines, k)
    &&& unique ==> forall|k: Seq<char>|
        #[trigger] g.members(k).to_set() == lines_with_key(keys, lines, k).to_set()
}

/// Groups `lines[i]` under `keys[i]`, for each `i`.
pub fn group_lines(keys: &Vec<String>, lines: &Vec<String>, unique: bool) -> (r: Grouping)
    requires
        keys@.len() == lines@.len(),
    ensures
        groups_lines(r, views(keys@), views(lines@), unique),
{
    let ghost ks = views(keys@);
    let ghost ls = views(lines@);
    let mut g = Grouping::new(unique);
    let mut i: usize = 0;
    proof {
        assert(ks.take(0).to_set() =~= Set::<Seq<char>>::empty());
        assert(ls.take(0) =~= Seq::<Seq<char>>::empty());
        assert(Seq::<Seq<char>>::empty().to_set() =~= Set::<Seq<char>>::empty());
    }
    while i < lines.len()
        invariant
            keys@.len() == lines@.len(),
            ks == views(keys@),
            ls == views(lines@),
            i <= lines@.len(),
            groups_lines(g, ks, ls.take(i as int), unique),
        decreases lines@.len() - i,
    {
        let ghost before = g;
        let key = keys[i].clone();
        let line = lines[i].clone();
        g.add(key, line);
        proof {
            let t = ls.take(i + 1);
            assert(t.drop_last() =~= ls.take(i as int));
            assert(t.last() == ls[i as int]);
            assert(t.len() == i + 1);
            assert(ks.take(i + 1) =~= ks.take(i as int).push(ks[i as int]));
            let kt = ks.take(i + 1);
            let k0 = ks.take(i as int);
            assert(kt.to_set() =~= k0.to_set().insert(ks[i as int])) by {
                assert forall|x: Seq<char>| kt.to_set().contains(x) implies k0.to_set().insert(ks[i as int]).contains(x) by {
                    assert(kt.contains(x));
                    let j = choose|j: int| 0 <= j < kt.len() && kt[j] == x;
                    if j < i {
                        assert(k0[j] == x);
                    }
                }
                assert forall|x: Seq<char>| k0.to_set().insert(ks[i as int]).contains(x) implies kt.to_set().contains(x) by {
                    if x != ks[i as int] {
                        assert(k0.contains(x));
                        let j = choose|j: int| 0 <= j < k0.len() && k0[j] == x;
                        assert(kt[j] == x);
                    } else {
                        assert(kt[i as int] == x);
                    }
                }
            }
            assert forall|k: Seq<char>| #[trigger] lines_with_key(ks, t, k) == if ks[i as int] == k {
                lines_with_key(ks, ls.take(i as int), k).push(ls[i as int])
            } else {
                lines_with_key(ks, ls.take(i as int), k)
            } by {}
            if !unique {
                assert forall|k: Seq<char>| #[trigger] g.members(k) == lines_with_key(ks, t, k) by {
                    assert(before.members(k) == lines_with_key(ks, ls.take(i as int), k));
                }
            } else {
                assert forall|k: Seq<char>| #[trigger] g.members(k).to_set() == lines_with_key(ks, t, k).to_set() by {
                    assert(before.members(k).to_set() == lines_with_key(ks, ls.take(i as int), k).to_set());
                    if k == ks[i as int] {
                        let s = lines_with_key(ks, ls.take(i as int), k);
                        assert(s.push(ls[i as int]).to_set() =~= s.to_set().insert(ls[i as int])) by {
                            assert forall|x: Seq<char>| s.push(ls[i as int]).to_set().contains(x) implies s.to_set().insert(ls[i as int]).contains(x) by {
                                assert(s.push(ls[i as int]).contains(x));
                                let sp = s.push(ls[i as int]);
                                let j = choose|j: int| 0 <= j < sp.len() && sp[j] == x;
                                if j < s.len() {
                                    assert(s[j] == x);
                                }
                            }
                            assert forall|x: Seq<char>| s.to_set().insert(ls[i as int]).contains(x) implies s.push(ls[i as int]).to_set().contains(x) by {
                                if x != ls[i as int] {
                                    assert(s.contains(x));
                                    let j = choose|j: int| 0 <= j < s.len() && s[j] == x;
                                    assert(s.push(ls[i as int])[j] == x);
                                } else {
                                    assert(s.push(ls[i as int])[s.len() as int] == x);
                                }
                            }
                        }
                    }
                }
            }
        }
        i = i + 1;
    }
    assert(ls.take(lines@.len() as int) =~= ls);
    g
}


/// The key of each line under a pattern and a group identifier.
pub open spec fn line_keys(pattern: Seq<char>, group_id: GroupId, lines: Seq<Seq<char>>) -> Seq<
    Seq<char>,
> {
    lines.map_values(|l: Seq<char>| line_key(pattern, group_id, l))
}

/// Groups `lines` by the key that `key` gives each of them.
pub fn groupby(key: &RegexMatcher, lines: &Vec<String>, unique: bool) -> (r: Grouping)
    ensures
        groups_lines(r, line_keys(key.regex@, *key.group_id, views(lines@)), views(lines@), unique),
{
    let mut keys: Vec<String> = Vec::new();
    let mut i: usize = 0;
    while i < lines.len()
        invariant
            i <= lines@.len(),
            keys@.len() == i,
            forall|j: int| 0 <= j < i ==> (#[trigger] keys@[j])@ == line_key(key.regex@, *key.group_id, lines@[j]@),
        decreases lines@.len() - i,
    {
        let k = key.extract(lines[i].as_str());
        keys.push(k);
        i = i + 1;
    }
    assert(views(keys@) =~= line_keys(key.regex@, *key.group_id, views(lines@)));
    group_lines(&keys, lines, unique)
}

/// Groups `lines` by what `group_id` selects from the match of `re` in each.
pub fn groupby_regex(re: &Pattern, group_id: &GroupId, lines: &Vec<String>, unique: bool) -> (r: Grouping)
    ensures
        groups_lines(r, line_keys(re@, *group_id, views(lines@)), views(lines@), unique),
{
    let key = RegexMatcher::new(re, group_id);
    groupby(&key, lines, unique)
}

} // verus!
