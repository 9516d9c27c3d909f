use vstd::prelude::*;
use crate::json::{JsonValue, Json, jm, jm_obj, lemma_jm_obj_index, lemma_jm_obj_len};
use crate::text::str_eq;

verus! {

/// First index in `s` whose key is `k`, and `s.len()` where no entry has it.
pub open spec fn key_at(s: Seq<(Seq<char>, Json)>, k: Seq<char>) -> int
    decreases s.len(),
{
    if s.len() == 0 {
        0
    } else if s[0].0 == k {
        0
    } else {
        1 + key_at(s.drop_first(), k)
    }
}

pub open spec fn has_key(s: Seq<(Seq<char>, Json)>, k: Seq<char>) -> bool {
    key_at(s, k) < s.len()
}

/// The value stored under `k`, where there is one.
pub open spec fn lookup(s: Seq<(Seq<char>, Json)>, k: Seq<char>) -> Option<Json> {
    if has_key(s, k) {
        Some(s[key_at(s, k)].1)
    } else {
        None
    }
}

/// What one upsert does to the entries: replaces in place, or appends.
pub open spec fn upsert_model(s: Seq<(Seq<char>, Json)>, k: Seq<char>, v: Json) -> Seq<
    (Seq<char>, Json),
> {
    if has_key(s, k) {
        s.update(key_at(s, k), (k, v))
    } else {
        s.push((k, v))
    }
}

/// No two entries share a key.
pub open spec fn unique_keys(s: Seq<(Seq<char>, Json)>) -> bool {
    forall|i: int, j: int| 0 <= i < j < s.len() ==> s[i].0 != s[j].0
}

pub proof fn lemma_key_at_properties(s: Seq<(Seq<char>, Json)>, k: Seq<char>)
    ensures
        0 <= key_at(s, k) <= s.len(),
        key_at(s, k) < s.len() ==> s[key_at(s, k)].0 == k,
        forall|i: int| 0 <= i < key_at(s, k) ==> s[i].0 != k,
    decreases s.len(),
{
    if s.len() > 0 && s[0].0 != k {
        lemma_key_at_properties(s.drop_first(), k);
        assert forall|i: int| 0 <= i < key_at(s, k) implies s[i].0 != k by {
            if i > 0 {
                assert(s.drop_first()[i - 1] == s[i]);
            }
        }
    }
}

/// Where every index but a changed or appended one is untouched, `key_at`
/// looks through to the same place.
pub proof fn lemma_key_at_same_keys(s1: Seq<(Seq<char>, Json)>, s2: Seq<(Seq<char>, Json)>, k: Seq<char>)
    requires
        s1.len() == s2.len(),
        forall|i: int| 0 <= i < s1.len() ==> s1[i].0 == s2[i].0,
    ensures
        key_at(s1, k) == key_at(s2, k),
    decreases s1.len(),
{
    if s1.len() > 0 {
        assert(s1[0].0 == s2[0].0);
        if s1[0].0 != k {
            assert forall|i: int| 0 <= i < s1.drop_first().len() implies s1.drop_first()[i].0
                == s2.drop_first()[i].0 by {
                assert(s1.drop_first()[i] == s1[i + 1]);
                assert(s2.drop_first()[i] == s2[i + 1]);
            }
            lemma_key_at_same_keys(s1.drop_first(), s2.drop_first(), k);
        }
    }
}

/// The in-memory store: the authoritative snapshot of the latest result of
/// every path saved so far, one entry per path, in first-arrival order.
pub struct Store {
    entries: Vec<(String, JsonValue)>,
}

impl Store {
    /// The entries as the contracts see them.
    pub closed spec fn view_entries(&self) -> Seq<(Seq<char>, Json)> {
        jm_obj(self.entries@)
    }

    /// Every path has at most one entry.
    pub open spec fn wf(&self) -> bool {
        unique_keys(self.view_entries())
    }

    pub fn new() -> (r: Store)
        ensures
            r.wf(),
            r.view_entries() == Seq::<(Seq<char>, Json)>::empty(),
    {
        let s = Store { entries: Vec::new() };
        proof {
            assert(s.view_entries() =~= Seq::<(Seq<char>, Json)>::empty());
        }
        s
    }

    pub fn len(&self) -> (r: usize)
        ensures
            r == self.view_entries().len(),
    {
        proof {
            lemma_jm_obj_len(self.entries@);
        }
        self.entries.len()
    }

    /// The stored entries, for aggregation: a borrowed, point-in-time view.
    pub fn entries(&self) -> (r: &Vec<(String, JsonValue)>)
        ensures
            jm_obj(r@) == self.view_entries(),
    {
        &self.entries
    }

    /// The latest value stored for `path`, where one exists.
    #[verifier::loop_isolation(false)]
    pub fn get(&self, path: &str) -> (r: Option<&JsonValue>)
        ensures
            match r {
                Some(v) => lookup(self.view_entries(), path@) == Some(jm(*v)),
                None => lookup(self.view_entries(), path@) is None,
            },
    {
        let ghost m = self.view_entries();
        let n = self.entries.len();
        proof {
            lemma_jm_obj_len(self.entries@);
            lemma_key_at_properties(m, path@);
        }
        let mut i: usize = 0;
        while i < n
            invariant
                n == self.entries@.len(),
                i <= n,
                m == self.view_entries(),
                m.len() == n,
                forall|q: int| 0 <= q < i ==> m[q].0 != path@,
            decreases n - i,
        {
            proof {
                lemma_jm_obj_index(self.entries@, i as int);
            }
            if str_eq(self.entries[i].0.as_str(), path) {
                proof {
                    lemma_key_at_properties(m, path@);
                    assert(key_at(m, path@) == i as int) by {
                        if key_at(m, path@) < i as int {
                            assert(m[key_at(m, path@)].0 == path@);
                        }
                        if key_at(m, path@) > i as int {
                            assert(m[i as int].0 != path@);
                        }
                    }
                }
                return Some(&self.entries[i].1);
            }
            i += 1;
        }
        proof {
            lemma_key_at_properties(m, path@);
            assert(!has_key(m, path@));
        }
        None
    }

    /// Stores the latest result for `path`: the one entry for it afterwards
    /// holds `value`, and every other entry stands untouched.
    #[verifier::loop_isolation(false)]
    pub fn upsert_store_value(&mut self, path: String, value: JsonValue)
        requires
            old(self).wf(),
        ensures
            final(self).wf(),
            final(self).view_entries() == upsert_model(old(self).view_entries(), path@, jm(value)),
    {
        let ghost m = self.view_entries();
        let ghost vm = jm(value);
        let n = self.entries.len();
        proof {
            lemma_jm_obj_len(self.entries@);
        }
        let mut i: usize = 0;
        while i < n
            invariant
                n == self.entries@.len(),
                i <= n,
                m == self.view_entries(),
                m.len() == n,
                forall|q: int| 0 <= q < i ==> m[q].0 != path@,
            decreases n - i,
        {
            proof {
                lemma_jm_obj_index(self.entries@, i as int);
            }
            if str_eq(self.entries[i].0.as_str(), path.as_str()) {
                proof {
                    lemma_key_at_properties(m, path@);
                    assert(key_at(m, path@) == i as int) by {
                        if key_at(m, path@) < i as int {
                            assert(m[key_at(m, path@)].0 == path@);
                        }
                        if key_at(m, path@) > i as int {
                            assert(m[i as int].0 != path@);
                        }
                    }
                }
                let ghost before = self.entries@;
                self.entries.remove(i);
                self.entries.insert(i, (path, value));
                proof {
                    assert(self.entries@ =~= before.update(i as int, self.entries@[i as int]));
                    assert forall|q: int| 0 <= q < n implies jm_obj(self.entries@)[q]
                        == upsert_model(m, path@, vm)[q] by {
                        lemma_jm_obj_index(self.entries@, q);
                        lemma_jm_obj_index(before, q);
                    }
                    lemma_jm_obj_len(self.entries@);
                    assert(jm_obj(self.entries@) =~= upsert_model(m, path@, vm));
                    assert forall|a: int, b: int|
                        0 <= a < b < n implies jm_obj(self.entries@)[a].0 != jm_obj(
                        self.entries@,
                    )[b].0 by {
                        lemma_jm_obj_index(self.entries@, a);
                        lemma_jm_obj_index(self.entries@, b);
                        lemma_jm_obj_index(before, a);
                        lemma_jm_obj_index(before, b);
                    }
                }
                return ;
            }
            i += 1;
        }
        proof {
            lemma_key_at_properties(m, path@);
            assert(!has_key(m, path@));
        }
        let ghost before = self.entries@;
        self.entries.push((path, value));
        proof {
            lemma_jm_obj_len(self.entries@);
            assert forall|q: int| 0 <= q < n + 1 implies jm_obj(self.entries@)[q] == upsert_model(
                m,
                path@,
                vm,
            )[q] by {
                lemma_jm_obj_index(self.entries@, q);
                if q < n {
                    lemma_jm_obj_index(before, q);
                    assert(self.entries@[q] == before[q]);
                }
            }
            assert(jm_obj(self.entries@) =~= upsert_model(m, path@, vm));
            assert forall|a: int, b: int|
                0 <= a < b < n + 1 implies jm_obj(self.entries@)[a].0 != jm_obj(
                self.entries@,
            )[b].0 by {
                lemma_jm_obj_index(self.entries@, a);
                lemma_jm_obj_index(self.entries@, b);
            }
        }
    }
}

/// Upserting the same value twice is the same as doing it once, and the
/// store is left with exactly one entry for the path, holding that value.
pub proof fn lemma_upsert_idempotent(s: Seq<(Seq<char>, Json)>, k: Seq<char>, v: Json)
    requires
        unique_keys(s),
    ensures
        upsert_model(upsert_model(s, k, v), k, v) == upsert_model(s, k, v),
        lookup(upsert_model(s, k, v), k) == Some(v),
        unique_keys(upsert_model(s, k, v)),
{
    let s1 = upsert_model(s, k, v);
    lemma_key_at_properties(s, k);
    if has_key(s, k) {
        let i = key_at(s, k);
        lemma_key_at_same_keys(s, s1, k);
        lemma_key_at_properties(s1, k);
        assert(upsert_model(s1, k, v) =~= s1);
    } else {
        lemma_key_at_properties(s1, k);
        assert(s1[s.len() as int].0 == k);
        if key_at(s1, k) < s.len() {
            assert(s1[key_at(s1, k)].0 == k);
            assert(s[key_at(s1, k)].0 == k);
            assert(false);
        }
        assert(key_at(s1, k) == s.len());
        assert(upsert_model(s1, k, v) =~= s1);
        assert(unique_keys(s1)) by {
            assert forall|a: int, b: int| 0 <= a < b < s1.len() implies s1[a].0 != s1[b].0 by {
                if b == s.len() {
                    lemma_key_at_properties(s, k);
                }
            }
        }
    }
}

} // verus!
