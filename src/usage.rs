//! The usage store: how often each application was launched, kept as a JSON
//! document of name-to-count pairs.

use vstd::prelude::*;

verus! {

pub open spec fn pairs_view(v: Seq<(String, u64)>) -> Seq<(Seq<char>, u64)> {
    v.map_values(|p: (String, u64)| (p.0@, p.1))
}

pub open spec fn keys_unique(s: Seq<(Seq<char>, u64)>) -> bool {
    forall|i: int, j: int| 0 <= i < j < s.len() ==> (#[trigger] s[i]).0 != (#[trigger] s[j]).0
}

/// The mapping that the pairs of `s` describe.
pub open spec fn counts_of(s: Seq<(Seq<char>, u64)>) -> Map<Seq<char>, u64>
    decreases s.len(),
{
    if s.len() == 0 {
        Map::empty()
    } else {
        counts_of(s.drop_last()).insert(s.last().0, s.last().1)
    }
}

/// The count of `name`; a name never launched counts zero.
pub open spec fn count_in(m: Map<Seq<char>, u64>, name: Seq<char>) -> u64 {
    if m.contains_key(name) {
        m[name]
    } else {
        0
    }
}

/// The count after one more launch, held at the largest count.
pub open spec fn next_count(c: u64) -> u64 {
    if c == u64::MAX {
        c
    } else {
        (c + 1) as u64
    }
}

/// The ranking bonus of a launch count: five points a launch, at most fifty.
pub open spec fn bonus(count: u64) -> int {
    if 5 * count > 50 {
        50
    } else {
        5 * count
    }
}

/// The JSON text that serialises the counts `m`.
pub uninterp spec fn usage_document(m: Map<Seq<char>, u64>) -> Seq<char>;

/// The name-count pairs that the JSON text `text` holds, or `None` when it is
/// not an object of non-negative integer counts.
pub uninterp spec fn usage_entries(text: Seq<char>) -> Option<Seq<(Seq<char>, u64)>>;

/// Relies on serde_json::to_string on a `BTreeMap` of string keys and integer
/// values: the JSON object of the pairs. Such a map always serialises (its keys
/// are strings and the output is an in-memory buffer), so the result is `Some`.
#[verifier::external_body]
fn counts_to_json(pairs: &Vec<(String, u64)>) -> (r: Option<String>)
    requires
        keys_unique(pairs_view(pairs@)),
    ensures
        r is Some,
        r->0@ == usage_document(counts_of(pairs_view(pairs@))),
{
    let m: std::collections::BTreeMap<&String, u64> = pairs.iter().map(|p| (&p.0, p.1)).collect();
    serde_json::to_string(&m).ok()
}

/// Relies on serde_json::from_str into a `BTreeMap<String, u64>`: the pairs of
/// the object, each name once, or `None` when the text is no such object.
#[verifier::external_body]
fn counts_from_json(text: &str) -> (r: Option<Vec<(String, u64)>>)
    ensures
        match r {
            Some(v) => usage_entries(text@) == Some(pairs_view(v@)) && keys_unique(
                pairs_view(v@),
            ),
            None => usage_entries(text@) is None,
        },
{
    serde_json::from_str::<std::collections::BTreeMap<String, u64>>(text).ok().map(
        |m| m.into_iter().collect(),
    )
}

/// The JSON document of pairs with distinct names.
fn document_of(pairs: &Vec<(String, u64)>) -> (r: String)
    requires
        keys_unique(pairs_view(pairs@)),
    ensures
        r@ == usage_document(counts_of(pairs_view(pairs@))),
{
    match counts_to_json(pairs) {
        Some(t) => t,
        None => String::new(),
    }
}

proof fn lemma_counts_of(s: Seq<(Seq<char>, u64)>, k: Seq<char>)
    requires
        keys_unique(s),
    ensures
        counts_of(s).contains_key(k) <==> exists|i: int| 0 <= i < s.len() && s[i].0 == k,
        forall|i: int| 0 <= i < s.len() && s[i].0 == k ==> counts_of(s)[k] == s[i].1,
    decreases s.len(),
{
    if s.len() > 0 {
        let t = s.drop_last();
        lemma_counts_of(t, k);
        if counts_of(s).contains_key(k) && s.last().0 != k {
            let i = choose|i: int| 0 <= i < t.len() && t[i].0 == k;
            assert(s[i].0 == k);
        }
        if exists|i: int| 0 <= i < s.len() && s[i].0 == k {
            let i = choose|i: int| 0 <= i < s.len() && s[i].0 == k;
            if i < s.len() - 1 {
                assert(t[i].0 == k);
            }
        }
        assert forall|i: int| 0 <= i < s.len() && s[i].0 == k implies counts_of(s)[k] == s[i].1 by {
            if i < s.len() - 1 {
                assert(s[i] == t[i]);
                assert(s[i].0 != s[s.len() - 1].0);
            }
        }
    }
}

/// How often each application was launched.
pub struct UsageCount {
    store: Vec<(String, u64)>,
}

impl View for UsageCount {
    type V = Map<Seq<char>, u64>;

    closed spec fn view(&self) -> Map<Seq<char>, u64> {
        counts_of(pairs_view(self.store@))
    }
}

impl UsageCount {
    #[verifier::type_invariant]
    spec fn names_once(self) -> bool {
        keys_unique(pairs_view(self.store@))
    }

    /// An empty store.
    pub fn new() -> (r: UsageCount)
        ensures
            r@ == Map::<Seq<char>, u64>::empty(),
    {
        let r = UsageCount { store: Vec::new() };
        assert(pairs_view(r.store@) =~= Seq::empty());
        r
    }

    /// The store that a JSON document describes; an unreadable document gives
    /// an empty store.
    pub fn from_json(text: &str) -> (r: UsageCount)
        ensures
            r@ == match usage_entries(text@) {
                Some(e) => counts_of(e),
                None => Map::empty(),
            },
    {
        match counts_from_json(text) {
            Some(v) => UsageCount { store: v },
            None => UsageCount::new(),
        }
    }

    fn position(&self, app: &String) -> (r: Option<usize>)
        ensures
            match r {
                Some(j) => j < self.store.len() && self.store@[j as int].0@ == app@,
                None => forall|i: int|
                    0 <= i < self.store.len() ==> (#[trigger] self.store@[i]).0@ != app@,
            },
    {
        let mut i: usize = 0;
        while i < self.store.len()
            invariant
                i <= self.store.len(),
                forall|k: int| 0 <= k < i ==> (#[trigger] self.store@[k]).0@ != app@,
            decreases self.store.len() - i,
        {
            if self.store[i].0 == *app {
                return Some(i);
            }
            i = i + 1;
        }
        None
    }

    /// The launch count of `app`, zero when it was never launched.
    pub fn get(&self, app: &str) -> (r: u64)
        ensures
            r == count_in(self@, app@),
    {
        proof {
            use_type_invariant(self);
        }
        let key = app.to_owned();
        let ghost s = pairs_view(self.store@);
        proof {
            lemma_counts_of(s, app@);
        }
        match self.position(&key) {
            Some(j) => {
                assert(s[j as int].0 == app@);
                self.store[j].1
            },
            None => {
                assert forall|i: int| 0 <= i < s.len() implies s[i].0 != app@ by {
                    assert(s[i].0 == self.store@[i].0@);
                }
                0
            },
        }
    }

    /// The JSON document of the store.
    pub fn to_json(&self) -> (r: String)
        ensures
            r@ == usage_document(self@),
    {
        proof {
            use_type_invariant(self);
        }
        document_of(&self.store)
    }

    /// Sets the count of `app`, and returns the document of the whole store
    /// to persist.
    pub fn set(&mut self, app: &str, val: u64) -> (doc: String)
        ensures
            final(self)@ == old(self)@.insert(app@, val),
            doc@ == usage_document(final(self)@),
    {
        proof {
            use_type_invariant(&*self);
        }
        let key = app.to_owned();
        let ghost s = pairs_view(self.store@);
        let ghost m = counts_of(s);
        let mut v: Vec<(String, u64)> = Vec::new();
        let mut i: usize = 0;
        while i < self.store.len()
            invariant
                i <= self.store.len(),
                s == pairs_view(self.store@),
                keys_unique(s),
                pairs_view(v@) == s.subrange(0, i as int),
            decreases self.store.len() - i,
        {
            let ghost before = pairs_view(v@);
            v.push((self.store[i].0.clone(), self.store[i].1));
            assert(pairs_view(v@) =~= before.push(s[i as int]));
            assert(s.subrange(0, i + 1) =~= s.subrange(0, i as int).push(s[i as int]));
            i = i + 1;
        }
        assert(s.subrange(0, s.len() as int) =~= s);
        let ghost t: Seq<(Seq<char>, u64)>;
        let ghost at: int;
        match self.position(&key) {
            Some(j) => {
                v.set(j, (key, val));
                proof {
                    at = j as int;
                    t = s.update(j as int, (app@, val));
                    assert(s[at].0 == self.store@[at].0@);
                    assert(pairs_view(v@) =~= t);
                }
            },
            None => {
                v.push((key, val));
                proof {
                    at = s.len() as int;
                    t = s.push((app@, val));
                    assert(pairs_view(v@) =~= t);
                    assert forall|i: int| 0 <= i < s.len() implies s[i].0 != app@ by {
                        assert(s[i].0 == self.store@[i].0@);
                    }
                }
            },
        }
        proof {
            assert(keys_unique(t)) by {
                assert forall|x: int, y: int| 0 <= x < y < t.len() implies (#[trigger] t[x]).0
                    != (#[trigger] t[y]).0 by {
                    if y < s.len() && x < s.len() {
                        if t[x] != s[x] || t[y] != s[y] {
                            assert(s[x].0 == app@ || s[y].0 == app@);
                        }
                    }
                }
            }
            let ghost want = m.insert(app@, val);
            assert forall|k: Seq<char>| #![trigger counts_of(t).dom().contains(k)] #![trigger want.dom().contains(k)] (counts_of(t).dom().contains(k)
                == want.dom().contains(k)) && (counts_of(t).dom().contains(k)
                ==> counts_of(t)[k] == want[k]) by {
                lemma_counts_of(s, k);
                lemma_counts_of(t, k);
                assert(t[at].0 == app@ && t[at].1 == val);
                if k == app@ {
                } else if m.contains_key(k) {
                    let i = choose|i: int| 0 <= i < s.len() && s[i].0 == k;
                    assert(i != at);
                    assert(t[i] == s[i]);
                } else if counts_of(t).contains_key(k) {
                    let i = choose|i: int| 0 <= i < t.len() && t[i].0 == k;
                    assert(i != at);
                    assert(i < s.len() && t[i] == s[i]);
                }
            }
            assert(counts_of(t) =~= m.insert(app@, val));
        }
        self.store = v;
        document_of(&self.store)
    }

    /// Counts one more launch of `app`, and returns the document to persist
    /// (see [`UsageCount::set`]).
    pub fn inc(&mut self, app: &str) -> (doc: String)
        ensures
            final(self)@ == old(self)@.insert(app@, next_count(count_in(old(self)@, app@))),
            doc@ == usage_document(final(self)@),
    {
        let c = self.get(app);
        let n = if c == u64::MAX {
            c
        } else {
            c + 1
        };
        self.set(app, n)
    }
}

/// The ranking bonus of a launch count (see [`bonus`]).
pub fn usage_bonus(count: u64) -> (r: i64)
    ensures
        r == bonus(count),
{
    if count >= 10 {
        50
    } else {
        (count * 5) as i64
    }
}

/// The bonus is capped: ten launches or more give exactly fifty points.
pub proof fn lemma_bonus_capped(count: u64)
    requires
        count >= 10,
    ensures
        bonus(count) == 50,
{
}

/// More launches never give a smaller bonus.
pub proof fn lemma_bonus_monotonic(a: u64, b: u64)
    requires
        a <= b,
    ensures
        bonus(a) <= bonus(b),
{
}

} // verus!
