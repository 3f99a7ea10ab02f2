//! The application index: entries of all entry files merged by display name,
//! a per-file cache of parse results, and the invalidation that file-system
//! events cause.

use vstd::prelude::*;
use crate::entry::{Entry, EntryView};
use crate::text::{chars_of, string_of};

verus! {

/// The name-keyed mapping that entries parsed in this order give: a later
/// entry replaces an earlier one of the same name, and entries without a
/// name are left out.
pub open spec fn merged(s: Seq<EntryView>) -> Map<Seq<char>, EntryView>
    decreases s.len(),
{
    if s.len() == 0 {
        Map::empty()
    } else {
        let m = merged(s.drop_last());
        if s.last().name.len() == 0 {
            m
        } else {
            m.insert(s.last().name, s.last())
        }
    }
}

pub open spec fn entries_view(v: Seq<Entry>) -> Seq<EntryView> {
    v.map_values(|e: Entry| e@)
}

/// `list` holds the mapping `m` with one entry per name, in some order.
pub open spec fn lists(list: Seq<EntryView>, m: Map<Seq<char>, EntryView>) -> bool {
    &&& forall|i: int, j: int|
        0 <= i < j < list.len() ==> (#[trigger] list[i]).name != (#[trigger] list[j]).name
    &&& forall|i: int|
        0 <= i < list.len() ==> m.contains_key((#[trigger] list[i]).name) && m[list[i].name]
            == list[i]
    &&& forall|k: Seq<char>|
        #[trigger] m.contains_key(k) ==> exists|i: int| 0 <= i < list.len() && list[i].name == k
}

/// The position where `name` first occurs in `s`, or -1.
pub open spec fn first_index(s: Seq<EntryView>, name: Seq<char>) -> int
    decreases s.len(),
{
    if s.len() == 0 {
        -1
    } else {
        let f = first_index(s.drop_last(), name);
        if f >= 0 {
            f
        } else if s.last().name == name {
            s.len() - 1
        } else {
            -1
        }
    }
}

/// Each name of `list` first occurs in `s` before the names that follow it.
pub open spec fn in_first_appearance_order(list: Seq<EntryView>, s: Seq<EntryView>) -> bool {
    forall|x: int, y: int|
        0 <= x < y < list.len() ==> first_index(s, (#[trigger] list[x]).name) < first_index(
            s,
            (#[trigger] list[y]).name,
        )
}

proof fn lemma_first_index_bounds(s: Seq<EntryView>, name: Seq<char>)
    ensures
        -1 <= first_index(s, name) < s.len(),
    decreases s.len(),
{
    if s.len() > 0 {
        lemma_first_index_bounds(s.drop_last(), name);
    }
}

proof fn lemma_first_index_merged(s: Seq<EntryView>, name: Seq<char>)
    requires
        name.len() > 0,
    ensures
        first_index(s, name) >= 0 <==> merged(s).contains_key(name),
    decreases s.len(),
{
    if s.len() > 0 {
        lemma_first_index_merged(s.drop_last(), name);
    }
}

proof fn lemma_merged_names(s: Seq<EntryView>)
    ensures
        forall|k: Seq<char>| #[trigger] merged(s).contains_key(k) ==> k.len() > 0,
        forall|k: Seq<char>| #[trigger] merged(s).contains_key(k) ==> merged(s)[k].name == k,
    decreases s.len(),
{
    if s.len() > 0 {
        let m = merged(s.drop_last());
        lemma_merged_names(s.drop_last());
        assert forall|k: Seq<char>| #[trigger] merged(s).contains_key(k) implies k.len() > 0
            && merged(s)[k].name == k by {
            if s.last().name.len() > 0 && k != s.last().name {
                assert(m.contains_key(k));
            }
        }
    }
}

/// The listing of applications: `parsed` holds the entries of the entry files
/// in search order, so that a later directory overrides an earlier one.
pub fn generate_application_list(parsed: &Vec<Entry>) -> (r: Vec<Entry>)
    ensures
        lists(entries_view(r@), merged(entries_view(parsed@))),
        in_first_appearance_order(entries_view(r@), entries_view(parsed@)),
{
    let ghost all = entries_view(parsed@);
    let mut r: Vec<Entry> = Vec::new();
    let mut i: usize = 0;
    while i < parsed.len()
        invariant
            i <= parsed.len(),
            all == entries_view(parsed@),
            lists(entries_view(r@), merged(all.subrange(0, i as int))),
            in_first_appearance_order(entries_view(r@), all.subrange(0, i as int)),
        decreases parsed.len() - i,
    {
        let ghost pre = all.subrange(0, i as int);
        let ghost next = all.subrange(0, i + 1);
        proof {
            assert(next.drop_last() =~= pre);
            assert forall|m: Seq<char>| #[trigger] first_index(pre, m) >= 0 implies first_index(
                next,
                m,
            ) == first_index(pre, m) by {}
            lemma_merged_names(pre);
        }
        let e = &parsed[i];
        let ghost before = entries_view(r@);
        let ghost m0 = merged(all.subrange(0, i as int));
        assert(all.subrange(0, i + 1).drop_last() =~= all.subrange(0, i as int));
        assert(all.subrange(0, i + 1).last() == e@);
        proof {
            lemma_merged_names(all.subrange(0, i as int));
        }
        if e.name.as_str().unicode_len() > 0 {
            let mut j: usize = 0;
            let mut found = false;
            while j < r.len()
                invariant_except_break
                    !found,
                invariant
                    j <= r.len(),
                    forall|k: int| 0 <= k < j ==> (#[trigger] r@[k])@.name != e@.name,
                ensures
                    found ==> j < r.len() && r@[j as int]@.name == e@.name,
                    !found ==> forall|k: int| 0 <= k < r.len() ==> (#[trigger] r@[k])@.name
                        != e@.name,
                decreases r.len() - j,
            {
                if r[j].name == e.name {
                    found = true;
                    break;
                }
                j = j + 1;
            }
            assert(forall|k: int| 0 <= k < before.len() ==> #[trigger] before[k] == r@[k]@);
            let ghost others_differ = forall|x: int|
                0 <= x < before.len() && (!found || x != j) ==> (#[trigger] before[x]).name
                    != e@.name;
            assert(others_differ) by {
                if found {
                    assert forall|x: int|
                        0 <= x < before.len() && x != j implies (#[trigger] before[x]).name
                        != e@.name by {
                        assert(before[j as int].name == e@.name);
                        if x < j {
                            assert(before[x].name != before[j as int].name);
                        } else {
                            assert(before[j as int].name != before[x].name);
                        }
                    }
                }
            }
            if found {
                r.set(j, e.duplicate());
                assert(entries_view(r@) =~= before.update(j as int, e@));
            } else {
                r.push(e.duplicate());
                assert(entries_view(r@) =~= before.push(e@));
            }
            let ghost m1 = merged(all.subrange(0, i + 1));
            assert(m1 == m0.insert(e@.name, e@));
            let ghost after = entries_view(r@);
            let ghost at: int = if found { j as int } else { before.len() as int };
            assert(after[at].name == e@.name);
            assert forall|k: Seq<char>| #[trigger] m1.contains_key(k) implies exists|x: int|
                0 <= x < after.len() && after[x].name == k by {
                if k == e@.name {
                    assert(after[at].name == k);
                } else {
                    let x = choose|x: int| 0 <= x < before.len() && before[x].name == k;
                    assert(after[x] == before[x]);
                }
            }
            assert forall|x: int| 0 <= x < after.len() implies m1.contains_key(
                (#[trigger] after[x]).name,
            ) && m1[after[x].name] == after[x] by {
                if x != at {
                    assert(after[x] == before[x]);
                    assert(before[x].name != e@.name);
                }
            }
            assert forall|x: int, y: int| 0 <= x < y < after.len() implies (#[trigger] after[x]).name
                != (#[trigger] after[y]).name by {
                if x != at && y != at {
                    assert(after[x] == before[x] && after[y] == before[y]);
                } else if x == at {
                    assert(after[y] == before[y]);
                    assert(before[y].name != e@.name);
                } else {
                    assert(after[x] == before[x]);
                    assert(before[x].name != e@.name);
                }
            }
            assert(lists(after, m1));
            assert forall|x: int| 0 <= x < before.len() implies first_index(
                pre,
                (#[trigger] before[x]).name,
            ) >= 0 by {
                lemma_first_index_merged(pre, before[x].name);
            }
            assert forall|x: int, y: int| 0 <= x < y < after.len() implies first_index(
                next,
                (#[trigger] after[x]).name,
            ) < first_index(next, (#[trigger] after[y]).name) by {
                if y == at && !found {
                    lemma_first_index_merged(pre, e@.name);
                    assert(after[x] == before[x]);
                    lemma_first_index_bounds(pre, before[x].name);
                    assert(first_index(pre, e@.name) < 0);
                    assert(first_index(next, e@.name) == i);
                } else {
                    if x == at {
                        assert(before[x].name == e@.name);
                    } else {
                        assert(after[x] == before[x]);
                    }
                    if y == at {
                        assert(before[y].name == e@.name);
                    } else {
                        assert(after[y] == before[y]);
                    }
                    assert(before[x].name == after[x].name && before[y].name == after[y].name);
                }
            }
        } else {
            assert(merged(all.subrange(0, i + 1)) == m0);
            let ghost cur = entries_view(r@);
            assert forall|x: int| 0 <= x < cur.len() implies first_index(
                pre,
                (#[trigger] cur[x]).name,
            ) >= 0 by {
                lemma_first_index_merged(pre, cur[x].name);
            }
        }
        i = i + 1;
    }
    assert(all.subrange(0, parsed.len() as int) =~= all);
    r
}

/// A mapping that no entry with a name contributes to is empty: a scan that
/// finds no valid entry file yields an empty listing, not an error.
pub proof fn lemma_no_valid_entries(s: Seq<EntryView>)
    requires
        forall|i: int| 0 <= i < s.len() ==> (#[trigger] s[i]).name.len() == 0,
    ensures
        merged(s) == Map::<Seq<char>, EntryView>::empty(),
        forall|list: Seq<EntryView>| #[trigger] lists(list, merged(s)) ==> list.len() == 0,
    decreases s.len(),
{
    if s.len() > 0 {
        lemma_no_valid_entries(s.drop_last());
    }
    assert forall|list: Seq<EntryView>| #[trigger] lists(list, merged(s)) implies list.len()
        == 0 by {
        if list.len() > 0 {
            assert(merged(s).contains_key(list[0].name));
        }
    }
}

/// A file-system event on a watched search directory or entry file.
pub enum WatchEvent {
    /// A file was created in a search directory: the file list is stale.
    Created,
    /// The entry file at this path was modified: its parse result is stale.
    Modified(String),
}

/// The parse result cached for one entry file.
pub struct CachedFile {
    pub path: String,
    pub entry: Entry,
}

pub open spec fn cache_view(c: Seq<CachedFile>) -> Seq<(Seq<char>, EntryView)> {
    c.map_values(|f: CachedFile| (f.path@, f.entry@))
}

/// The entry cached for the file at `p`, the latest stored one.
pub open spec fn lookup(c: Seq<(Seq<char>, EntryView)>, p: Seq<char>) -> Option<EntryView>
    decreases c.len(),
{
    if c.len() == 0 {
        None
    } else if c.last().0 == p {
        Some(c.last().1)
    } else {
        lookup(c.drop_last(), p)
    }
}

/// The cache without anything stored for `p`.
pub open spec fn evicted(c: Seq<(Seq<char>, EntryView)>, p: Seq<char>) -> Seq<
    (Seq<char>, EntryView),
>
    decreases c.len(),
{
    if c.len() == 0 {
        c
    } else if c.last().0 == p {
        evicted(c.drop_last(), p)
    } else {
        evicted(c.drop_last(), p).push(c.last())
    }
}

/// The cache after the parse result `e` of the file at `p` is stored.
pub open spec fn stored(c: Seq<(Seq<char>, EntryView)>, p: Seq<char>, e: EntryView) -> Seq<
    (Seq<char>, EntryView),
> {
    evicted(c, p).push((p, e))
}

/// The cached entries of `files`, in the order of `files`.
pub open spec fn known_entries(files: Seq<Seq<char>>, c: Seq<(Seq<char>, EntryView)>) -> Seq<
    EntryView,
>
    decreases files.len(),
{
    if files.len() == 0 {
        seq![]
    } else {
        let k = known_entries(files.drop_last(), c);
        match lookup(c, files.last()) {
            Some(e) => k.push(e),
            None => k,
        }
    }
}

/// The files of `files` that have no cached entry, in order.
pub open spec fn unparsed(files: Seq<Seq<char>>, c: Seq<(Seq<char>, EntryView)>) -> Seq<
    Seq<char>,
>
    decreases files.len(),
{
    if files.len() == 0 {
        seq![]
    } else {
        let k = unparsed(files.drop_last(), c);
        if lookup(c, files.last()) is None {
            k.push(files.last())
        } else {
            k
        }
    }
}

pub open spec fn strings_view(v: Seq<String>) -> Seq<Seq<char>> {
    v.map_values(|s: String| s@)
}

pub struct IndexView {
    /// The entry files of the last full scan, in search order; `None` when a
    /// rescan is due.
    pub files: Option<Seq<Seq<char>>>,
    pub cache: Seq<(Seq<char>, EntryView)>,
}

/// The application index. A full scan supplies the list of entry files; their
/// parse results are cached per file. A creation event in a search directory
/// drops both; a modification event drops the one file's parse result.
pub struct ApplicationIndex {
    files: Option<Vec<String>>,
    cache: Vec<CachedFile>,
}

impl View for ApplicationIndex {
    type V = IndexView;

    closed spec fn view(&self) -> IndexView {
        IndexView {
            files: match self.files {
                Some(f) => Some(strings_view(f@)),
                None => None,
            },
            cache: cache_view(self.cache@),
        }
    }
}

pub open spec fn scanned(files: Option<Seq<Seq<char>>>) -> Seq<Seq<char>> {
    match files {
        Some(f) => f,
        None => seq![],
    }
}

fn lookup_cached(c: &Vec<CachedFile>, p: &String) -> (r: Option<Entry>)
    ensures
        match lookup(cache_view(c@), p@) {
            Some(e) => r matches Some(x) && x@ == e,
            None => r is None,
        },
{
    let ghost cv = cache_view(c@);
    let mut i: usize = c.len();
    assert(cv.subrange(0, i as int) =~= cv);
    while i > 0
        invariant
            i <= c.len(),
            cv == cache_view(c@),
            lookup(cv.subrange(0, i as int), p@) == lookup(cv, p@),
        decreases i,
    {
        assert(cv.subrange(0, i as int).drop_last() =~= cv.subrange(0, i - 1));
        assert(cv.subrange(0, i as int).last() == (c@[i - 1].path@, c@[i - 1].entry@));
        if c[i - 1].path == *p {
            return Some(c[i - 1].entry.duplicate());
        }
        i = i - 1;
    }
    None
}

fn evict_cached(c: &Vec<CachedFile>, p: &String) -> (r: Vec<CachedFile>)
    ensures
        cache_view(r@) == evicted(cache_view(c@), p@),
{
    let ghost cv = cache_view(c@);
    let mut r: Vec<CachedFile> = Vec::new();
    let mut i: usize = 0;
    while i < c.len()
        invariant
            i <= c.len(),
            cv == cache_view(c@),
            cache_view(r@) == evicted(cv.subrange(0, i as int), p@),
        decreases c.len() - i,
    {
        assert(cv.subrange(0, i + 1).drop_last() =~= cv.subrange(0, i as int));
        assert(cv.subrange(0, i + 1).last() == (c@[i as int].path@, c@[i as int].entry@));
        if c[i].path != *p {
            let ghost before = cache_view(r@);
            r.push(CachedFile { path: c[i].path.clone(), entry: c[i].entry.duplicate() });
            assert(cache_view(r@) =~= before.push((c@[i as int].path@, c@[i as int].entry@)));
        }
        i = i + 1;
    }
    assert(cv.subrange(0, c.len() as int) =~= cv);
    r
}

impl ApplicationIndex {
    /// An index with nothing scanned or parsed yet.
    pub fn new() -> (r: ApplicationIndex)
        ensures
            r@.files is None,
            r@.cache.len() == 0,
    {
        let r = ApplicationIndex { files: None, cache: Vec::new() };
        assert(cache_view(r.cache@) =~= Seq::empty());
        r
    }

    /// Whether the list of entry files must be rebuilt by a full scan.
    pub fn needs_scan(&self) -> (r: bool)
        ensures
            r == self@.files is None,
    {
        self.files.is_none()
    }

    /// Records the entry files that a full scan found, in search order.
    pub fn set_scan(&mut self, files: Vec<String>)
        ensures
            final(self)@.files == Some(strings_view(files@)),
            final(self)@.cache == old(self)@.cache,
    {
        self.files = Some(files);
    }

    /// The scanned entry files whose parse result is not cached, in order:
    /// those that must be parsed before the listing is complete.
    pub fn pending(&self) -> (r: Vec<String>)
        ensures
            strings_view(r@) == unparsed(scanned(self@.files), self@.cache),
    {
        let mut r: Vec<String> = Vec::new();
        match &self.files {
            None => {
                assert(strings_view(r@) =~= Seq::<Seq<char>>::empty());
            },
            Some(files) => {
                let ghost fv = strings_view(files@);
                let mut i: usize = 0;
                assert(strings_view(r@) =~= unparsed(fv.subrange(0, 0), self@.cache));
                while i < files.len()
                    invariant
                        i <= files.len(),
                        fv == strings_view(files@),
                        self@.files == Some(fv),
                        strings_view(r@) == unparsed(fv.subrange(0, i as int), self@.cache),
                    decreases files.len() - i,
                {
                    assert(fv.subrange(0, i + 1).drop_last() =~= fv.subrange(0, i as int));
                    assert(fv.subrange(0, i + 1).last() == files@[i as int]@);
                    let ghost before = strings_view(r@);
                    if lookup_cached(&self.cache, &files[i]).is_none() {
                        r.push(files[i].clone());
                        assert(strings_view(r@) =~= before.push(files@[i as int]@));
                    }
                    i = i + 1;
                }
                assert(fv.subrange(0, files.len() as int) =~= fv);
            },
        }
        r
    }

    /// Caches the parse result of the entry file at `path`.
    pub fn store(&mut self, path: String, entry: Entry)
        ensures
            final(self)@.files == old(self)@.files,
            final(self)@.cache == stored(old(self)@.cache, path@, entry@),
    {
        let mut c = evict_cached(&self.cache, &path);
        let ghost before = cache_view(c@);
        let ghost item = (path@, entry@);
        c.push(CachedFile { path, entry });
        assert(cache_view(c@) =~= before.push(item));
        self.cache = c;
    }

    /// Applies a file-system event: a creation drops the file list and every
    /// cached parse result, a modification drops that file's parse result.
    pub fn apply(&mut self, event: WatchEvent)
        ensures
            event is Created ==> final(self)@.files is None && final(self)@.cache.len() == 0,
            event matches WatchEvent::Modified(p) ==> final(self)@.files == old(self)@.files
                && final(self)@.cache == evicted(old(self)@.cache, p@),
    {
        match event {
            WatchEvent::Created => {
                self.files = None;
                self.cache = Vec::new();
                assert(cache_view(self.cache@) =~= Seq::empty());
            },
            WatchEvent::Modified(p) => {
                self.cache = evict_cached(&self.cache, &p);
            },
        }
    }

    /// The current listing: the cached entries of the scanned files merged by
    /// name, a later search directory overriding an earlier one.
    pub fn list(&self) -> (r: Vec<Entry>)
        ensures
            lists(entries_view(r@), merged(known_entries(scanned(self@.files), self@.cache))),
            in_first_appearance_order(
                entries_view(r@),
                known_entries(scanned(self@.files), self@.cache),
            ),
    {
        let mut parsed: Vec<Entry> = Vec::new();
        match &self.files {
            None => {
                assert(entries_view(parsed@) =~= Seq::<EntryView>::empty());
            },
            Some(files) => {
                let ghost fv = strings_view(files@);
                let mut i: usize = 0;
                assert(entries_view(parsed@) =~= known_entries(fv.subrange(0, 0), self@.cache));
                while i < files.len()
                    invariant
                        i <= files.len(),
                        fv == strings_view(files@),
                        self@.files == Some(fv),
                        entries_view(parsed@) == known_entries(
                            fv.subrange(0, i as int),
                            self@.cache,
                        ),
                    decreases files.len() - i,
                {
                    assert(fv.subrange(0, i + 1).drop_last() =~= fv.subrange(0, i as int));
                    assert(fv.subrange(0, i + 1).last() == files@[i as int]@);
                    let ghost before = entries_view(parsed@);
                    match lookup_cached(&self.cache, &files[i]) {
                        Some(e) => {
                            parsed.push(e);
                            assert(entries_view(parsed@) =~= before.push(e@));
                        },
                        None => {},
                    }
                    i = i + 1;
                }
                assert(fv.subrange(0, files.len() as int) =~= fv);
            },
        }
        generate_application_list(&parsed)
    }
}

proof fn lemma_lookup_evicted(c: Seq<(Seq<char>, EntryView)>, p: Seq<char>, q: Seq<char>)
    ensures
        lookup(evicted(c, p), q) == if q == p {
            None
        } else {
            lookup(c, q)
        },
    decreases c.len(),
{
    if c.len() > 0 {
        lemma_lookup_evicted(c.drop_last(), p, q);
        let e = evicted(c.drop_last(), p);
        assert(e.push(c.last()).drop_last() =~= e);
    }
}

proof fn lemma_known_entries_congruent(
    files: Seq<Seq<char>>,
    c: Seq<(Seq<char>, EntryView)>,
    d: Seq<(Seq<char>, EntryView)>,
)
    requires
        forall|f: Seq<char>| lookup(c, f) == lookup(d, f),
    ensures
        known_entries(files, c) == known_entries(files, d),
    decreases files.len(),
{
    if files.len() > 0 {
        lemma_known_entries_congruent(files.drop_last(), c, d);
    }
}

proof fn lemma_unparsed_contains(files: Seq<Seq<char>>, c: Seq<(Seq<char>, EntryView)>, p: Seq<char>)
    requires
        files.contains(p),
        lookup(c, p) is None,
    ensures
        unparsed(files, c).contains(p),
    decreases files.len(),
{
    if files.last() == p {
        assert(unparsed(files, c).last() == p);
    } else {
        let i = choose|i: int| 0 <= i < files.len() && files[i] == p;
        assert(files.drop_last()[i] == p);
        lemma_unparsed_contains(files.drop_last(), c, p);
        let k = unparsed(files.drop_last(), c);
        let j = choose|j: int| 0 <= j < k.len() && k[j] == p;
        if lookup(c, files.last()) is None {
            assert(k.push(files.last())[j] == p);
        }
    }
}

/// A modification event on a scanned entry file forces that file to be
/// parsed again; once its new parse result `e` is stored, lookups give `e`
/// for it and the previous results for every other file, so the listing is
/// the one any cache with these lookups gives, whatever was cached for the
/// file before.
/// When no later file can override it, the listing (see
/// [`ApplicationIndex::list`]) then shows the new content under its name.
pub proof fn lemma_modified_file_reparsed(
    files: Seq<Seq<char>>,
    c: Seq<(Seq<char>, EntryView)>,
    p: Seq<char>,
    e: EntryView,
    d: Seq<(Seq<char>, EntryView)>,
)
    requires
        files.contains(p),
        lookup(d, p) == Some(e),
        forall|q: Seq<char>| q != p ==> lookup(d, q) == lookup(c, q),
    ensures
        unparsed(files, evicted(c, p)).contains(p),
        lookup(stored(evicted(c, p), p, e), p) == Some(e),
        forall|q: Seq<char>|
            q != p ==> lookup(stored(evicted(c, p), p, e), q) == lookup(c, q),
        known_entries(files, stored(evicted(c, p), p, e)) == known_entries(files, d),
        files.last() == p && e.name.len() > 0 ==> merged(
            known_entries(files, stored(evicted(c, p), p, e)),
        ).contains_key(e.name) && merged(known_entries(files, stored(evicted(c, p), p, e)))[e.name]
            == e,
{
    let c1 = evicted(c, p);
    let c2 = stored(c1, p, e);
    lemma_lookup_evicted(c, p, p);
    lemma_unparsed_contains(files, c1, p);
    assert(c2.drop_last() =~= evicted(c1, p));
    assert forall|q: Seq<char>| q != p implies lookup(c2, q) == lookup(c, q) by {
        lemma_lookup_evicted(c, p, q);
        lemma_lookup_evicted(c1, p, q);
    }
    assert forall|f: Seq<char>| lookup(c2, f) == lookup(d, f) by {
        if f != p {
            lemma_lookup_evicted(c, p, f);
            lemma_lookup_evicted(c1, p, f);
        }
    }
    lemma_known_entries_congruent(files, c2, d);
    if files.last() == p && e.name.len() > 0 {
        let k = known_entries(files, c2);
        assert(k == known_entries(files.drop_last(), c2).push(e));
        assert(k.drop_last() =~= known_entries(files.drop_last(), c2));
    }
}

/// `rel` appended to the directory `base` as a path component.
pub open spec fn joined(base: Seq<char>, rel: Seq<char>) -> Seq<char> {
    if base.len() == 0 {
        rel
    } else if base.last() == '/' {
        base + rel
    } else {
        base + seq!['/'] + rel
    }
}

/// The fields of `s` separated by `sep`; an empty text has one empty field.
pub open spec fn fields(s: Seq<char>, sep: char) -> Seq<Seq<char>>
    decreases s.len(),
{
    if s.len() == 0 {
        seq![seq![]]
    } else {
        let f = fields(s.drop_last(), sep);
        if s.last() == sep {
            f.push(seq![])
        } else {
            f.update(f.len() - 1, f.last().push(s.last()))
        }
    }
}

proof fn lemma_fields_nonempty(s: Seq<char>, sep: char)
    ensures
        fields(s, sep).len() >= 1,
    decreases s.len(),
{
    if s.len() > 0 {
        lemma_fields_nonempty(s.drop_last(), sep);
    }
}

/// The search directories used when none are configured.
pub open spec fn default_data_dirs() -> Seq<char> {
    "/usr/local/share/:/usr/share/"@
}

/// The application directories of the colon-separated data directories.
pub open spec fn application_dirs(data_dirs: Seq<char>) -> Seq<Seq<char>> {
    fields(data_dirs, ':').map_values(|d: Seq<char>| joined(d, "applications"@))
}

/// The path of `rel` inside the directory `base`.
pub fn join_path(base: &str, rel: &str) -> (r: String)
    ensures
        r@ == joined(base@, rel@),
{
    let b = chars_of(base);
    let mut out: Vec<char> = Vec::new();
    let mut i: usize = 0;
    while i < b.len()
        invariant
            i <= b.len(),
            out@ == b@.subrange(0, i as int),
        decreases b.len() - i,
    {
        out.push(b[i]);
        i = i + 1;
    }
    assert(out@ =~= base@);
    if b.len() > 0 && b[b.len() - 1] != '/' {
        out.push('/');
    }
    let ghost mid = out@;
    let rv = chars_of(rel);
    let mut k: usize = 0;
    while k < rv.len()
        invariant
            k <= rv.len(),
            out@ == mid + rv@.subrange(0, k as int),
        decreases rv.len() - k,
    {
        out.push(rv[k]);
        k = k + 1;
        assert(out@ =~= mid + rv@.subrange(0, k as int));
    }
    assert(rv@.subrange(0, rv.len() as int) =~= rv@);
    assert(out@ =~= joined(base@, rel@));
    string_of(&out)
}

/// The fields of `s` separated by `sep`.
pub fn split_fields(s: &str, sep: char) -> (r: Vec<String>)
    ensures
        strings_view(r@) == fields(s@, sep),
{
    let cs = chars_of(s);
    let mut done: Vec<String> = Vec::new();
    let mut cur: Vec<char> = Vec::new();
    let mut i: usize = 0;
    assert(cs@.subrange(0, 0) =~= Seq::<char>::empty());
    assert(strings_view(done@).push(cur@) =~= fields(cs@.subrange(0, 0), sep));
    while i < cs.len()
        invariant
            i <= cs.len(),
            strings_view(done@).push(cur@) == fields(cs@.subrange(0, i as int), sep),
        decreases cs.len() - i,
    {
        let ghost pre = cs@.subrange(0, i as int);
        assert(cs@.subrange(0, i + 1).drop_last() =~= pre);
        assert(cs@.subrange(0, i + 1).last() == cs@[i as int]);
        proof {
            lemma_fields_nonempty(pre, sep);
        }
        if cs[i] == sep {
            let ghost dv = strings_view(done@);
            let piece = string_of(&cur);
            done.push(piece);
            cur = Vec::new();
            assert(strings_view(done@) =~= dv.push(piece@));
            assert(strings_view(done@).push(cur@) =~= dv.push(piece@).push(seq![]));
        } else {
            let ghost dv = strings_view(done@);
            let ghost old_cur = cur@;
            cur.push(cs[i]);
            assert(dv.push(cur@) =~= dv.push(old_cur).update(dv.len() as int, old_cur.push(cs@[i as int])));
        }
        i = i + 1;
    }
    let ghost dv = strings_view(done@);
    let last = string_of(&cur);
    done.push(last);
    assert(strings_view(done@) =~= dv.push(cur@));
    assert(cs@.subrange(0, cs.len() as int) =~= s@);
    done
}

/// The directories that hold application entry files: each data directory
/// of `data_dirs` (colon-separated; the two system defaults when `None`)
/// joined with `applications`, in order. Which of them exist is for the
/// caller to check.
pub fn get_xdg_application_dirs(data_dirs: Option<String>) -> (r: Vec<String>)
    ensures
        strings_view(r@) == application_dirs(
            match data_dirs {
                Some(d) => d@,
                None => default_data_dirs(),
            },
        ),
{
    let dirs = match data_dirs {
        Some(d) => d,
        None => "/usr/local/share/:/usr/share/".to_owned(),
    };
    let parts = split_fields(dirs.as_str(), ':');
    let mut r: Vec<String> = Vec::new();
    let mut i: usize = 0;
    let ghost want = application_dirs(dirs@);
    while i < parts.len()
        invariant
            i <= parts.len(),
            want == application_dirs(dirs@),
            strings_view(parts@) == fields(dirs@, ':'),
            strings_view(r@) == want.subrange(0, i as int),
        decreases parts.len() - i,
    {
        let ghost before = strings_view(r@);
        let d = join_path(parts[i].as_str(), "applications");
        r.push(d);
        assert(strings_view(r@) =~= before.push(joined(parts@[i as int]@, "applications"@)));
        assert(want[i as int] == joined(parts@[i as int]@, "applications"@));
        assert(strings_view(r@) =~= want.subrange(0, i + 1));
        i = i + 1;
    }
    assert(want.subrange(0, parts.len() as int) =~= want);
    r
}

} // verus!
