//! The manifest of a run: metadata, per-class usage, aliases, statistics.
use vstd::prelude::*;
use crate::registry::{slot, step, Entry};
use indexmap::IndexMap;
use crate::text::{chars_of, position_of, string_of, views};

verus! {

/// How one class is used.
#[derive(Debug, Clone)]
pub struct ManifestClassInfo {
    /// Occurrences of the class.
    pub count: usize,
    /// Where it occurs (`path:line:column`), each place once.
    pub files: Vec<String>,
    /// Approximate size contribution in bytes.
    pub size_bytes: Option<usize>,
}

/// A frequently used class.
#[derive(Debug, Clone)]
pub struct TopClass {
    pub name: String,
    pub count: usize,
    pub file_count: usize,
}

/// Statistics of a run.
#[derive(Debug, Clone)]
pub struct ManifestStatistics {
    pub css_size_bytes: usize,
    pub minified_size_bytes: Option<usize>,
    /// Files that matched the input patterns.
    pub files_matched: usize,
    /// Distinct files in which some class occurs.
    pub files_with_classes: usize,
    pub processing_time_ms: Option<u64>,
    pub top_classes: Option<Vec<TopClass>>,
}

/// Metadata of the manifest.
#[derive(Debug, Clone)]
pub struct ManifestMetadata {
    pub version: String,
    /// When the manifest was generated, as an RFC 3339 time stamp.
    pub generated_at: String,
    pub files_processed: usize,
    pub classes_extracted: usize,
    pub obfuscation_enabled: bool,
    pub build_mode: Option<String>,
    pub extractor_version: Option<String>,
}

/// Number of classes listed among the most used.
pub const TOP_CLASS_LIMIT: usize = 10;

/// The path part of a location `path:line:column`: what precedes the
/// first colon.
pub open spec fn path_part(loc: Seq<char>) -> Seq<char>
    decreases loc.len(),
{
    if loc.len() == 0 || loc[0] == ':' {
        Seq::empty()
    } else {
        seq![loc[0]] + path_part(loc.drop_first())
    }
}

pub fn path_of_location(loc: &str) -> (r: String)
    ensures
        r@ == path_part(loc@),
{
    let v = chars_of(loc);
    let mut i: usize = 0;
    assert(loc@.skip(0) =~= loc@);
    assert(loc@.take(0) + path_part(loc@) =~= path_part(loc@));
    while i < v.len() && v[i] != ':'
        invariant
            v@ == loc@,
            i <= v@.len(),
            path_part(loc@) == loc@.take(i as int) + path_part(loc@.skip(i as int)),
        decreases v@.len() - i,
    {
        let ghost rest = loc@.skip(i as int);
        assert(rest.drop_first() =~= loc@.skip(i + 1));
        assert(loc@.take(i + 1) =~= loc@.take(i as int).push(loc@[i as int]));
        assert(loc@.take(i as int) + (seq![rest[0]] + path_part(rest.drop_first())) =~= loc@.take(i + 1) + path_part(loc@.skip(i + 1)));
        i = i + 1;
    }
    assert(loc@.take(i as int) + Seq::<char>::empty() =~= loc@.take(i as int));
    string_of(v.as_slice(), 0, i)
}

/// The distinct paths of a list of locations lists, in order of first
/// appearance.
pub open spec fn all_paths(groups: Seq<Seq<Seq<char>>>) -> Set<Seq<char>> {
    Set::new(|p: Seq<char>| exists|g: int, k: int| 0 <= g < groups.len() && 0 <= k < groups[g].len() && #[trigger] path_part(groups[g][k]) == p)
}

/// The candidates for the ranking: name, count, number of places.
pub open spec fn ranked_key(t: TopClass) -> (Seq<char>, usize, usize) {
    (t.name@, t.count, t.file_count)
}

/// `i` is the best candidate left: not taken, with the highest count, and
/// the earliest among equal counts.
pub open spec fn is_best(counts: Seq<usize>, taken: Set<int>, i: int) -> bool {
    &&& 0 <= i < counts.len()
    &&& !taken.contains(i)
    &&& forall|j: int|
        0 <= j < counts.len() && !taken.contains(j) ==> #[trigger] counts[j] < counts[i] || (counts[j]
            == counts[i] && j >= i)
}

/// The first `k` picks of the ranking, most used first.
pub open spec fn picks(counts: Seq<usize>, k: nat) -> Seq<int>
    decreases k,
{
    if k == 0 {
        Seq::empty()
    } else {
        let prev = picks(counts, (k - 1) as nat);
        prev.push(choose|i: int| is_best(counts, prev.to_set(), i))
    }
}

pub proof fn lemma_best_unique(counts: Seq<usize>, taken: Set<int>, i: int, j: int)
    requires
        is_best(counts, taken, i),
        is_best(counts, taken, j),
    ensures
        i == j,
{
    assert(counts[j] < counts[i] || (counts[j] == counts[i] && j >= i));
    assert(counts[i] < counts[j] || (counts[i] == counts[j] && i >= j));
}

/// The most used classes: at most `TOP_CLASS_LIMIT`, by count, highest
/// first, and among equal counts in the order given.
pub fn top_classes(candidates: &Vec<TopClass>) -> (r: Vec<TopClass>)
    ensures
        ({
            let counts = Seq::new(candidates@.len(), |i: int| candidates@[i].count);
            let m = if candidates@.len() < TOP_CLASS_LIMIT {
                candidates@.len()
            } else {
                TOP_CLASS_LIMIT as nat
            };
            &&& r@.len() == m
            &&& forall|k: int| 0 <= k < m ==> 0 <= picks(counts, m)[k] < candidates@.len() && ranked_key(#[trigger] r@[k]) == ranked_key(
                candidates@[picks(counts, m)[k]],
            )
        }),
{
    let ghost counts = Seq::new(candidates@.len(), |i: int| candidates@[i].count);
    let n = candidates.len();
    let m = if n < TOP_CLASS_LIMIT {
        n
    } else {
        TOP_CLASS_LIMIT
    };
    let mut taken: Vec<bool> = Vec::new();
    let mut q: usize = 0;
    while q < n
        invariant
            q <= n,
            taken@.len() == q,
            forall|k: int| 0 <= k < q ==> !#[trigger] taken@[k],
        decreases n - q,
    {
        taken.push(false);
        q = q + 1;
    }
    let mut r: Vec<TopClass> = Vec::new();
    let mut k: usize = 0;
    while k < m
        invariant
            n == candidates@.len(),
            counts == Seq::new(candidates@.len(), |i: int| candidates@[i].count),
            m <= n,
            m <= TOP_CLASS_LIMIT,
            k <= m,
            taken@.len() == n,
            r@.len() == k,
            forall|j: int| 0 <= j < n ==> (#[trigger] taken@[j] <==> picks(counts, k as nat).to_set().contains(j)),
            picks(counts, k as nat).len() == k,
            forall|a: int| 0 <= a < k ==> 0 <= #[trigger] picks(counts, k as nat)[a] < n,
            picks(counts, k as nat).no_duplicates(),
            forall|a: int| 0 <= a < k ==> ranked_key(#[trigger] r@[a]) == ranked_key(
                candidates@[picks(counts, k as nat)[a]],
            ),
        decreases m - k,
    {
        let ghost prev = picks(counts, k as nat);
        let mut best: usize = n;
        let mut j: usize = 0;
        while j < n
            invariant
                n == candidates@.len(),
                counts == Seq::new(candidates@.len(), |i: int| candidates@[i].count),
                taken@.len() == n,
                j <= n,
                best == n || (best < j && !taken@[best as int]),
                best == n ==> forall|x: int| 0 <= x < j ==> #[trigger] taken@[x],
                best < n ==> forall|x: int|
                    0 <= x < j && !taken@[x] ==> #[trigger] counts[x] < counts[best as int] || (
                    counts[x] == counts[best as int] && x >= best),
            decreases n - j,
        {
            if !taken[j] {
                if best == n || candidates[j].count > candidates[best].count {
                    best = j;
                }
            }
            j = j + 1;
        }
        proof {
            if best == n {
                assert forall|x: int| 0 <= x < n implies #[trigger] prev.to_set().contains(x) by {
                    assert(taken@[x]);
                }
                lemma_unique_len(prev, n as int);
            }
        }
        assert(best < n);
        assert(is_best(counts, prev.to_set(), best as int)) by {
            assert forall|x: int| 0 <= x < counts.len() && !prev.to_set().contains(x) implies #[trigger] counts[x] < counts[best as int] || (counts[x] == counts[best as int] && x >= best) by {
                assert(!taken@[x]);
            }
        }
        let ghost chosen = choose|i: int| is_best(counts, prev.to_set(), i);
        proof {
            lemma_best_unique(counts, prev.to_set(), chosen, best as int);
        }
        assert(picks(counts, (k + 1) as nat) == prev.push(best as int));
        taken.set(best, true);
        let c = &candidates[best];
        r.push(TopClass { name: c.name.clone(), count: c.count, file_count: c.file_count });
        k = k + 1;
        proof {
            let now = picks(counts, k as nat);
            assert(now == prev.push(best as int));
            assert forall|x: int| 0 <= x < n implies (#[trigger] taken@[x] <==> now.to_set().contains(x)) by {
                if now.to_set().contains(x) && x != best {
                    let a = choose|a: int| 0 <= a < now.len() && now[a] == x;
                    assert(prev[a] == x);
                    assert(prev.to_set().contains(x));
                }
                if prev.to_set().contains(x) {
                    let a = choose|a: int| 0 <= a < prev.len() && prev[a] == x;
                    assert(now[a] == x);
                }
                if x == best as int {
                    assert(now[k - 1] == x);
                }
            }
            assert(now.no_duplicates()) by {
                assert forall|a: int, b: int| 0 <= a < now.len() && 0 <= b < now.len() && a != b implies now[a] != now[b] by {
                    if a == k - 1 && b < k - 1 {
                        assert(prev.to_set().contains(prev[b]));
                    } else if b == k - 1 && a < k - 1 {
                        assert(prev.to_set().contains(prev[a]));
                    }
                }
            }
        }
    }
    r
}

/// Distinct values of `s`, all in `0..n`, are fewer than `n` when some
/// value of `0..n` is missing, and otherwise exactly `n`.
pub proof fn lemma_unique_len(s: Seq<int>, n: int)
    requires
        s.no_duplicates(),
        forall|a: int| 0 <= a < s.len() ==> 0 <= #[trigger] s[a] < n,
        forall|x: int| 0 <= x < n ==> #[trigger] s.to_set().contains(x),
        0 <= n,
    ensures
        s.len() >= n,
{
    let full = Set::new(|x: int| 0 <= x < n);
    assert(full =~= vstd::set_lib::set_int_range(0, n));
    vstd::set_lib::lemma_int_range(0, n);
    assert(full.subset_of(s.to_set()));
    s.unique_seq_to_set();
    vstd::set_lib::lemma_len_subset(full, s.to_set());
}


/// The classes of a manifest with their usage, in the order first added.
pub type ClassTable = IndexMap<String, ManifestClassInfo>;

/// What a class table holds: each class with its usage, in order.
pub uninterp spec fn table_entries(m: ClassTable) -> Seq<(Seq<char>, ManifestClassInfo)>;

/// The entries after storing `v` under `k`: the value of an entry with that
/// key is replaced in place, else the pair goes last.
pub open spec fn table_put(es: Seq<(Seq<char>, ManifestClassInfo)>, k: Seq<char>, v: ManifestClassInfo) -> Seq<(Seq<char>, ManifestClassInfo)> {
    if exists|i: int| 0 <= i < es.len() && #[trigger] es[i].0 == k {
        es.update(choose|i: int| 0 <= i < es.len() && #[trigger] es[i].0 == k, (k, v))
    } else {
        es.push((k, v))
    }
}

/// Relies on `IndexMap::new`: an empty table.
#[verifier::external_body]
fn table_new() -> (r: ClassTable)
    ensures
        table_entries(r).len() == 0,
{
    IndexMap::new()
}

/// Relies on `IndexMap::len`: the number of entries.
#[verifier::external_body]
fn table_len(m: &ClassTable) -> (r: usize)
    ensures
        r == table_entries(*m).len(),
{
    m.len()
}

/// Relies on `IndexMap::get_index_of`: the position of the key equal to
/// `key`, if any.
#[verifier::external_body]
fn table_index_of(m: &ClassTable, key: &str) -> (r: Option<usize>)
    ensures
        match r {
            Some(i) => i < table_entries(*m).len() && table_entries(*m)[i as int].0 == key@,
            None => forall|i: int| 0 <= i < table_entries(*m).len() ==> #[trigger] table_entries(*m)[i].0 != key@,
        },
{
    m.get_index_of(key)
}

/// Relies on `IndexMap::get_index`: the entry at a position.
#[verifier::external_body]
fn table_at(m: &ClassTable, index: usize) -> (r: (&String, &ManifestClassInfo))
    requires
        index < table_entries(*m).len(),
    ensures
        r.0@ == table_entries(*m)[index as int].0,
        *r.1 == table_entries(*m)[index as int].1,
{
    m.get_index(index).unwrap()
}

/// Relies on `IndexMap::insert`: the value under an equal key is replaced,
/// the key keeping its place; otherwise the pair goes last.
#[verifier::external_body]
fn table_insert(m: &mut ClassTable, key: String, value: ManifestClassInfo)
    ensures
        table_entries(*final(m)) == table_put(table_entries(*old(m)), key@, value),
{
    m.insert(key, value);
}

/// The manifest of a run.
pub struct Manifest {
    pub metadata: ManifestMetadata,
    /// The classes with their usage, in the order first added.
    pub classes: ClassTable,
    pub mappings: Option<Vec<(String, String)>>,
    pub statistics: Option<ManifestStatistics>,
}

/// The paths collected so far from the first `g` groups and the first `k`
/// locations of group `g`.
pub open spec fn paths_upto(groups: Seq<Seq<Seq<char>>>, g: int, k: int) -> Set<Seq<char>> {
    Set::new(|p: Seq<char>| exists|a: int, b: int| 0 <= a <= g && 0 <= a < groups.len() && 0 <= b < groups[a].len()
        && (a < g || b < k) && #[trigger] path_part(groups[a][b]) == p)
}

impl Manifest {
    /// The classes, in the order first added, as (name, count, places).
    pub closed spec fn entries(&self) -> Seq<Entry> {
        let es = table_entries(self.classes);
        Seq::new(es.len(), |i: int| (es[i].0, es[i].1.count as nat, views(es[i].1.files@)))
    }

    /// No two entries share a key.
    pub closed spec fn wf(&self) -> bool {
        let es = table_entries(self.classes);
        forall|i: int, j: int| 0 <= i < es.len() && 0 <= j < es.len() && i != j ==> #[trigger] es[i].0 != #[trigger] es[j].0
    }

    /// The locations of each class, in order.
    pub closed spec fn groups(&self) -> Seq<Seq<Seq<char>>> {
        let es = table_entries(self.classes);
        Seq::new(es.len(), |i: int| views(es[i].1.files@))
    }

    /// A manifest with no class yet, generated at `generated_at` by the
    /// given version of the extractor.
    pub fn new(generated_at: String, extractor_version: String) -> (r: Self)
        ensures
            r.wf(),
            r.entries().len() == 0,
            r.metadata.version@ == "1.0.0"@,
            r.metadata.generated_at == generated_at,
            r.metadata.files_processed == 0,
            r.metadata.classes_extracted == 0,
            !r.metadata.obfuscation_enabled,
            r.metadata.build_mode is None,
            r.metadata.extractor_version == Some(extractor_version),
            r.mappings is None,
            r.statistics is None,
    {
        Manifest {
            metadata: ManifestMetadata {
                version: String::from_str("1.0.0"),
                generated_at,
                files_processed: 0,
                classes_extracted: 0,
                obfuscation_enabled: false,
                build_mode: None,
                extractor_version: Some(extractor_version),
            },
            classes: table_new(),
            mappings: None,
            statistics: None,
        }
    }

    /// Number of classes.
    pub fn class_count(&self) -> (r: usize)
        ensures
            r == self.entries().len(),
    {
        table_len(&self.classes)
    }

    /// The information on one class.
    pub fn class_info(&self, class_name: &str) -> (r: Option<&ManifestClassInfo>)
        requires
            self.wf(),
        ensures
            match r {
                Some(info) => exists|i: int| 0 <= i < self.entries().len() && #[trigger] self.entries()[i] == (class_name@, info.count as nat, views(info.files@)),
                None => forall|i: int| 0 <= i < self.entries().len() ==> #[trigger] self.entries()[i].0 != class_name@,
            },
    {
        match table_index_of(&self.classes, class_name) {
            Some(i) => {
                let (_, info) = table_at(&self.classes, i);
                assert(self.entries()[i as int] == (class_name@, info.count as nat, views(info.files@)));
                Some(info)
            },
            None => {
                assert forall|i: int| 0 <= i < self.entries().len() implies #[trigger] self.entries()[i].0 != class_name@ by {
                    assert(self.entries()[i].0 == table_entries(self.classes)[i].0);
                }
                None
            },
        }
    }

    proof fn lemma_put_at(&self, i: int, k: Seq<char>, v: ManifestClassInfo)
        requires
            self.wf(),
            0 <= i < table_entries(self.classes).len(),
            table_entries(self.classes)[i].0 == k,
        ensures
            table_put(table_entries(self.classes), k, v) == table_entries(self.classes).update(i, (k, v)),
            slot(self.entries(), k) == Some(i),
    {
        let es = table_entries(self.classes);
        let c = choose|j: int| 0 <= j < es.len() && #[trigger] es[j].0 == k;
        assert(es[c].0 == es[i].0);
        let rs = self.entries();
        assert(rs[i].0 == k);
        let d = choose|j: int| 0 <= j < rs.len() && #[trigger] rs[j].0 == k;
        assert(rs[d].0 == es[d].0);
    }

    proof fn lemma_put_new(&self, k: Seq<char>, v: ManifestClassInfo)
        requires
            forall|i: int| 0 <= i < table_entries(self.classes).len() ==> #[trigger] table_entries(self.classes)[i].0 != k,
        ensures
            table_put(table_entries(self.classes), k, v) == table_entries(self.classes).push((k, v)),
            slot(self.entries(), k) is None,
    {
        let rs = self.entries();
        if exists|j: int| 0 <= j < rs.len() && #[trigger] rs[j].0 == k {
            let d = choose|j: int| 0 <= j < rs.len() && #[trigger] rs[j].0 == k;
            assert(rs[d].0 == table_entries(self.classes)[d].0);
        }
    }

    /// Counts one more occurrence of `class_name` at `file_location`.
    pub fn add_class(&mut self, class_name: String, file_location: String)
        requires
            old(self).wf(),
        ensures
            final(self).wf(),
            final(self).entries() == step(old(self).entries(), class_name@, file_location@),
            final(self).metadata == old(self).metadata,
            final(self).mappings == old(self).mappings,
    {
        let ghost before = self.entries();
        let ghost es = table_entries(self.classes);
        match table_index_of(&self.classes, class_name.as_str()) {
            Some(i) => {
                proof {
                    self.lemma_put_at(i as int, class_name@, es[i as int].1);
                }
                let (_, info) = table_at(&self.classes, i);
                let count = if info.count < usize::MAX {
                    info.count + 1
                } else {
                    info.count
                };
                let mut files = copy_strings(&info.files);
                let ghost files_before = views(info.files@);
                match position_of(&files, file_location.as_str()) {
                    Some(k) => {
                        assert(files_before[k as int] == file_location@);
                        assert(files_before.contains(file_location@));
                    },
                    None => {
                        assert(!files_before.contains(file_location@));
                        let ghost fb = files@;
                        files.push(file_location);
                        assert(views(files@) =~= views(fb).push(file_location@));
                    },
                }
                let size_bytes = info.size_bytes;
                let value = ManifestClassInfo { count, files, size_bytes };
                let ghost v = value;
                table_insert(&mut self.classes, class_name, value);
                proof {
                    self.lemma_put_at_after(es, i as int, v);
                }
                assert(self.entries() =~= step(before, es[i as int].0, file_location@));
            },
            None => {
                let ghost name_view = class_name@;
                let ghost loc_view = file_location@;
                let mut files: Vec<String> = Vec::new();
                files.push(file_location);
                let value = ManifestClassInfo { count: 1, files, size_bytes: None };
                let ghost v = value;
                proof {
                    self.lemma_put_new(name_view, v);
                }
                table_insert(&mut self.classes, class_name, value);
                assert(table_entries(self.classes) =~= es.push((name_view, v)));
                assert(views(v.files@) =~= seq![loc_view]);
                assert(self.entries() =~= step(before, name_view, loc_view));
            },
        }
    }

    proof fn lemma_put_at_after(&self, es: Seq<(Seq<char>, ManifestClassInfo)>, i: int, v: ManifestClassInfo)
        requires
            0 <= i < es.len(),
            forall|a: int, b: int| 0 <= a < es.len() && 0 <= b < es.len() && a != b ==> #[trigger] es[a].0 != #[trigger] es[b].0,
            table_entries(self.classes) == es.update(i, (es[i].0, v)),
        ensures
            self.wf(),
    {
        let nes = table_entries(self.classes);
        assert forall|a: int, b: int| 0 <= a < nes.len() && 0 <= b < nes.len() && a != b implies #[trigger] nes[a].0 != #[trigger] nes[b].0 by {
            assert(nes[a].0 == es[a].0);
            assert(nes[b].0 == es[b].0);
        }
    }

    /// Stores a class with its locations; its count is the number of
    /// locations, and an earlier record of the same class is replaced.
    pub fn put_class(&mut self, class_name: String, files: Vec<String>)
        requires
            old(self).wf(),
        ensures
            final(self).wf(),
            final(self).entries() == put(old(self).entries(), (class_name@, files@.len(), views(files@))),
            final(self).metadata == old(self).metadata,
            final(self).mappings == old(self).mappings,
    {
        let ghost before = self.entries();
        let ghost es = table_entries(self.classes);
        let ghost e = (class_name@, files@.len(), views(files@));
        let n = files.len();
        let value = ManifestClassInfo { count: n, files, size_bytes: None };
        let ghost v = value;
        match table_index_of(&self.classes, class_name.as_str()) {
            Some(i) => {
                proof {
                    self.lemma_put_at(i as int, class_name@, v);
                }
                table_insert(&mut self.classes, class_name, value);
                proof {
                    self.lemma_put_at_after(es, i as int, v);
                }
                assert(self.entries() =~= put(before, e));
            },
            None => {
                proof {
                    self.lemma_put_new(class_name@, v);
                }
                let ghost k = class_name@;
                table_insert(&mut self.classes, class_name, value);
                assert(table_entries(self.classes) =~= es.push((k, v)));
                assert(self.entries() =~= put(before, e));
            },
        }
    }

    /// Records the aliases; obfuscation counts as enabled from then on.
    pub fn set_mappings(&mut self, mappings: Vec<(String, String)>)
        ensures
            final(self).metadata.obfuscation_enabled,
            final(self).metadata.files_processed == old(self).metadata.files_processed,
            final(self).metadata.classes_extracted == old(self).metadata.classes_extracted,
            final(self).mappings == Some(mappings),
            final(self).entries() == old(self).entries(),
            final(self).groups() == old(self).groups(),
            final(self).wf() == old(self).wf(),
    {
        self.metadata.obfuscation_enabled = true;
        self.mappings = Some(mappings);
    }

    /// Number of distinct paths among the locations of all classes.
    pub fn count_paths(&self) -> (r: usize)
        requires
            self.wf(),
        ensures
            r == all_paths(self.groups()).len(),
    {
        let ghost groups = self.groups();
        let mut seen: Vec<String> = Vec::new();
        let n = table_len(&self.classes);
        let mut g: usize = 0;
        assert(views(seen@).to_set() =~= paths_upto(groups, 0, 0));
        while g < n
            invariant
                groups == self.groups(),
                n == groups.len(),
                g <= n,
                views(seen@).no_duplicates(),
                views(seen@).to_set() == paths_upto(groups, g as int, 0),
            decreases n - g,
        {
            let (_, info) = table_at(&self.classes, g);
            let files = &info.files;
            assert(views(files@) == groups[g as int]);
            let mut k: usize = 0;
            while k < files.len()
                invariant
                    groups == self.groups(),
                    n == groups.len(),
                    g < n,
                    views(files@) == groups[g as int],
                    k <= files@.len(),
                    views(seen@).no_duplicates(),
                    views(seen@).to_set() == paths_upto(groups, g as int, k as int),
                decreases files@.len() - k,
            {
                let p = path_of_location(files[k].as_str());
                let ghost added = path_part(groups[g as int][k as int]);
                assert(groups[g as int][k as int] == files@[k as int]@);
                assert(p@ == added);
                let ghost before = views(seen@);
                match position_of(&seen, p.as_str()) {
                    Some(q) => {
                        assert(before[q as int] == added);
                        assert(paths_upto(groups, g as int, k + 1) =~= paths_upto(groups, g as int, k as int)) by {
                            assert(paths_upto(groups, g as int, k as int).contains(added));
                        }
                    },
                    None => {
                        seen.push(p);
                        assert(views(seen@) =~= before.push(added));
                        assert(!before.contains(added));
                        proof {
                            crate::text::lemma_push_to_set(before, added);
                        }
                        assert(paths_upto(groups, g as int, k + 1) =~= paths_upto(groups, g as int, k as int).insert(added));
                    },
                }
                k = k + 1;
            }
            assert(paths_upto(groups, g as int, files@.len() as int) =~= paths_upto(groups, g + 1, 0));
            g = g + 1;
        }
        assert(paths_upto(groups, g as int, 0) =~= all_paths(groups));
        proof {
            views(seen@).unique_seq_to_set();
        }
        seen.len()
    }

    /// Fills in the statistics: sizes, time, the number of files matched and
    /// of distinct files holding classes, and the most used classes.
    pub fn calculate_statistics(&mut self, css_size: usize, minified_size: Option<usize>, processing_time_ms: Option<u64>)
        requires
            old(self).wf(),
        ensures
            final(self).wf(),
            final(self).entries() == old(self).entries(),
            final(self).metadata == old(self).metadata,
            final(self).mappings == old(self).mappings,
            final(self).statistics matches Some(s) && s.css_size_bytes == css_size && s.minified_size_bytes
                == minified_size && s.processing_time_ms == processing_time_ms && s.files_matched
                == old(self).metadata.files_processed && s.files_with_classes == all_paths(old(self).groups()).len()
                && s.top_classes is Some,
            final(self).statistics matches Some(s) && s.top_classes matches Some(t) && ranks_top(*old(self), t@),
    {
        let files_with_classes = self.count_paths();
        let ghost es = table_entries(self.classes);
        let n = table_len(&self.classes);
        let mut candidates: Vec<TopClass> = Vec::new();
        let mut i: usize = 0;
        while i < n
            invariant
                es == table_entries(self.classes),
                n == es.len(),
                i <= n,
                candidates@.len() == i,
                forall|k: int| 0 <= k < i ==> ranked_key(#[trigger] candidates@[k]) == (es[k].0, es[k].1.count, es[k].1.files@.len() as usize),
            decreases n - i,
        {
            let (name, info) = table_at(&self.classes, i);
            candidates.push(TopClass { name: name.clone(), count: info.count, file_count: info.files.len() });
            i = i + 1;
        }
        let top = top_classes(&candidates);
        let ghost counts = Seq::new(candidates@.len(), |i: int| candidates@[i].count);
        assert(counts =~= class_counts(*self));
        proof {
            let k = if n < TOP_CLASS_LIMIT { n as nat } else { TOP_CLASS_LIMIT as nat };
            assert forall|a: int| 0 <= a < k implies ({
                let p = picks(class_counts(*self), k)[a];
                ranked_key(#[trigger] top@[a]) == (es[p].0, es[p].1.count, es[p].1.files@.len() as usize)
            }) by {
                let p = picks(counts, k)[a];
                assert(ranked_key(top@[a]) == ranked_key(candidates@[p]));
                assert(0 <= p < candidates@.len());
            }
        }
        self.statistics = Some(ManifestStatistics {
            css_size_bytes: css_size,
            minified_size_bytes: minified_size,
            files_matched: self.metadata.files_processed,
            files_with_classes,
            processing_time_ms,
            top_classes: Some(top),
        });
    }
}

/// The records after storing `e` under its name: an earlier record of that
/// name is replaced in place, else `e` comes last.
pub open spec fn put(rs: Seq<Entry>, e: Entry) -> Seq<Entry> {
    match slot(rs, e.0) {
        Some(i) => rs.update(i, e),
        None => rs.push(e),
    }
}

/// A class with its locations, as a record: the count is the number of
/// locations.
pub open spec fn record_of(c: (String, Vec<String>)) -> Entry {
    (c.0@, c.1@.len(), views(c.1@))
}

/// The records after storing each class of `cs`, in order.
pub open spec fn put_all(rs: Seq<Entry>, cs: Seq<(String, Vec<String>)>) -> Seq<Entry>
    decreases cs.len(),
{
    if cs.len() == 0 {
        rs
    } else {
        put(put_all(rs, cs.drop_last()), record_of(cs.last()))
    }
}

/// Storing classes of distinct names into no records lists them in order.
pub proof fn lemma_put_all_distinct(cs: Seq<(String, Vec<String>)>)
    requires
        forall|i: int, j: int| 0 <= i < cs.len() && 0 <= j < cs.len() && i != j ==> #[trigger] cs[i].0@ != #[trigger] cs[j].0@,
    ensures
        put_all(Seq::empty(), cs) == Seq::new(cs.len(), |i: int| record_of(cs[i])),
    decreases cs.len(),
{
    if cs.len() > 0 {
        let prev = cs.drop_last();
        assert forall|i: int, j: int| 0 <= i < prev.len() && 0 <= j < prev.len() && i != j implies #[trigger] prev[i].0@ != #[trigger] prev[j].0@ by {
            assert(prev[i] == cs[i] && prev[j] == cs[j]);
        }
        lemma_put_all_distinct(prev);
        let rs = put_all(Seq::<Entry>::empty(), prev);
        assert(slot(rs, cs.last().0@) is None) by {
            if exists|k: int| 0 <= k < rs.len() && #[trigger] rs[k].0 == cs.last().0@ {
                let k = choose|k: int| 0 <= k < rs.len() && #[trigger] rs[k].0 == cs.last().0@;
                assert(rs[k] == record_of(prev[k]));
                assert(cs[k].0@ != cs[cs.len() - 1].0@);
            }
        }
        assert(put_all(Seq::<Entry>::empty(), cs) =~= Seq::new(cs.len(), |i: int| record_of(cs[i])));
    }
}

/// A copy of a list of strings.
pub fn copy_strings(v: &Vec<String>) -> (r: Vec<String>)
    ensures
        r@.len() == v@.len(),
        views(r@) == views(v@),
{
    let mut r: Vec<String> = Vec::new();
    let mut i: usize = 0;
    while i < v.len()
        invariant
            i <= v@.len(),
            r@.len() == i,
            forall|k: int| 0 <= k < i ==> #[trigger] r@[k]@ == v@[k]@,
        decreases v@.len() - i,
    {
        r.push(v[i].clone());
        i = i + 1;
    }
    assert(views(r@) =~= views(v@));
    r
}

/// The counts of the classes of a manifest, in order.
pub open spec fn class_counts(m: Manifest) -> Seq<usize> {
    Seq::new(table_entries(m.classes).len(), |i: int| table_entries(m.classes)[i].1.count)
}

/// `t` lists the most used classes of `m`: at most `TOP_CLASS_LIMIT`, by
/// count, highest first, equal counts in manifest order, each with its
/// name, count and number of places.
pub open spec fn ranks_top(m: Manifest, t: Seq<TopClass>) -> bool {
    let es = table_entries(m.classes);
    let n = es.len();
    let k = if n < TOP_CLASS_LIMIT {
        n
    } else {
        TOP_CLASS_LIMIT as nat
    };
    &&& t.len() == k
    &&& forall|a: int| 0 <= a < k ==> ({
        let p = picks(class_counts(m), k)[a];
        ranked_key(#[trigger] t[a]) == (es[p].0, es[p].1.count, es[p].1.files@.len() as usize)
    })
}

/// Builds a manifest step by step.
pub struct ManifestBuilder {
    manifest: Manifest,
}

impl ManifestBuilder {
    pub closed spec fn current(&self) -> Manifest {
        self.manifest
    }

    pub fn new(generated_at: String, extractor_version: String) -> (r: Self)
        ensures
            r.current().wf(),
            r.current().entries().len() == 0,
            r.current().metadata.files_processed == 0,
            !r.current().metadata.obfuscation_enabled,
            r.current().mappings is None,
    {
        ManifestBuilder { manifest: Manifest::new(generated_at, extractor_version) }
    }

    pub fn with_build_mode(self, mode: String) -> (r: Self)
        ensures
            r.current().metadata.build_mode == Some(mode),
            r.current().entries() == self.current().entries(),
            r.current().wf() == self.current().wf(),
            r.current().metadata.files_processed == self.current().metadata.files_processed,
            r.current().metadata.classes_extracted == self.current().metadata.classes_extracted,
            r.current().metadata.obfuscation_enabled == self.current().metadata.obfuscation_enabled,
            r.current().mappings == self.current().mappings,
    {
        let mut b = self;
        b.manifest.metadata.build_mode = Some(mode);
        b
    }

    pub fn with_files_processed(self, count: usize) -> (r: Self)
        ensures
            r.current().metadata.files_processed == count,
            r.current().metadata.classes_extracted == self.current().metadata.classes_extracted,
            r.current().metadata.build_mode == self.current().metadata.build_mode,
            r.current().entries() == self.current().entries(),
            r.current().wf() == self.current().wf(),
            r.current().metadata.obfuscation_enabled == self.current().metadata.obfuscation_enabled,
            r.current().mappings == self.current().mappings,
    {
        let mut b = self;
        b.manifest.metadata.files_processed = count;
        b
    }

    pub fn with_classes_extracted(self, count: usize) -> (r: Self)
        ensures
            r.current().metadata.classes_extracted == count,
            r.current().metadata.files_processed == self.current().metadata.files_processed,
            r.current().metadata.build_mode == self.current().metadata.build_mode,
            r.current().entries() == self.current().entries(),
            r.current().wf() == self.current().wf(),
            r.current().metadata.obfuscation_enabled == self.current().metadata.obfuscation_enabled,
            r.current().mappings == self.current().mappings,
    {
        let mut b = self;
        b.manifest.metadata.classes_extracted = count;
        b
    }

    /// Adds each class with its locations; its count is the number of
    /// locations given.
    pub fn with_class_info(self, classes: Vec<(String, Vec<String>)>) -> (r: Self)
        requires
            self.current().wf(),
        ensures
            r.current().wf(),
            r.current().metadata == self.current().metadata,
            r.current().mappings == self.current().mappings,
            r.current().entries() == put_all(self.current().entries(), classes@),
    {
        let mut b = self;
        let ghost start = b.manifest.entries();
        let mut i: usize = 0;
        assert(classes@.take(0) =~= Seq::<(String, Vec<String>)>::empty());
        while i < classes.len()
            invariant
                b.manifest.wf(),
                b.manifest.metadata == self.current().metadata,
                b.manifest.mappings == self.current().mappings,
                i <= classes@.len(),
                b.manifest.entries() == put_all(start, classes@.take(i as int)),
            decreases classes@.len() - i,
        {
            assert(classes@.take(i + 1).drop_last() =~= classes@.take(i as int));
            assert(classes@.take(i + 1).last() == classes@[i as int]);
            let files = copy_strings(&classes[i].1);
            b.manifest.put_class(classes[i].0.clone(), files);
            i = i + 1;
        }
        assert(classes@.take(classes@.len() as int) =~= classes@);
        b
    }

    pub fn with_mappings(self, mappings: Vec<(String, String)>) -> (r: Self)
        ensures
            r.current().metadata.obfuscation_enabled,
            r.current().mappings == Some(mappings),
            r.current().entries() == self.current().entries(),
            r.current().wf() == self.current().wf(),
            r.current().metadata.files_processed == self.current().metadata.files_processed,
            r.current().metadata.classes_extracted == self.current().metadata.classes_extracted,
    {
        let mut b = self;
        b.manifest.set_mappings(mappings);
        b
    }

    /// The manifest, with its statistics.
    pub fn build(self, css_size: usize, minified_size: Option<usize>, processing_time_ms: Option<u64>) -> (r: Manifest)
        requires
            self.current().wf(),
        ensures
            r.wf(),
            r.entries() == self.current().entries(),
            r.metadata == self.current().metadata,
            r.mappings == self.current().mappings,
            r.statistics matches Some(s) && s.css_size_bytes == css_size && s.minified_size_bytes
                == minified_size && s.files_matched == self.current().metadata.files_processed,
            r.statistics matches Some(s) && s.top_classes matches Some(t) && ranks_top(self.current(), t@),
    {
        let mut m = self.manifest;
        m.calculate_statistics(css_size, minified_size, processing_time_ms);
        m
    }
}

} // verus!
