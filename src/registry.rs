//! The class registry: every class seen in a run, how often, and in which
//! files, kept in the order classes were first seen.
use vstd::prelude::*;
use indexmap::IndexMap;
use crate::text::{position_of, views};

verus! {

#[verifier::external_type_specification]
#[verifier::external_body]
#[verifier::reject_recursive_types(K)]
#[verifier::reject_recursive_types(V)]
#[verifier::reject_recursive_types(S)]
pub struct ExIndexMap<K, V, S>(IndexMap<K, V, S>);

/// An index from class names to positions.
pub type ClassIndex = IndexMap<String, usize>;

/// What an index map from class names to positions holds.
pub uninterp spec fn index_entries(m: ClassIndex) -> Map<Seq<char>, usize>;

/// Relies on `IndexMap::new`: an empty map.
#[verifier::external_body]
fn index_new() -> (r: ClassIndex)
    ensures
        index_entries(r).dom() == Set::<Seq<char>>::empty(),
{
    IndexMap::new()
}

/// Relies on `IndexMap::get`: the value stored under the key equal to `key`.
#[verifier::external_body]
fn index_get(m: &ClassIndex, key: &str) -> (r: Option<usize>)
    ensures
        r == (if index_entries(*m).contains_key(key@) {
            Some(index_entries(*m)[key@])
        } else {
            None
        }),
{
    m.get(key).copied()
}

/// Relies on `IndexMap::insert`: stores `value` under `key`, replacing the
/// value stored under an equal key.
#[verifier::external_body]
fn index_insert(m: &mut ClassIndex, key: String, value: usize)
    ensures
        index_entries(*final(m)) == index_entries(*old(m)).insert(key@, value),
{
    m.insert(key, value);
}

/// Everything known of one class.
#[derive(Debug, Clone)]
pub struct ClassInfo {
    /// The class as written.
    pub original: String,
    /// Its alias, once obfuscation has run.
    pub obfuscated: Option<String>,
    /// Its occurrences over all files.
    pub count: usize,
    /// The files it occurs in, each once, in the order first seen.
    pub files: Vec<String>,
}

/// A class record as a value: name, count, files.
pub type Entry = (Seq<char>, nat, Seq<Seq<char>>);

pub open spec fn entry_of(c: ClassInfo) -> Entry {
    (c.original@, c.count as nat, views(c.files@))
}

pub open spec fn entries_of(v: Seq<ClassInfo>) -> Seq<Entry> {
    Seq::new(v.len(), |i: int| entry_of(v[i]))
}

/// A count one higher, kept at the largest machine size.
pub open spec fn bump(n: nat) -> nat {
    if n < usize::MAX {
        n + 1
    } else {
        n
    }
}

/// Position of the record for `name`, if any.
pub open spec fn slot(rs: Seq<Entry>, name: Seq<char>) -> Option<int> {
    if exists|i: int| 0 <= i < rs.len() && #[trigger] rs[i].0 == name {
        Some(choose|i: int| 0 <= i < rs.len() && #[trigger] rs[i].0 == name)
    } else {
        None
    }
}

/// The registry after one more occurrence of `name` in `file`.
pub open spec fn step(rs: Seq<Entry>, name: Seq<char>, file: Seq<char>) -> Seq<Entry> {
    match slot(rs, name) {
        Some(i) => rs.update(
            i,
            (
                name,
                bump(rs[i].1),
                if rs[i].2.contains(file) {
                    rs[i].2
                } else {
                    rs[i].2.push(file)
                },
            ),
        ),
        None => rs.push((name, 1nat, seq![file])),
    }
}

/// The registry built from a sequence of (class, file) occurrences.
pub open spec fn tally(events: Seq<(Seq<char>, Seq<char>)>) -> Seq<Entry>
    decreases events.len(),
{
    if events.len() == 0 {
        Seq::empty()
    } else {
        let e = events.last();
        step(tally(events.drop_last()), e.0, e.1)
    }
}

/// How many occurrences name `name`.
pub open spec fn occurrences(events: Seq<(Seq<char>, Seq<char>)>, name: Seq<char>) -> nat
    decreases events.len(),
{
    if events.len() == 0 {
        0
    } else {
        occurrences(events.drop_last(), name) + (if events.last().0 == name {
            1nat
        } else {
            0nat
        })
    }
}

pub open spec fn distinct_names(rs: Seq<Entry>) -> bool {
    forall|i: int, j: int| 0 <= i < rs.len() && 0 <= j < rs.len() && i != j ==> #[trigger] rs[i].0 != #[trigger] rs[j].0
}

pub open spec fn no_dups(s: Seq<Seq<char>>) -> bool {
    forall|i: int, j: int| 0 <= i < s.len() && 0 <= j < s.len() && i != j ==> #[trigger] s[i] != #[trigger] s[j]
}

/// The smaller of `n` and the largest machine size.
pub open spec fn capped(n: nat) -> nat {
    if n < usize::MAX {
        n
    } else {
        usize::MAX as nat
    }
}

/// The registry's law: names are distinct; a class's count is the number
/// of its occurrences (capped at the machine size); its files are exactly
/// the files it occurs in, each listed once; every occurring class has a
/// record.
pub open spec fn tally_law(events: Seq<(Seq<char>, Seq<char>)>) -> bool {
    let rs = tally(events);
    &&& distinct_names(rs)
    &&& forall|i: int| 0 <= i < rs.len() ==> #[trigger] rs[i].1 == capped(occurrences(events, rs[i].0))
    &&& forall|i: int| 0 <= i < rs.len() ==> no_dups(#[trigger] rs[i].2)
    &&& forall|i: int, f: Seq<char>|
        0 <= i < rs.len() ==> (#[trigger] rs[i].2.contains(f) <==> events.contains((rs[i].0, f)))
    &&& forall|k: int|
        0 <= k < events.len() ==> exists|i: int| 0 <= i < rs.len() && #[trigger] rs[i].0 == (
        #[trigger] events[k]).0
}

pub proof fn lemma_occurrences_absent(events: Seq<(Seq<char>, Seq<char>)>, name: Seq<char>)
    requires
        forall|k: int| 0 <= k < events.len() ==> (#[trigger] events[k]).0 != name,
    ensures
        occurrences(events, name) == 0,
    decreases events.len(),
{
    if events.len() > 0 {
        assert forall|k: int| 0 <= k < events.drop_last().len() implies (#[trigger] events.drop_last()[k]).0 != name by {
            assert(events.drop_last()[k] == events[k]);
        }
        lemma_occurrences_absent(events.drop_last(), name);
    }
}

pub proof fn lemma_contains_last<A>(s: Seq<A>, x: A)
    requires
        s.len() > 0,
    ensures
        s.contains(x) <==> (s.drop_last().contains(x) || x == s.last()),
{
    if s.contains(x) {
        let k = choose|k: int| 0 <= k < s.len() && s[k] == x;
        if k < s.len() - 1 {
            assert(s.drop_last()[k] == x);
        }
    }
    if s.drop_last().contains(x) {
        let k = choose|k: int| 0 <= k < s.drop_last().len() && s.drop_last()[k] == x;
        assert(s[k] == x);
    }
    if x == s.last() {
        assert(s[s.len() - 1] == x);
    }
}

pub proof fn lemma_push_contains<A>(s: Seq<A>, a: A, x: A)
    ensures
        s.push(a).contains(x) <==> (s.contains(x) || x == a),
        s.contains(a) ==> (s.contains(x) <==> (s.contains(x) || x == a)),
{
    lemma_contains_last(s.push(a), x);
    assert(s.push(a).drop_last() =~= s);
}

/// Merging occurrences into the registry obeys the registry's law, in
/// whatever order the occurrences arrive from the files.
pub proof fn tally_dedups(events: Seq<(Seq<char>, Seq<char>)>)
    ensures
        tally_law(events),
    decreases events.len(),
{
    if events.len() > 0 {
        let prev = events.drop_last();
        tally_dedups(prev);
        let rs0 = tally(prev);
        let e = events.last();
        let rs = tally(events);
        assert(rs == step(rs0, e.0, e.1));
        assert forall|k: int| 0 <= k < prev.len() implies #[trigger] prev[k] == events[k] by {}
        match slot(rs0, e.0) {
            Some(j) => {
                assert(0 <= j < rs0.len() && rs0[j].0 == e.0);
                assert forall|i: int| 0 <= i < rs.len() implies #[trigger] rs[i].1 == capped(occurrences(events, rs[i].0)) by {
                    if i != j {
                        assert(rs[i] == rs0[i]);
                        assert(rs0[i].0 != e.0);
                    }
                }
                assert forall|i: int| 0 <= i < rs.len() implies no_dups(#[trigger] rs[i].2) by {
                    if i == j {
                        assert(no_dups(rs0[j].2));
                    } else {
                        assert(rs[i] == rs0[i]);
                    }
                }
                assert forall|i: int, f: Seq<char>| 0 <= i < rs.len() implies (#[trigger] rs[i].2.contains(f) <==> events.contains((rs[i].0, f))) by {
                    lemma_contains_last(events, (rs[i].0, f));
                    if i != j {
                        assert(rs[i] == rs0[i]);
                    } else {
                        lemma_push_contains(rs0[j].2, e.1, f);
                    }
                }
                assert forall|k: int| 0 <= k < events.len() implies exists|i: int| 0 <= i < rs.len() && #[trigger] rs[i].0 == (#[trigger] events[k]).0 by {
                    if k < prev.len() {
                        assert(prev[k] == events[k]);
                        let i = choose|i: int| 0 <= i < rs0.len() && #[trigger] rs0[i].0 == (#[trigger] prev[k]).0;
                        assert(rs[i].0 == rs0[i].0);
                    } else {
                        assert(rs[j].0 == events[k].0);
                    }
                }
            },
            None => {
                assert forall|k: int| 0 <= k < prev.len() implies (#[trigger] prev[k]).0 != e.0 by {
                    let i = choose|i: int| 0 <= i < rs0.len() && #[trigger] rs0[i].0 == (#[trigger] prev[k]).0;
                }
                lemma_occurrences_absent(prev, e.0);
                let n = rs0.len() as int;
                assert forall|i: int| 0 <= i < rs.len() implies #[trigger] rs[i].1 == capped(occurrences(events, rs[i].0)) by {
                    if i < n {
                        assert(rs[i] == rs0[i]);
                    }
                }
                assert forall|i: int| 0 <= i < rs.len() implies no_dups(#[trigger] rs[i].2) by {
                    if i < n {
                        assert(rs[i] == rs0[i]);
                    }
                }
                assert forall|i: int, f: Seq<char>| 0 <= i < rs.len() implies (#[trigger] rs[i].2.contains(f) <==> events.contains((rs[i].0, f))) by {
                    lemma_contains_last(events, (rs[i].0, f));
                    if i < n {
                        assert(rs[i] == rs0[i]);
                    } else {
                        assert(rs[i].2 == seq![e.1]);
                        if rs[i].2.contains(f) {
                            assert(f == e.1);
                        }
                        if f == e.1 {
                            assert(rs[i].2[0] == f);
                        }
                    }
                }
                assert forall|k: int| 0 <= k < events.len() implies exists|i: int| 0 <= i < rs.len() && #[trigger] rs[i].0 == (#[trigger] events[k]).0 by {
                    if k < prev.len() {
                        assert(prev[k] == events[k]);
                        let i = choose|i: int| 0 <= i < rs0.len() && #[trigger] rs0[i].0 == (#[trigger] prev[k]).0;
                        assert(rs[i].0 == rs0[i].0);
                    } else {
                        assert(rs[n].0 == events[k].0);
                    }
                }
            },
        }
    }
}

/// The registry of classes, in the order they were first seen.
pub struct ClassRegistry {
    index: ClassIndex,
    classes: Vec<ClassInfo>,
}

impl ClassRegistry {
    /// The records, as values.
    pub closed spec fn entries(&self) -> Seq<Entry> {
        entries_of(self.classes@)
    }

    /// The index finds each record by its name, and no record lists a file twice.
    pub closed spec fn wf(&self) -> bool {
        let m = index_entries(self.index);
        &&& forall|i: int|
            0 <= i < self.classes@.len() ==> #[trigger] m.contains_key(self.classes@[i].original@)
                && m[self.classes@[i].original@] == i
        &&& forall|k: Seq<char>|
            #[trigger] m.contains_key(k) ==> m[k] < self.classes@.len() && self.classes@[m[k] as int].original@ == k
        &&& forall|i: int| 0 <= i < self.classes@.len() ==> no_dups(views(#[trigger] self.classes@[i].files@))
    }

    pub fn new() -> (r: Self)
        ensures
            r.wf(),
            r.entries() == Seq::<Entry>::empty(),
    {
        let r = ClassRegistry { index: index_new(), classes: Vec::new() };
        assert(r.entries() =~= Seq::<Entry>::empty());
        r
    }

    pub proof fn lemma_distinct(&self)
        requires
            self.wf(),
        ensures
            distinct_names(self.entries()),
    {
        let m = index_entries(self.index);
        assert forall|i: int, j: int| 0 <= i < self.entries().len() && 0 <= j < self.entries().len() && i != j implies #[trigger] self.entries()[i].0 != #[trigger] self.entries()[j].0 by {
            assert(m.contains_key(self.classes@[i].original@));
            assert(m.contains_key(self.classes@[j].original@));
        }
    }

    /// Records one occurrence of `class` in `file`.
    pub fn record(&mut self, class: &str, file: &str)
        requires
            old(self).wf(),
        ensures
            final(self).wf(),
            final(self).entries() == step(old(self).entries(), class@, file@),
    {
        let ghost before = self.entries();
        proof {
            self.lemma_distinct();
        }
        match index_get(&self.index, class) {
            Some(i) => {
                assert(self.entries()[i as int].0 == class@);
                assert(slot(before, class@) == Some(i as int)) by {
                    let k = choose|k: int| 0 <= k < before.len() && #[trigger] before[k].0 == class@;
                    assert(before[k].0 == before[i as int].0);
                }
                let ghost old_classes = self.classes@;
                let count = self.classes[i].count;
                if count < usize::MAX {
                    self.classes[i].count = count + 1;
                }
                let ghost files_before = views(self.classes@[i as int].files@);
                match position_of(&self.classes[i].files, file) {
                    Some(k) => {
                        assert(files_before[k as int] == file@);
                        assert(files_before.contains(file@));
                    },
                    None => {
                        assert(!files_before.contains(file@));
                        self.classes[i].files.push(String::from_str(file));
                        assert(views(self.classes@[i as int].files@) =~= files_before.push(file@));
                        assert(no_dups(files_before.push(file@))) by {
                            assert(no_dups(files_before));
                        }
                    },
                }
                assert(self.classes@.len() == old_classes.len());
                assert(self.classes@[i as int].original == old_classes[i as int].original);
                assert forall|k: int| 0 <= k < old_classes.len() && k != i implies #[trigger] self.classes@[k] == old_classes[k] by {}
                assert(self.entries() =~= step(before, class@, file@));
                assert forall|k: int| 0 <= k < self.classes@.len() implies no_dups(views(#[trigger] self.classes@[k].files@)) by {
                    if k != i {
                        assert(self.classes@[k] == old_classes[k]);
                    }
                }
                assert forall|k: int| 0 <= k < self.classes@.len() implies #[trigger] index_entries(self.index).contains_key(self.classes@[k].original@) && index_entries(self.index)[self.classes@[k].original@] == k by {
                    if k != i {
                        assert(self.classes@[k] == old_classes[k]);
                        assert(index_entries(self.index).contains_key(old_classes[k].original@));
                    } else {
                        assert(index_entries(self.index).contains_key(old_classes[k].original@));
                        assert(self.classes@[k].original@ == old_classes[k].original@);
                    }
                }
            },
            None => {
                assert(slot(before, class@) is None) by {
                    if exists|k: int| 0 <= k < before.len() && #[trigger] before[k].0 == class@ {
                        let k = choose|k: int| 0 <= k < before.len() && #[trigger] before[k].0 == class@;
                        assert(index_entries(self.index).contains_key(self.classes@[k].original@));
                    }
                }
                let n = self.classes.len();
                let mut files: Vec<String> = Vec::new();
                files.push(String::from_str(file));
                self.classes.push(
                    ClassInfo { original: String::from_str(class), obfuscated: None, count: 1, files },
                );
                index_insert(&mut self.index, String::from_str(class), n);
                assert(views(self.classes@[n as int].files@) =~= seq![file@]);
                assert(self.entries() =~= step(before, class@, file@));
            },
        }
    }

    /// Number of distinct classes.
    pub fn len(&self) -> (r: usize)
        ensures
            r == self.entries().len(),
    {
        self.classes.len()
    }

    /// The record of `class`, if it was seen.
    pub fn get(&self, class: &str) -> (r: Option<&ClassInfo>)
        requires
            self.wf(),
        ensures
            match r {
                Some(info) => info.original@ == class@ && exists|i: int|
                    0 <= i < self.entries().len() && #[trigger] self.entries()[i] == entry_of(*info),
                None => forall|i: int| 0 <= i < self.entries().len() ==> #[trigger] self.entries()[i].0 != class@,
            },
    {
        match index_get(&self.index, class) {
            Some(i) => {
                assert(self.entries()[i as int] == entry_of(self.classes@[i as int]));
                Some(&self.classes[i])
            },
            None => {
                assert forall|i: int| 0 <= i < self.entries().len() implies #[trigger] self.entries()[i].0 != class@ by {
                    assert(index_entries(self.index).contains_key(self.classes@[i].original@));
                }
                None
            },
        }
    }

    /// The records, in the order their classes were first seen.
    pub fn classes(&self) -> (r: &Vec<ClassInfo>)
        ensures
            entries_of(r@) == self.entries(),
    {
        &self.classes
    }
}

/// The registry `rs` after the occurrences `events`, in order.
pub open spec fn extend(rs: Seq<Entry>, events: Seq<(Seq<char>, Seq<char>)>) -> Seq<Entry>
    decreases events.len(),
{
    if events.len() == 0 {
        rs
    } else {
        let e = events.last();
        step(extend(rs, events.drop_last()), e.0, e.1)
    }
}

/// Merging occurrences into a fresh registry builds exactly the tally of
/// those occurrences, so the registry's law holds of it.
pub proof fn lemma_extend_empty(events: Seq<(Seq<char>, Seq<char>)>)
    ensures
        extend(Seq::empty(), events) == tally(events),
    decreases events.len(),
{
    if events.len() > 0 {
        lemma_extend_empty(events.drop_last());
    }
}

/// Occurrences as (class, file) pairs.
pub open spec fn occurrence_pairs(v: Seq<ExtractedString>) -> Seq<(Seq<char>, Seq<char>)> {
    Seq::new(v.len(), |i: int| (v[i].value@, v[i].file_path@))
}

/// One class token found in a source, with where it was found.
#[derive(Debug, Clone)]
pub struct ExtractedString {
    /// The token: a single class, without whitespace.
    pub value: String,
    /// The file it was found in.
    pub file_path: String,
    /// Line, counted from 1.
    pub line: usize,
    /// Column, counted from 0.
    pub column: usize,
}

/// The identity of an occurrence: token, file, line and column.
pub open spec fn located(e: ExtractedString) -> (Seq<char>, Seq<char>, usize, usize) {
    (e.value@, e.file_path@, e.line, e.column)
}

/// The occurrences with repeats of the same token at the same place removed,
/// the first of each kept.
pub open spec fn first_of_each(v: Seq<(Seq<char>, Seq<char>, usize, usize)>) -> Seq<(Seq<char>, Seq<char>, usize, usize)>
    decreases v.len(),
{
    if v.len() == 0 {
        v
    } else {
        let d = first_of_each(v.drop_last());
        if d.contains(v.last()) {
            d
        } else {
            d.push(v.last())
        }
    }
}

pub open spec fn located_all(v: Seq<ExtractedString>) -> Seq<(Seq<char>, Seq<char>, usize, usize)> {
    Seq::new(v.len(), |i: int| located(v[i]))
}

fn copy_located(e: &ExtractedString) -> (r: ExtractedString)
    ensures
        located(r) == located(*e),
{
    ExtractedString {
        value: e.value.clone(),
        file_path: e.file_path.clone(),
        line: e.line,
        column: e.column,
    }
}

fn same_place(a: &ExtractedString, b: &ExtractedString) -> (r: bool)
    ensures
        r == (located(*a) == located(*b)),
{
    a.line == b.line && a.column == b.column && crate::text::same_text(a.value.as_str(), b.value.as_str())
        && crate::text::same_text(a.file_path.as_str(), b.file_path.as_str())
}

/// The tokens of one string literal, all at the literal's position.
pub fn tokens_at(value: &str, file_path: &str, line: usize, column: usize) -> (r: Vec<ExtractedString>)
    ensures
        r@.len() == crate::text::tokens(value@).len(),
        forall|i: int| 0 <= i < r@.len() ==> #[trigger] located(r@[i]) == (
            crate::text::tokens(value@)[i],
            file_path@,
            line,
            column,
        ),
{
    let ts = crate::text::split_tokens(crate::text::chars_of(value).as_slice());
    let mut r: Vec<ExtractedString> = Vec::new();
    let mut i: usize = 0;
    while i < ts.len()
        invariant
            ts@.len() == crate::text::tokens(value@).len(),
            forall|k: int| 0 <= k < ts@.len() ==> #[trigger] ts@[k]@ == crate::text::tokens(value@)[k],
            i <= ts@.len(),
            r@.len() == i,
            forall|k: int| 0 <= k < i ==> #[trigger] located(r@[k]) == (
                crate::text::tokens(value@)[k],
                file_path@,
                line,
                column,
            ),
        decreases ts@.len() - i,
    {
        r.push(ExtractedString { value: ts[i].clone(), file_path: String::from_str(file_path), line, column });
        i = i + 1;
    }
    r
}

/// Drops repeated occurrences of a token at the same place, keeping the first.
pub fn dedup_located(v: &Vec<ExtractedString>) -> (r: Vec<ExtractedString>)
    ensures
        located_all(r@) == first_of_each(located_all(v@)),
{
    let mut r: Vec<ExtractedString> = Vec::new();
    let mut i: usize = 0;
    assert(located_all(v@).take(0) =~= Seq::<(Seq<char>, Seq<char>, usize, usize)>::empty());
    while i < v.len()
        invariant
            i <= v@.len(),
            located_all(r@) == first_of_each(located_all(v@).take(i as int)),
        decreases v@.len() - i,
    {
        let ghost pre = located_all(v@).take(i as int);
        let ghost nxt = located_all(v@).take(i + 1);
        assert(nxt.drop_last() =~= pre);
        assert(nxt.last() == located(v@[i as int]));
        let mut found = false;
        let mut k: usize = 0;
        while k < r.len()
            invariant
                k <= r@.len(),
                found == (exists|q: int| 0 <= q < k && #[trigger] located(r@[q]) == located(v@[i as int])),
                i < v@.len(),
            decreases r@.len() - k,
        {
            if same_place(&r[k], &v[i]) {
                found = true;
            }
            k = k + 1;
        }
        proof {
            if found {
                let q = choose|q: int| 0 <= q < r@.len() && #[trigger] located(r@[q]) == located(v@[i as int]);
                assert(located_all(r@)[q] == located(v@[i as int]));
            } else {
                assert forall|q: int| 0 <= q < located_all(r@).len() implies located_all(r@)[q] != located(v@[i as int]) by {
                    assert(located_all(r@)[q] == located(r@[q]));
                }
            }
        }
        if !found {
            let ghost before = r@;
            r.push(copy_located(&v[i]));
            assert(located_all(r@) =~= located_all(before).push(located(v@[i as int])));
        }
        i = i + 1;
    }
    assert(located_all(v@).take(v@.len() as int) =~= located_all(v@));
    r
}

impl ClassRegistry {
    /// Records every occurrence of `tokens`, in order.
    pub fn merge_tokens(&mut self, tokens: &Vec<ExtractedString>)
        requires
            old(self).wf(),
        ensures
            final(self).wf(),
            final(self).entries() == extend(old(self).entries(), occurrence_pairs(tokens@)),
    {
        let ghost start = self.entries();
        let mut i: usize = 0;
        assert(occurrence_pairs(tokens@).take(0) =~= Seq::<(Seq<char>, Seq<char>)>::empty());
        while i < tokens.len()
            invariant
                self.wf(),
                i <= tokens@.len(),
                self.entries() == extend(start, occurrence_pairs(tokens@).take(i as int)),
            decreases tokens@.len() - i,
        {
            let ghost pre = occurrence_pairs(tokens@).take(i as int);
            let ghost nxt = occurrence_pairs(tokens@).take(i + 1);
            assert(nxt.drop_last() =~= pre);
            self.record(tokens[i].value.as_str(), tokens[i].file_path.as_str());
            i = i + 1;
        }
        assert(occurrence_pairs(tokens@).take(tokens@.len() as int) =~= occurrence_pairs(tokens@));
    }
}

} // verus!
