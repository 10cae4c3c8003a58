//! Configuration of a run: content globs, theme extensions, obfuscation.
use vstd::prelude::*;
use crate::text::{last_index, position_of, same_text, views};

verus! {

/// A map from names to values that keeps the order in which names arrived.
#[derive(Debug, Clone)]
pub struct KeyedMap<V> {
    keys: Vec<String>,
    values: Vec<V>,
}

impl<V> KeyedMap<V> {
    pub closed spec fn names(&self) -> Seq<Seq<char>> {
        views(self.keys@)
    }

    /// Number of entries.
    pub closed spec fn size(&self) -> nat {
        self.keys@.len()
    }

    /// The contents, as a map.
    pub closed spec fn contents(&self) -> Map<Seq<char>, V> {
        Map::new(
            |k: Seq<char>| self.names().contains(k),
            |k: Seq<char>| self.values@[self.names().index_of(k)],
        )
    }

    /// Names are distinct and each has one value.
    pub closed spec fn wf(&self) -> bool {
        &&& self.keys@.len() == self.values@.len()
        &&& forall|i: int, j: int|
            0 <= i < self.keys@.len() && 0 <= j < self.keys@.len() && i != j ==> #[trigger] self.keys@[i]@
                != #[trigger] self.keys@[j]@
    }

    proof fn lemma_index(&self, i: int)
        requires
            self.wf(),
            0 <= i < self.keys@.len(),
        ensures
            self.names().contains(self.keys@[i]@),
            self.names().index_of(self.keys@[i]@) == i,
    {
        assert(self.names()[i] == self.keys@[i]@);
        let j = self.names().index_of(self.keys@[i]@);
        assert(self.names()[j] == self.keys@[j]@);
    }

    pub fn new() -> (r: Self)
        ensures
            r.wf(),
            r.contents() == Map::<Seq<char>, V>::empty(),
    {
        let r = KeyedMap { keys: Vec::new(), values: Vec::new() };
        assert(r.contents() =~= Map::<Seq<char>, V>::empty());
        r
    }

    pub fn len(&self) -> (r: usize)
        requires
            self.wf(),
        ensures
            r == self.contents().dom().len(),
    {
        proof {
            self.lemma_len();
        }
        self.keys.len()
    }

    proof fn lemma_len(&self)
        requires
            self.wf(),
        ensures
            self.contents().dom().len() == self.keys@.len(),
            self.contents().dom().finite(),
    {
        let names = self.names();
        assert(self.contents().dom() =~= names.to_set());
        assert(names.no_duplicates()) by {
            assert forall|i: int, j: int| 0 <= i < names.len() && 0 <= j < names.len() && i != j implies names[i] != names[j] by {
                assert(names[i] == self.keys@[i]@);
                assert(names[j] == self.keys@[j]@);
            }
        }
        names.unique_seq_to_set();
    }

    /// The value stored under `key`.
    pub fn get(&self, key: &str) -> (r: Option<&V>)
        requires
            self.wf(),
        ensures
            match r {
                Some(v) => self.contents().contains_key(key@) && *v == self.contents()[key@],
                None => !self.contents().contains_key(key@),
            },
    {
        match position_of(&self.keys, key) {
            Some(i) => {
                proof {
                    self.lemma_index(i as int);
                }
                Some(&self.values[i])
            },
            None => {
                assert(!self.names().contains(key@)) by {
                    if self.names().contains(key@) {
                        let j = self.names().index_of(key@);
                        assert(self.names()[j] == self.keys@[j]@);
                    }
                }
                None
            },
        }
    }

    /// Stores `value` under `key`; an older value under the same name is
    /// replaced in place and handed back.
    pub fn insert(&mut self, key: String, value: V) -> (r: Option<V>)
        requires
            old(self).wf(),
        ensures
            final(self).wf(),
            final(self).contents() == old(self).contents().insert(key@, value),
            r is Some <==> old(self).contents().contains_key(key@),
            r matches Some(v) ==> v == old(self).contents()[key@],
    {
        let ghost before = self.contents();
        let ghost old_keys = self.keys@;
        let ghost old_values = self.values@;
        match position_of(&self.keys, key.as_str()) {
            Some(i) => {
                proof {
                    self.lemma_index(i as int);
                }
                let mut v = value;
                self.values.set_and_swap(i, &mut v);
                assert(self.keys@ == old_keys);
                assert forall|k: Seq<char>| #[trigger] self.contents().contains_key(k) == before.insert(key@, self.values@[i as int]).contains_key(k) by {}
                assert forall|k: Seq<char>| self.contents().contains_key(k) implies #[trigger] self.contents()[k] == before.insert(key@, self.values@[i as int])[k] by {
                    let j = self.names().index_of(k);
                    assert(self.names()[j] == self.keys@[j]@);
                    if j != i {
                        assert(self.values@[j] == old_values[j]);
                    } else {
                        assert(k == key@);
                    }
                }
                assert(self.contents() =~= before.insert(key@, self.values@[i as int]));
                Some(v)
            },
            None => {
                assert(!self.names().contains(key@)) by {
                    if self.names().contains(key@) {
                        let j = self.names().index_of(key@);
                        assert(self.names()[j] == self.keys@[j]@);
                    }
                }
                self.keys.push(key);
                self.values.push(value);
                let ghost n = old_keys.len() as int;
                assert(self.names() =~= views(old_keys).push(self.keys@[n]@));
                assert forall|k: Seq<char>| #[trigger] self.contents().contains_key(k) == before.insert(self.keys@[n]@, value).contains_key(k) by {
                    if self.names().contains(k) && k != self.keys@[n]@ {
                        let j = self.names().index_of(k);
                        assert(self.names()[j] == k);
                        if j < n {
                            assert(views(old_keys)[j] == k);
                            assert(views(old_keys).contains(k));
                        }
                    }
                    if k == self.keys@[n]@ {
                        assert(self.names()[n] == k);
                    }
                    if views(old_keys).contains(k) {
                        let j = views(old_keys).index_of(k);
                        assert(self.names()[j] == k);
                    }
                }
                assert forall|k: Seq<char>| self.contents().contains_key(k) implies #[trigger] self.contents()[k] == before.insert(self.keys@[n]@, value)[k] by {
                    let j = self.names().index_of(k);
                    assert(self.names()[j] == self.keys@[j]@);
                    if k != self.keys@[n]@ {
                        let oj = views(old_keys).index_of(k);
                        assert(views(old_keys)[oj] == old_keys[oj]@);
                        assert(self.names()[oj] == k);
                        assert(self.keys@[oj]@ == old_keys[oj]@);
                        if j != oj {
                            assert(self.keys@[j]@ == self.keys@[oj]@);
                        }
                    } else {
                        if j != n {
                            assert(self.keys@[j]@ == self.keys@[n]@);
                        }
                    }
                }
                assert(self.contents() =~= before.insert(self.keys@[n]@, value));
                None
            },
        }
    }

    /// Takes out the most recently added entry.
    pub fn pop_entry(&mut self) -> (r: Option<(String, V)>)
        requires
            old(self).wf(),
        ensures
            final(self).wf(),
            match r {
                Some(e) => old(self).contents().contains_key(e.0@) && old(self).contents()[e.0@] == e.1
                    && final(self).contents() == old(self).contents().remove(e.0@),
                None => old(self).contents().dom() == Set::<Seq<char>>::empty() && final(self).contents()
                    == old(self).contents(),
            },
            r is Some ==> final(self).size() + 1 == old(self).size(),
            r is None ==> old(self).size() == 0,
    {
        let ghost before = self.contents();
        let ghost old_keys = self.keys@;
        let ghost old_values = self.values@;
        if self.keys.len() == 0 {
            assert(before.dom() =~= Set::<Seq<char>>::empty());
            return None;
        }
        proof {
            self.lemma_index(old_keys.len() - 1);
        }
        let k = self.keys.pop().unwrap();
        let v = self.values.pop().unwrap();
        let ghost n = self.keys@.len() as int;
        assert(self.keys@ =~= old_keys.drop_last());
        assert(old_keys[n] == k);
        assert forall|q: Seq<char>| #[trigger] self.contents().contains_key(q) == before.remove(k@).contains_key(q) by {
            if self.names().contains(q) {
                let j = self.names().index_of(q);
                assert(self.names()[j] == self.keys@[j]@);
                assert(old_keys[j] == self.keys@[j]);
                assert(views(old_keys)[j] == q);
            }
            if before.contains_key(q) && q != k@ {
                let j = views(old_keys).index_of(q);
                assert(views(old_keys)[j] == old_keys[j]@);
                if j == n {
                    assert(q == k@);
                }
                assert(self.names()[j] == q);
            }
        }
        assert forall|q: Seq<char>| self.contents().contains_key(q) implies #[trigger] self.contents()[q] == before.remove(k@)[q] by {
            let j = self.names().index_of(q);
            assert(self.names()[j] == self.keys@[j]@);
            assert(old_keys[j] == self.keys@[j]);
            assert(views(old_keys)[j] == q);
            let oj = views(old_keys).index_of(q);
            assert(views(old_keys)[oj] == old_keys[oj]@);
            if oj != j {
                assert(old_keys[oj]@ == old_keys[j]@);
            }
        }
        assert(self.contents() =~= before.remove(k@));
        Some((k, v))
    }

    /// Adds every entry of `other`; on a shared name the value of `other` wins.
    pub fn extend_from(&mut self, other: KeyedMap<V>)
        requires
            old(self).wf(),
            other.wf(),
        ensures
            final(self).wf(),
            final(self).contents() == old(self).contents().union_prefer_right(other.contents()),
    {
        let ghost goal = self.contents().union_prefer_right(other.contents());
        let mut rest = other;
        while rest.keys.len() > 0
            invariant
                self.wf(),
                rest.wf(),
                self.contents().union_prefer_right(rest.contents()) == goal,
            decreases rest.size(),
        {
            let ghost before_rest = rest.contents();
            let ghost before_self = self.contents();
            let ghost len0 = rest.keys@.len();
            match rest.pop_entry() {
                Some((k, v)) => {
                    self.insert(k, v);
                    assert(self.contents().union_prefer_right(rest.contents()) =~= before_self.union_prefer_right(before_rest));
                },
                None => {},
            }
        }
        assert(rest.contents() =~= Map::<Seq<char>, V>::empty());
        assert(self.contents() =~= goal);
    }
}


/// Theme extensions: colors, font families and spacing values by name.
#[derive(Debug, Clone)]
pub struct TailwindThemeExtend {
    pub colors: KeyedMap<String>,
    pub font_family: KeyedMap<Vec<String>>,
    pub spacing: KeyedMap<String>,
}

impl TailwindThemeExtend {
    pub open spec fn wf(&self) -> bool {
        self.colors.wf() && self.font_family.wf() && self.spacing.wf()
    }
}

impl Default for TailwindThemeExtend {
    fn default() -> (r: Self)
        ensures
            r.wf(),
            r.colors.contents().dom() == Set::<Seq<char>>::empty(),
            r.font_family.contents().dom() == Set::<Seq<char>>::empty(),
            r.spacing.contents().dom() == Set::<Seq<char>>::empty(),
    {
        TailwindThemeExtend { colors: KeyedMap::new(), font_family: KeyedMap::new(), spacing: KeyedMap::new() }
    }
}

/// Theme configuration.
#[derive(Debug, Clone)]
pub struct TailwindTheme {
    pub extend: TailwindThemeExtend,
}

impl Default for TailwindTheme {
    fn default() -> (r: Self)
        ensures
            r.extend.wf(),
            r.extend.colors.contents().dom() == Set::<Seq<char>>::empty(),
            r.extend.font_family.contents().dom() == Set::<Seq<char>>::empty(),
            r.extend.spacing.contents().dom() == Set::<Seq<char>>::empty(),
    {
        TailwindTheme { extend: TailwindThemeExtend::default() }
    }
}

/// How class names are obfuscated.
#[derive(Debug, Clone)]
pub struct ObfuscationConfig {
    /// Whether aliases are generated.
    pub enabled: bool,
    /// What every alias starts with.
    pub prefix: String,
    /// The seed of the alias hash.
    pub seed: u64,
}

pub const DEFAULT_SEED: u64 = 0x1337_BEEF_CAFE_BABE;

impl Default for ObfuscationConfig {
    fn default() -> (r: Self)
        ensures
            !r.enabled,
            r.prefix@ == "tw"@,
            r.seed == DEFAULT_SEED,
    {
        ObfuscationConfig { enabled: false, prefix: String::from_str("tw"), seed: DEFAULT_SEED }
    }
}

/// A run's configuration.
#[derive(Debug, Clone)]
pub struct TailwindConfig {
    /// Globs of the sources to scan.
    pub content: Vec<String>,
    pub theme: TailwindTheme,
    pub obfuscation: ObfuscationConfig,
}

/// `base` followed by the names of `extra` it lacks, each once, in order.
pub open spec fn add_missing(base: Seq<Seq<char>>, extra: Seq<Seq<char>>) -> Seq<Seq<char>>
    decreases extra.len(),
{
    if extra.len() == 0 {
        base
    } else {
        let b = add_missing(base, extra.drop_last());
        if b.contains(extra.last()) {
            b
        } else {
            b.push(extra.last())
        }
    }
}

/// The format of a configuration file, told by its extension.
#[derive(Debug, Clone, Copy, PartialEq, Eq)]
pub enum ConfigFormat {
    Yaml,
    Json,
}

/// The extension of a path: what follows the last dot of its last
/// component, when that dot is not the component's first character.
pub open spec fn extension_of(path: Seq<char>) -> Option<Seq<char>> {
    let name = path.skip(last_index(path, '/') + 1);
    let dot = last_index(name, '.');
    if dot > 0 {
        Some(name.skip(dot + 1))
    } else {
        None
    }
}

impl TailwindConfig {
    pub open spec fn wf(&self) -> bool {
        self.theme.extend.wf()
    }

    /// Which loader reads the configuration file at `path`, by its
    /// extension: `.yaml` and `.yml` are YAML, `.json` is JSON.
    pub fn from_file(path: &str) -> (r: Result<ConfigFormat, crate::errors::ExtractorError>)
        ensures
            match extension_of(path@) {
                Some(e) => if e == "yaml"@ || e == "yml"@ {
                    r == Ok::<ConfigFormat, crate::errors::ExtractorError>(ConfigFormat::Yaml)
                } else if e == "json"@ {
                    r == Ok::<ConfigFormat, crate::errors::ExtractorError>(ConfigFormat::Json)
                } else {
                    r is Err
                },
                None => r is Err,
            },
            r matches Err(e) ==> e is ConfigError,
            r matches Err(e) ==> (e matches crate::errors::ExtractorError::ConfigError { message }
                && message@ == crate::errors::unsupported_config_message(path@)),
    {
        match crate::text::extension(path) {
            Some(e) => {
                if same_text(e.as_str(), "yaml") || same_text(e.as_str(), "yml") {
                    Ok(ConfigFormat::Yaml)
                } else if same_text(e.as_str(), "json") {
                    Ok(ConfigFormat::Json)
                } else {
                    Err(crate::errors::unsupported_config(path))
                }
            },
            None => Err(crate::errors::unsupported_config(path)),
        }
    }

    /// Merges `other` into this configuration: content globs are added when
    /// missing, theme entries of `other` win, and the obfuscation settings of
    /// `other` replace these when `other` enables obfuscation.
    pub fn merge(self, other: Self) -> (r: Self)
        requires
            self.wf(),
            other.wf(),
        ensures
            r.wf(),
            views(r.content@) == add_missing(views(self.content@), views(other.content@)),
            r.theme.extend.colors.contents() == self.theme.extend.colors.contents().union_prefer_right(
                other.theme.extend.colors.contents(),
            ),
            r.theme.extend.font_family.contents() == self.theme.extend.font_family.contents().union_prefer_right(
                other.theme.extend.font_family.contents(),
            ),
            r.theme.extend.spacing.contents() == self.theme.extend.spacing.contents().union_prefer_right(
                other.theme.extend.spacing.contents(),
            ),
            r.obfuscation == (if other.obfuscation.enabled {
                other.obfuscation
            } else {
                self.obfuscation
            }),
    {
        let mut merged = self;
        let ghost orig = merged;
        let ghost base = views(merged.content@);
        let ghost extra = views(other.content@);
        let mut i: usize = 0;
        assert(extra.take(0) =~= Seq::<Seq<char>>::empty());
        while i < other.content.len()
            invariant
                i <= other.content@.len(),
                extra == views(other.content@),
                merged.theme == orig.theme,
                merged.obfuscation == orig.obfuscation,
                orig.wf(),
                views(merged.content@) == add_missing(base, extra.take(i as int)),
            decreases other.content@.len() - i,
        {
            let ghost pre = extra.take(i as int);
            assert(extra.take(i + 1).drop_last() =~= pre);
            match position_of(&merged.content, other.content[i].as_str()) {
                Some(k) => {
                    assert(views(merged.content@)[k as int] == extra[i as int]);
                },
                None => {
                    assert(!views(merged.content@).contains(extra[i as int]));
                    let ghost before = merged.content@;
                    merged.content.push(other.content[i].clone());
                    assert(views(merged.content@) =~= views(before).push(extra[i as int]));
                },
            }
            i = i + 1;
        }
        assert(extra.take(other.content@.len() as int) =~= extra);
        let TailwindConfig { content: _, theme, obfuscation } = other;
        let TailwindTheme { extend } = theme;
        let TailwindThemeExtend { colors, font_family, spacing } = extend;
        merged.theme.extend.colors.extend_from(colors);
        merged.theme.extend.font_family.extend_from(font_family);
        merged.theme.extend.spacing.extend_from(spacing);
        if obfuscation.enabled {
            merged.obfuscation = obfuscation;
        }
        merged
    }
}

impl Default for TailwindConfig {
    fn default() -> (r: Self)
        ensures
            r.wf(),
            views(r.content@) == seq!["./src/**/*.res.mjs"@, "./src/**/*.js"@, "./src/**/*.jsx"@],
            r.theme.extend.colors.contents().dom() == Set::<Seq<char>>::empty(),
            r.theme.extend.font_family.contents().dom() == Set::<Seq<char>>::empty(),
            r.theme.extend.spacing.contents().dom() == Set::<Seq<char>>::empty(),
            !r.obfuscation.enabled,
            r.obfuscation.prefix@ == "tw"@,
            r.obfuscation.seed == DEFAULT_SEED,
    {
        let content = vec![
            String::from_str("./src/**/*.res.mjs"),
            String::from_str("./src/**/*.js"),
            String::from_str("./src/**/*.jsx"),
        ];
        let r = TailwindConfig { content, theme: TailwindTheme::default(), obfuscation: ObfuscationConfig::default() };
        assert(views(r.content@) =~= seq!["./src/**/*.res.mjs"@, "./src/**/*.js"@, "./src/**/*.jsx"@]);
        r
    }
}

} // verus!
