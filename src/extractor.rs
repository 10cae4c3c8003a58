//! The extractor: validates classes, keeps the registry, derives aliases
//! and produces the style sheet.
use vstd::prelude::*;
use std::collections::hash_map::DefaultHasher;
use std::hash::Hasher;
use vstd::std_specs::hash::DefaultHasherAdditionalSpecFns;
use crate::compiler::{answer, bundled, ClassCompiler};
use crate::config::{ObfuscationConfig, TailwindConfig};
use crate::css::{generate_css_header, minified, minify_css};
use crate::errors::ExtractorError;
use crate::manifest::{Manifest, ManifestBuilder};
use crate::registry::{step, ClassInfo, ClassRegistry, Entry};
use crate::text::{chars_of, contains_char};
use vstd::utf8::encode_utf8;

verus! {

/// Whether a character is alphanumeric in Unicode's sense.
pub uninterp spec fn alphanumeric(c: char) -> bool;

/// Relies on `char::is_alphanumeric`: Unicode's Alphabetic or Numeric.
/// Among ASCII characters, exactly the letters and digits are alphanumeric.
#[verifier::external_body]
fn is_alphanumeric(c: char) -> (r: bool)
    ensures
        r == alphanumeric(c),
        (c as u32) < 128 ==> (r <==> (('a' <= c && c <= 'z') || ('A' <= c && c <= 'Z') || ('0' <= c
            && c <= '9'))),
{
    c.is_alphanumeric()
}

/// Punctuation that may appear in a class besides letters and digits.
pub open spec fn class_punct(c: char) -> bool {
    c == '-' || c == ':' || c == '/' || c == '.' || c == '[' || c == ']' || c == '!' || c == '('
        || c == ')' || c == '#' || c == '%' || c == '&' || c == '*' || c == '_' || c == '@'
}

/// A plausible class: at most a hundred bytes, none of `< > { } ;`, and
/// only letters, digits and class punctuation.
pub open spec fn valid_class(c: Seq<char>) -> bool {
    &&& encode_utf8(c).len() as usize <= 100
    &&& !c.contains('<') && !c.contains('>') && !c.contains('{') && !c.contains('}') && !c.contains(';')
    &&& forall|i: int| 0 <= i < c.len() ==> alphanumeric(#[trigger] c[i]) || class_punct(c[i])
}

/// Whether `class` could be a class at all.
pub fn is_valid_class(class: &str) -> (r: bool)
    ensures
        r == valid_class(class@),
{
    if class.len() > 100 {
        return false;
    }
    let v = chars_of(class);
    let vs = v.as_slice();
    if contains_char(vs, '<') || contains_char(vs, '>') || contains_char(vs, '{') || contains_char(
        vs,
        '}',
    ) || contains_char(vs, ';') {
        return false;
    }
    let mut i: usize = 0;
    while i < v.len()
        invariant
            v@ == class@,
            i <= v@.len(),
            forall|k: int| 0 <= k < i ==> alphanumeric(#[trigger] v@[k]) || class_punct(v@[k]),
        decreases v@.len() - i,
    {
        let c = v[i];
        if !(is_alphanumeric(c) || c == '-' || c == ':' || c == '/' || c == '.' || c == '[' || c == ']'
            || c == '!' || c == '(' || c == ')' || c == '#' || c == '%' || c == '&' || c == '*' || c
            == '_' || c == '@') {
            return false;
        }
        i = i + 1;
    }
    true
}

/// The digit of value `d` in base 62: `0-9`, then `A-Z`, then `a-z`.
pub open spec fn digit62(d: nat) -> char {
    if d < 10 {
        (48 + d) as char
    } else if d < 36 {
        (65 + d - 10) as char
    } else {
        (97 + d - 36) as char
    }
}

/// `n` written in base 62, most significant digit first.
pub open spec fn base62(n: nat) -> Seq<char>
    decreases n,
{
    if n < 62 {
        seq![digit62(n)]
    } else {
        base62(n / 62).push(digit62(n % 62))
    }
}

fn digit_char(d: u64) -> (r: char)
    requires
        d < 62,
    ensures
        r == digit62(d as nat),
{
    if d < 10 {
        ((48 + d) as u8) as char
    } else if d < 36 {
        ((65 + d - 10) as u8) as char
    } else {
        ((97 + d - 36) as u8) as char
    }
}

/// Writes `num` in base 62.
pub fn to_base62(num: u64) -> (r: String)
    ensures
        r@ == base62(num as nat),
    decreases num,
{
    if num < 62 {
        let mut r = String::new();
        crate::text::push_char(&mut r, digit_char(num));
        r
    } else {
        let mut r = to_base62(num / 62);
        crate::text::push_char(&mut r, digit_char(num % 62));
        r
    }
}

/// The little-endian bytes of `n`.
pub open spec fn le_bytes(n: u64) -> Seq<u8> {
    seq![
        (n & 0xff) as u8,
        ((n >> 8) & 0xff) as u8,
        ((n >> 16) & 0xff) as u8,
        ((n >> 24) & 0xff) as u8,
        ((n >> 32) & 0xff) as u8,
        ((n >> 40) & 0xff) as u8,
        ((n >> 48) & 0xff) as u8,
        ((n >> 56) & 0xff) as u8,
    ]
}

/// The hash behind an alias: std's default hasher fed the seed, then the
/// class as a string is hashed (its bytes and a closing `0xff`).
pub open spec fn alias_hash(seed: u64, class: Seq<char>) -> u64 {
    DefaultHasher::spec_finish(seq![le_bytes(seed), encode_utf8(class), seq![0xffu8]])
}

/// The alias of `class`: the prefix, then the hash in base 62.
pub open spec fn alias_of(prefix: Seq<char>, seed: u64, class: Seq<char>) -> Seq<char> {
    prefix + base62(alias_hash(seed, class) as nat)
}

/// The seeded hash of a class name.
pub fn hash_class(seed: u64, class: &str) -> (r: u64)
    ensures
        r == alias_hash(seed, class@),
{
    let mut hasher = DefaultHasher::new();
    let seed_bytes: Vec<u8> = vec![
        (seed & 0xff) as u8,
        ((seed >> 8) & 0xff) as u8,
        ((seed >> 16) & 0xff) as u8,
        ((seed >> 24) & 0xff) as u8,
        ((seed >> 32) & 0xff) as u8,
        ((seed >> 40) & 0xff) as u8,
        ((seed >> 48) & 0xff) as u8,
        ((seed >> 56) & 0xff) as u8,
    ];
    assert(seed_bytes@ =~= le_bytes(seed));
    hasher.write(seed_bytes.as_slice());
    assert(hasher@ =~= seq![le_bytes(seed)]);
    let bytes = class.as_bytes();
    assert(bytes@ == encode_utf8(class@));
    hasher.write(bytes);
    assert(hasher@ =~= seq![le_bytes(seed), encode_utf8(class@)]);
    let end: Vec<u8> = vec![0xffu8];
    assert(end@ =~= seq![0xffu8]);
    hasher.write(end.as_slice());
    assert(hasher@ =~= seq![le_bytes(seed), encode_utf8(class@), seq![0xffu8]]);
    hasher.finish()
}

/// The alias of one class under `config`.
pub fn obfuscate_class(class: &str, config: &ObfuscationConfig) -> (r: String)
    ensures
        r@ == alias_of(config.prefix@, config.seed, class@),
{
    let mut r = config.prefix.clone();
    let digits = to_base62(hash_class(config.seed, class));
    r.append(digits.as_str());
    r
}

/// Two aliases are equal whenever their inputs are: an alias depends on
/// the prefix, the seed and the class alone, in every run and process.
/// Every alias starts with the prefix and continues with base-62 digits.
pub proof fn alias_is_deterministic(prefix: Seq<char>, seed: u64, c1: Seq<char>, c2: Seq<char>)
    requires
        c1 == c2,
    ensures
        alias_of(prefix, seed, c1) == alias_of(prefix, seed, c2),
        alias_of(prefix, seed, c1).take(prefix.len() as int) == prefix,
        alias_of(prefix, seed, c1).len() > prefix.len(),
{
    lemma_base62_nonempty(alias_hash(seed, c1) as nat);
    assert(alias_of(prefix, seed, c1).take(prefix.len() as int) =~= prefix);
}

pub proof fn lemma_base62_nonempty(n: nat)
    ensures
        base62(n).len() >= 1,
    decreases n,
{
    if n >= 62 {
        lemma_base62_nonempty(n / 62);
    }
}

/// The style sheet from its banner and the compiler's bundle: `None` when
/// bundling failed, which is an error; minified on request.
pub open spec fn sheet(header: Seq<char>, bundle: Option<Seq<char>>, minify: bool) -> Option<Seq<char>> {
    match bundle {
        Some(b) => Some(
            if minify {
                minified(header + b)
            } else {
                header + b
            },
        ),
        None => None,
    }
}

/// Puts the banner before the bundle and minifies on request.
pub fn finish_css(header: &str, bundle: Option<String>, minify: bool) -> (r: Result<String, ExtractorError>)
    ensures
        match r {
            Ok(s) => sheet(header@, crate::compiler::opt_view(bundle), minify) == Some(s@),
            Err(e) => bundle is None && e is TailwindError,
        },
{
    match bundle {
        Some(b) => {
            let mut css = String::from_str(header);
            css.append(b.as_str());
            if minify {
                Ok(minify_css(css.as_str()))
            } else {
                Ok(css)
            }
        },
        None => Err(ExtractorError::TailwindError(String::from_str("Failed to generate CSS"))),
    }
}

/// A class is recorded when it is non-empty, plausible, and accepted by the
/// compiler.
pub open spec fn accepted(class: Seq<char>) -> bool {
    class.len() > 0 && valid_class(class) && answer(class, false) is Some
}

/// The registry after recording each accepted class of `classes`, in order,
/// as found in `file`.
pub open spec fn record_all(rs: Seq<Entry>, classes: Seq<Seq<char>>, file: Seq<char>) -> Seq<Entry>
    decreases classes.len(),
{
    if classes.len() == 0 {
        rs
    } else {
        let prev = record_all(rs, classes.drop_last(), file);
        if accepted(classes.last()) {
            step(prev, classes.last(), file)
        } else {
            prev
        }
    }
}

/// The log of a fresh compiler asked about `styles`, in order, each with
/// the flag `obfuscate`.
pub open spec fn log_of(styles: Seq<Seq<char>>, obfuscate: bool) -> Seq<(Seq<char>, bool)>
    decreases styles.len(),
{
    if styles.len() == 0 {
        Seq::empty()
    } else {
        crate::compiler::log_after(log_of(styles.drop_last(), obfuscate), styles.last(), obfuscate)
    }
}

/// The names under which the classes of `entries` are bundled: their
/// aliases when obfuscation is enabled, else the classes themselves.
pub open spec fn bundle_names(entries: Seq<Entry>, config: TailwindConfig) -> Seq<Seq<char>> {
    Seq::new(
        entries.len(),
        |i: int|
            if config.obfuscation.enabled {
                alias_of(config.obfuscation.prefix@, config.obfuscation.seed, entries[i].0)
            } else {
                entries[i].0
            },
    )
}

/// Collects classes from the sources of a run and turns them into a style
/// sheet and a manifest.
pub struct TailwindExtractor {
    config: TailwindConfig,
    compiler: ClassCompiler,
    classes: ClassRegistry,
}

impl TailwindExtractor {
    pub closed spec fn entries(&self) -> Seq<Entry> {
        self.classes.entries()
    }

    pub closed spec fn settings(&self) -> TailwindConfig {
        self.config
    }

    pub closed spec fn preflight_disabled(&self) -> bool {
        self.compiler.preflight_disabled()
    }

    pub closed spec fn wf(&self) -> bool {
        self.classes.wf()
    }

    pub fn new() -> (r: Self)
        ensures
            r.wf(),
            r.entries() == Seq::<Entry>::empty(),
            !r.preflight_disabled(),
    {
        Self::with_config(TailwindConfig::default())
    }

    pub fn with_config(config: TailwindConfig) -> (r: Self)
        ensures
            r.wf(),
            r.entries() == Seq::<Entry>::empty(),
            r.settings() == config,
            !r.preflight_disabled(),
    {
        TailwindExtractor { config, compiler: ClassCompiler::new(false), classes: ClassRegistry::new() }
    }

    pub fn with_config_and_preflight(config: TailwindConfig, no_preflight: bool) -> (r: Self)
        ensures
            r.wf(),
            r.entries() == Seq::<Entry>::empty(),
            r.settings() == config,
            r.preflight_disabled() == no_preflight,
    {
        TailwindExtractor { config, compiler: ClassCompiler::new(no_preflight), classes: ClassRegistry::new() }
    }

    /// Records `class` as found in `file_path`, when it is a plausible class
    /// that the compiler accepts; anything else is skipped.
    pub fn add_class(&mut self, class: &str, file_path: &str) -> (r: Result<(), ExtractorError>)
        requires
            old(self).wf(),
        ensures
            final(self).wf(),
            r is Ok,
            final(self).settings() == old(self).settings(),
            final(self).preflight_disabled() == old(self).preflight_disabled(),
            final(self).entries() == (if accepted(class@) {
                step(old(self).entries(), class@, file_path@)
            } else {
                old(self).entries()
            }),
    {
        if class.is_empty() || !is_valid_class(class) {
            return Ok(());
        }
        match self.compiler.classify(class, false) {
            Some(_) => {
                self.classes.record(class, file_path);
                Ok(())
            },
            None => Ok(()),
        }
    }

    /// Records each class of `classes`, in order.
    pub fn add_classes(&mut self, classes: &Vec<String>, file_path: &str) -> (r: Result<(), ExtractorError>)
        requires
            old(self).wf(),
        ensures
            final(self).wf(),
            r is Ok,
            final(self).settings() == old(self).settings(),
            final(self).preflight_disabled() == old(self).preflight_disabled(),
            final(self).entries() == record_all(old(self).entries(), crate::text::views(classes@), file_path@),
    {
        let ghost start = self.entries();
        let ghost names = crate::text::views(classes@);
        let mut i: usize = 0;
        assert(names.take(0) =~= Seq::<Seq<char>>::empty());
        while i < classes.len()
            invariant
                self.wf(),
                i <= classes@.len(),
                names == crate::text::views(classes@),
                self.settings() == old(self).settings(),
                self.preflight_disabled() == old(self).preflight_disabled(),
                self.entries() == record_all(start, names.take(i as int), file_path@),
            decreases classes@.len() - i,
        {
            assert(names.take(i + 1).drop_last() =~= names.take(i as int));
            assert(names.take(i + 1).last() == classes@[i as int]@);
            let _ = self.add_class(classes[i].as_str(), file_path);
            i = i + 1;
        }
        assert(names.take(classes@.len() as int) =~= names);
        Ok(())
    }

    /// Number of distinct classes.
    pub fn class_count(&self) -> (r: usize)
        ensures
            r == self.entries().len(),
    {
        self.classes.len()
    }

    /// The records, in the order their classes were first seen.
    pub fn classes(&self) -> (r: &Vec<ClassInfo>)
        ensures
            crate::registry::entries_of(r@) == self.entries(),
    {
        self.classes.classes()
    }

    /// The record of one class.
    pub fn class_info(&self, class: &str) -> (r: Option<&ClassInfo>)
        requires
            self.wf(),
        ensures
            r matches Some(info) ==> info.original@ == class@,
            r is None ==> forall|i: int| 0 <= i < self.entries().len() ==> #[trigger] self.entries()[i].0 != class@,
    {
        self.classes.get(class)
    }

    /// Forgets every class seen.
    pub fn reset(&mut self)
        ensures
            final(self).wf(),
            final(self).entries() == Seq::<Entry>::empty(),
            final(self).settings() == old(self).settings(),
            final(self).preflight_disabled() == old(self).preflight_disabled(),
    {
        self.classes = ClassRegistry::new();
        self.compiler = ClassCompiler::new(self.compiler.no_preflight());
    }

    /// Whether aliases are generated.
    pub fn obfuscation_enabled(&self) -> (r: bool)
        ensures
            r == self.settings().obfuscation.enabled,
    {
        self.config.obfuscation.enabled
    }

    /// Every class with its alias, in registry order.
    pub fn generate_obfuscation_map(&self) -> (r: Vec<(String, String)>)
        ensures
            r@.len() == self.entries().len(),
            forall|i: int| 0 <= i < r@.len() ==> (#[trigger] r@[i]).0@ == self.entries()[i].0 && r@[i].1@
                == alias_of(self.settings().obfuscation.prefix@, self.settings().obfuscation.seed, self.entries()[i].0),
    {
        let infos = self.classes.classes();
        let mut r: Vec<(String, String)> = Vec::new();
        let mut i: usize = 0;
        while i < infos.len()
            invariant
                crate::registry::entries_of(infos@) == self.entries(),
                i <= infos@.len(),
                r@.len() == i,
                forall|k: int| 0 <= k < i ==> (#[trigger] r@[k]).0@ == self.entries()[k].0 && r@[k].1@
                    == alias_of(self.settings().obfuscation.prefix@, self.settings().obfuscation.seed, self.entries()[k].0),
            decreases infos@.len() - i,
        {
            let alias = obfuscate_class(infos[i].original.as_str(), &self.config.obfuscation);
            assert(self.entries()[i as int].0 == infos@[i as int].original@);
            r.push((infos[i].original.clone(), alias));
            i = i + 1;
        }
        r
    }

    /// The manifest of the classes seen: each class with the files it occurs
    /// in, the aliases when obfuscation is enabled and some class was seen,
    /// and the statistics.
    pub fn generate_manifest_with_stats(
        &self,
        files_processed: usize,
        css_size: usize,
        minified_size: Option<usize>,
        generated_at: String,
        extractor_version: String,
        processing_time_ms: Option<u64>,
    ) -> (r: Manifest)
        requires
            self.wf(),
        ensures
            r.wf(),
            r.metadata.files_processed == files_processed,
            r.metadata.classes_extracted == self.entries().len(),
            r.metadata.obfuscation_enabled == (self.settings().obfuscation.enabled && self.entries().len() > 0),
            r.statistics matches Some(st) && st.css_size_bytes == css_size && st.minified_size_bytes == minified_size
                && st.files_matched == files_processed,
            r.entries() == Seq::new(
                self.entries().len(),
                |i: int| (self.entries()[i].0, self.entries()[i].2.len(), self.entries()[i].2),
            ),
            (self.settings().obfuscation.enabled && self.entries().len() > 0) ==> (r.mappings matches Some(mp)
                && mp@.len() == self.entries().len() && forall|i: int| 0 <= i < mp@.len() ==> (#[trigger] mp@[i]).0@
                == self.entries()[i].0 && mp@[i].1@ == alias_of(
                self.settings().obfuscation.prefix@,
                self.settings().obfuscation.seed,
                self.entries()[i].0,
            )),
            !(self.settings().obfuscation.enabled && self.entries().len() > 0) ==> r.mappings is None,
    {
        let infos = self.classes.classes();
        proof {
            self.classes.lemma_distinct();
        }
        let mut class_info: Vec<(String, Vec<String>)> = Vec::new();
        let mut i: usize = 0;
        while i < infos.len()
            invariant
                i <= infos@.len(),
                crate::registry::entries_of(infos@) == self.entries(),
                class_info@.len() == i,
                forall|k: int| 0 <= k < i ==> #[trigger] crate::manifest::record_of(class_info@[k]) == (
                    self.entries()[k].0,
                    self.entries()[k].2.len(),
                    self.entries()[k].2,
                ),
            decreases infos@.len() - i,
        {
            let files = crate::manifest::copy_strings(&infos[i].files);
            assert(self.entries()[i as int] == crate::registry::entry_of(infos@[i as int]));
            class_info.push((infos[i].original.clone(), files));
            i = i + 1;
        }
        proof {
            let cs = class_info@;
            assert forall|a: int, b: int| 0 <= a < cs.len() && 0 <= b < cs.len() && a != b implies #[trigger] cs[a].0@ != #[trigger] cs[b].0@ by {
                assert(crate::manifest::record_of(cs[a]).0 == self.entries()[a].0);
                assert(crate::manifest::record_of(cs[b]).0 == self.entries()[b].0);
            }
            crate::manifest::lemma_put_all_distinct(cs);
            assert(Seq::new(cs.len(), |i: int| crate::manifest::record_of(cs[i])) =~= Seq::new(
                self.entries().len(),
                |i: int| (self.entries()[i].0, self.entries()[i].2.len(), self.entries()[i].2),
            ));
        }
        let builder = ManifestBuilder::new(generated_at, extractor_version)
            .with_files_processed(files_processed)
            .with_classes_extracted(self.classes.len());
        assert(builder.current().entries() =~= Seq::<Entry>::empty());
        let mut builder = builder.with_class_info(class_info);
        if self.config.obfuscation.enabled && self.classes.len() > 0 {
            builder = builder.with_mappings(self.generate_obfuscation_map());
        }
        builder.build(css_size, minified_size, processing_time_ms)
    }

    /// The manifest with no run statistics filled in.
    pub fn generate_manifest(&self, generated_at: String, extractor_version: String) -> (r: Manifest)
        requires
            self.wf(),
        ensures
            r.wf(),
            r.metadata.files_processed == 0,
            r.metadata.classes_extracted == self.entries().len(),
    {
        self.generate_manifest_with_stats(0, 0, None, generated_at, extractor_version, None)
    }

    /// The style sheet of every class seen: a banner naming `version` and
    /// `time`, then the compiler's bundle for the classes (by their aliases
    /// when obfuscation is enabled). With no class, the banner alone.
    pub fn generate_css(&mut self, minify: bool, version: &str, time: &str) -> (r: Result<String, ExtractorError>)
        requires
            old(self).wf(),
        ensures
            final(self).wf(),
            final(self).entries() == old(self).entries(),
            old(self).entries().len() == 0 ==> (r matches Ok(s) && s@ == crate::css::banner(true, minify, version@, time@)),
            final(self).settings() == old(self).settings(),
            final(self).preflight_disabled() == old(self).preflight_disabled(),
            old(self).entries().len() > 0 ==> match sheet(
                crate::css::banner(false, minify, version@, time@),
                bundled(
                    log_of(bundle_names(old(self).entries(), old(self).settings()), false),
                    old(self).preflight_disabled(),
                ),
                minify,
            ) {
                Some(x) => r matches Ok(s) && s@ == x,
                None => r is Err,
            },
            r matches Err(e) ==> e is TailwindError,
    {
        if self.classes.len() == 0 {
            return Ok(generate_css_header(true, minify, version, time));
        }
        let mut builder = ClassCompiler::new(self.compiler.no_preflight());
        let aliases = self.generate_obfuscation_map();
        let enabled = self.config.obfuscation.enabled;
        let ghost names = bundle_names(self.entries(), self.settings());
        let mut i: usize = 0;
        assert(names.take(0) =~= Seq::<Seq<char>>::empty());
        while i < aliases.len()
            invariant
                i <= aliases@.len(),
                aliases@.len() == self.entries().len(),
                names == bundle_names(self.entries(), self.settings()),
                enabled == self.settings().obfuscation.enabled,
                forall|k: int| 0 <= k < aliases@.len() ==> (#[trigger] aliases@[k]).0@ == self.entries()[k].0 && aliases@[k].1@
                    == alias_of(self.settings().obfuscation.prefix@, self.settings().obfuscation.seed, self.entries()[k].0),
                builder.preflight_disabled() == self.preflight_disabled(),
                builder.log() == log_of(names.take(i as int), false),
            decreases aliases@.len() - i,
        {
            let name = if enabled {
                aliases[i].1.as_str()
            } else {
                aliases[i].0.as_str()
            };
            assert(name@ == names[i as int]);
            assert(names.take(i + 1).drop_last() =~= names.take(i as int));
            let _ = builder.classify(name, false);
            i = i + 1;
        }
        assert(names.take(aliases@.len() as int) =~= names);
        let header = generate_css_header(false, minify, version, time);
        finish_css(header.as_str(), builder.bundle(), minify)
    }
}

/// The style sheet for a list of classes: each class is handed to a fresh
/// compiler, whose bundle is the sheet; a failed bundle gives an empty sheet.
pub fn generate_tailwind_css(classes: &Vec<String>, no_preflight: bool, obfuscate: bool) -> (r: String)
    ensures
        r@ == match bundled(log_of(crate::text::views(classes@), obfuscate), no_preflight) {
            Some(b) => b,
            None => Seq::empty(),
        },
{
    let ghost names = crate::text::views(classes@);
    let mut compiler = ClassCompiler::new(no_preflight);
    let mut i: usize = 0;
    assert(names.take(0) =~= Seq::<Seq<char>>::empty());
    while i < classes.len()
        invariant
            i <= classes@.len(),
            names == crate::text::views(classes@),
            compiler.preflight_disabled() == no_preflight,
            compiler.log() == log_of(names.take(i as int), obfuscate),
        decreases classes@.len() - i,
    {
        assert(names.take(i + 1).drop_last() =~= names.take(i as int));
        assert(names.take(i + 1).last() == classes@[i as int]@);
        let _ = compiler.classify(classes[i].as_str(), obfuscate);
        i = i + 1;
    }
    assert(names.take(classes@.len() as int) =~= names);
    sheet_or_empty(compiler.bundle())
}

/// A bundle, or an empty sheet when bundling failed.
pub fn sheet_or_empty(bundle: Option<String>) -> (r: String)
    ensures
        r@ == (match crate::compiler::opt_view(bundle) {
            Some(b) => b,
            None => Seq::empty(),
        }),
{
    match bundle {
        Some(b) => b,
        None => String::new(),
    }
}

} // verus!
