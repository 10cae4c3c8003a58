//! The plain transform: every string literal is handed to the compiler, and
//! its tokens are collected, deduplicated, with a count of all occurrences.
use vstd::prelude::*;
use crate::compiler::{answer, ClassCompiler};
use crate::config::add_missing;
use indexmap::IndexSet;
use crate::text::{chars_of, split_tokens, tokens, views};

verus! {

#[verifier::external_type_specification]
#[verifier::external_body]
#[verifier::reject_recursive_types(T)]
#[verifier::reject_recursive_types(S)]
pub struct ExIndexSet<T, S>(IndexSet<T, S>);

/// A set of class names that keeps insertion order.
pub type ClassSet = IndexSet<String>;

/// What an ordered set of class names holds, in insertion order.
pub uninterp spec fn set_items(s: ClassSet) -> Seq<Seq<char>>;

/// Relies on `IndexSet::new`: an empty set.
#[verifier::external_body]
fn set_new() -> (r: ClassSet)
    ensures
        set_items(r).len() == 0,
{
    IndexSet::new()
}

/// Relies on `IndexSet::insert`: an item equal to one already held leaves
/// the set as it was and gives `false`; any other item goes last and gives
/// `true`.
#[verifier::external_body]
fn set_insert(s: &mut ClassSet, item: String) -> (added: bool)
    ensures
        added == !set_items(*old(s)).contains(item@),
        set_items(*final(s)) == (if added {
            set_items(*old(s)).push(item@)
        } else {
            set_items(*old(s))
        }),
{
    s.insert(item)
}

/// Relies on `IndexSet::len`: the number of items.
#[verifier::external_body]
fn set_len(s: &ClassSet) -> (r: usize)
    ensures
        r == set_items(*s).len(),
{
    s.len()
}

/// Relies on `IndexSet::get_index`: the item at a position.
#[verifier::external_body]
fn set_get(s: &ClassSet, index: usize) -> (r: String)
    requires
        index < set_items(*s).len(),
    ensures
        r@ == set_items(*s)[index as int],
{
    s[index].clone()
}

/// Settings of the plain transform.
#[derive(Debug, Clone)]
pub struct TransformConfig {
    /// Whether the compiler obfuscates the classes it recognizes.
    pub obfuscate: bool,
    /// Whether source maps are kept.
    pub source_maps: bool,
}

impl Default for TransformConfig {
    fn default() -> (r: Self)
        ensures
            !r.obfuscate,
            !r.source_maps,
    {
        TransformConfig { obfuscate: false, source_maps: false }
    }
}

/// What the plain transform found.
#[derive(Debug, Clone)]
pub struct TransformMetadata {
    /// Every token seen, once each, in the order first seen.
    pub classes: Vec<String>,
    /// How many tokens were seen, repeats included.
    pub original_count: usize,
}

/// The plain transform over one source.
pub struct TailwindTransformer {
    compiler: ClassCompiler,
    config: TransformConfig,
    classes: ClassSet,
    total_count: usize,
}

/// The answer of the compiler, or the string itself when it fails.
pub open spec fn traced_or_same(value: Seq<char>, obfuscate: bool) -> Seq<char> {
    match answer(value, obfuscate) {
        Some(t) => t,
        None => value,
    }
}

impl TailwindTransformer {
    pub closed spec fn seen(&self) -> Seq<Seq<char>> {
        set_items(self.classes)
    }

    pub closed spec fn total(&self) -> nat {
        self.total_count as nat
    }

    pub closed spec fn settings(&self) -> TransformConfig {
        self.config
    }

    pub fn new(compiler: ClassCompiler, config: TransformConfig) -> (r: Self)
        ensures
            r.seen() == Seq::<Seq<char>>::empty(),
            r.total() == 0,
            r.settings() == config,
    {
        let r = TailwindTransformer { compiler, config, classes: set_new(), total_count: 0 };
        assert(r.seen() =~= Seq::<Seq<char>>::empty());
        r
    }

    /// Records the tokens of `value`.
    pub fn extract_classes(&mut self, value: &str)
        ensures
            final(self).seen() == add_missing(old(self).seen(), tokens(value@)),
            final(self).total() == (if old(self).total() + tokens(value@).len() <= usize::MAX {
                (old(self).total() + tokens(value@).len()) as nat
            } else {
                usize::MAX as nat
            }),
            final(self).settings() == old(self).settings(),
    {
        let ts = split_tokens(chars_of(value).as_slice());
        let ghost start = self.seen();
        let ghost tv = tokens(value@);
        let ghost total0 = self.total();
        let mut i: usize = 0;
        assert(views(ts@) =~= tv);
        assert(tv.take(0) =~= Seq::<Seq<char>>::empty());
        while i < ts.len()
            invariant
                views(ts@) == tv,
                i <= ts@.len(),
                self.seen() == add_missing(start, tv.take(i as int)),
                self.total() == (if total0 + i <= usize::MAX {
                    (total0 + i) as nat
                } else {
                    usize::MAX as nat
                }),
                self.settings() == old(self).settings(),
            decreases ts@.len() - i,
        {
            assert(tv.take(i + 1).drop_last() =~= tv.take(i as int));
            assert(tv.take(i + 1).last() == ts@[i as int]@);
            set_insert(&mut self.classes, ts[i].clone());
            if self.total_count < usize::MAX {
                self.total_count = self.total_count + 1;
            }
            i = i + 1;
        }
        assert(tv.take(ts@.len() as int) =~= tv);
    }

    /// Rewrites one string literal with the compiler, keeping it as it is
    /// when the compiler fails, and records its tokens.
    pub fn process_string(&mut self, value: &str) -> (r: String)
        ensures
            r@ == traced_or_same(value@, old(self).settings().obfuscate),
            final(self).seen() == add_missing(old(self).seen(), tokens(value@)),
            final(self).total() == (if old(self).total() + tokens(value@).len() <= usize::MAX {
                (old(self).total() + tokens(value@).len()) as nat
            } else {
                usize::MAX as nat
            }),
            final(self).settings() == old(self).settings(),
    {
        let processed = match self.compiler.classify(value, self.config.obfuscate) {
            Some(t) => t,
            None => String::from_str(value),
        };
        self.extract_classes(value);
        processed
    }

    /// What was found so far.
    pub fn metadata(&self) -> (r: TransformMetadata)
        ensures
            views(r.classes@) == self.seen(),
            r.original_count == self.total(),
    {
        let mut classes: Vec<String> = Vec::new();
        let n = set_len(&self.classes);
        let mut i: usize = 0;
        while i < n
            invariant
                n == self.seen().len(),
                i <= n,
                classes@.len() == i,
                forall|k: int| 0 <= k < i ==> #[trigger] classes@[k]@ == self.seen()[k],
            decreases n - i,
        {
            classes.push(set_get(&self.classes, i));
            i = i + 1;
        }
        assert(views(classes@) =~= self.seen());
        TransformMetadata { classes, original_count: self.total_count }
    }
}

} // verus!
