//! The utility-class compiler, provided by `tailwind-css`.
use vstd::prelude::*;
use tailwind_css::TailwindBuilder;
use crate::text::{chars_of, contains_chars, has_infix};

verus! {

#[verifier::external_type_specification]
#[verifier::external_body]
pub struct ExTailwindBuilder(TailwindBuilder);

/// What `TailwindBuilder::trace` reports for a class list on a builder with
/// the built-in theme: the rewritten class names, or nothing when it fails.
pub uninterp spec fn traced(style: Seq<char>, obfuscate: bool) -> Option<Seq<char>>;

/// What `TailwindBuilder::bundle` writes on a builder with the built-in
/// theme, after tracing `styles` (each with its obfuscation flag), in order,
/// with the reset sheet left out or not: the style sheet, or nothing when
/// writing it fails.
pub uninterp spec fn bundled(styles: Seq<(Seq<char>, bool)>, no_preflight: bool) -> Option<Seq<char>>;

/// Styles the compiler cannot be asked about: its resolver stops on the
/// element `prose`, which only a style holding those letters can produce.
pub open spec fn unanswerable(style: Seq<char>) -> bool {
    has_infix(style, "prose"@)
}

/// The compiler's answer for a style it can be asked about, and nothing for
/// one it cannot.
pub open spec fn answer(style: Seq<char>, obfuscate: bool) -> Option<Seq<char>> {
    if unanswerable(style) {
        None
    } else {
        traced(style, obfuscate)
    }
}

/// The log of styles handed to `trace` after one more question.
pub open spec fn log_after(log: Seq<(Seq<char>, bool)>, style: Seq<char>, obfuscate: bool) -> Seq<(Seq<char>, bool)> {
    if unanswerable(style) {
        log
    } else {
        log.push((style, obfuscate))
    }
}

/// Relies on `TailwindBuilder::default`, with `preflight.disable` set: a
/// builder with the built-in theme and no classes recorded.
#[verifier::external_body]
fn fresh_builder(disable_preflight: bool) -> TailwindBuilder {
    let mut builder = TailwindBuilder::default();
    builder.preflight.disable = disable_preflight;
    builder
}

/// Relies on `TailwindBuilder::trace`: on a builder with the built-in theme its
/// answer depends on the style and the flag alone; the classes it recognizes
/// are recorded in the builder for bundling. A style holding `prose` can
/// reach an unfinished branch of its resolver, so it is never asked.
#[verifier::external_body]
fn trace_style(builder: &mut TailwindBuilder, style: &str, obfuscate: bool) -> (r: Option<String>)
    requires
        !unanswerable(style@),
    ensures
        match r {
            Some(t) => traced(style@, obfuscate) == Some(t@),
            None => traced(style@, obfuscate) is None,
        },
{
    builder.trace(style, obfuscate).ok()
}

/// The view of an optional string.
pub open spec fn opt_view(o: Option<String>) -> Option<Seq<char>> {
    match o {
        Some(s) => Some(s@),
        None => None,
    }
}

/// The class compiler: rewrites class lists and records the classes it has
/// seen, then bundles their styles.
pub struct ClassCompiler {
    builder: TailwindBuilder,
    disable_preflight: bool,
    traced_styles: Ghost<Seq<(Seq<char>, bool)>>,
}

/// Relies on `TailwindBuilder::bundle`: its sheet depends on the styles
/// traced so far and on the preflight setting alone (the recorded classes
/// form a set; the built-in theme is fixed).
#[verifier::external_body]
fn bundle_styles(compiler: &ClassCompiler) -> (r: Option<String>)
    ensures
        opt_view(r) == bundled(compiler.log(), compiler.preflight_disabled()),
{
    compiler.builder.bundle().ok()
}

impl ClassCompiler {
    pub closed spec fn preflight_disabled(&self) -> bool {
        self.disable_preflight
    }

    /// The styles handed to the compiler so far, in order.
    pub closed spec fn log(&self) -> Seq<(Seq<char>, bool)> {
        self.traced_styles@
    }

    pub fn new(disable_preflight: bool) -> (r: Self)
        ensures
            r.preflight_disabled() == disable_preflight,
            r.log() == Seq::<(Seq<char>, bool)>::empty(),
    {
        ClassCompiler {
            builder: fresh_builder(disable_preflight),
            disable_preflight,
            traced_styles: Ghost(Seq::empty()),
        }
    }

    pub fn no_preflight(&self) -> (r: bool)
        ensures
            r == self.preflight_disabled(),
    {
        self.disable_preflight
    }

    /// Asks the compiler about one class list; a style it cannot be asked
    /// about gets no answer.
    pub fn classify(&mut self, style: &str, obfuscate: bool) -> (r: Option<String>)
        ensures
            opt_view(r) == answer(style@, obfuscate),
            final(self).preflight_disabled() == old(self).preflight_disabled(),
            final(self).log() == log_after(old(self).log(), style@, obfuscate),
    {
        let v = chars_of(style);
        if contains_chars(v.as_slice(), "prose") {
            return None;
        }
        let r = trace_style(&mut self.builder, style, obfuscate);
        self.traced_styles = Ghost(self.traced_styles@.push((style@, obfuscate)));
        r
    }

    /// The style sheet for every class recorded so far.
    pub fn bundle(&self) -> (r: Option<String>)
        ensures
            opt_view(r) == bundled(self.log(), self.preflight_disabled()),
    {
        bundle_styles(self)
    }
}

} // verus!
