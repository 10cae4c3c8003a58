//! The decisions of the context-aware visitor. A tree walker reports each
//! node of interest as an event; the visitor keeps the context stack and
//! the variable table, and says which string literals to rewrite and how.
use vstd::prelude::*;
use crate::classifier::{class_like, is_class_like};
use crate::compiler::ClassCompiler;
use crate::context::{helper_name, in_class, AstContext, ContextStack, VariableTracker};
use crate::rewriter::{compiler_of, rewritten};
use crate::text::same_text;

verus! {

/// The attribute or property names that carry classes.
pub open spec fn class_key(name: Seq<char>) -> bool {
    name == "className"@ || name == "class"@
}

/// Rewrites class strings of one file while its tree is walked.
pub struct TailwindAstMutator {
    compiler: ClassCompiler,
    obfuscate: bool,
    transformed_count: usize,
    context_stack: ContextStack,
    variable_tracker: VariableTracker,
}

impl TailwindAstMutator {
    pub closed spec fn stack(&self) -> Seq<AstContext> {
        self.context_stack@
    }

    pub closed spec fn count(&self) -> nat {
        self.transformed_count as nat
    }

    pub closed spec fn obfuscating(&self) -> bool {
        self.obfuscate
    }

    pub closed spec fn marked(&self) -> Set<Seq<char>> {
        self.variable_tracker.marked()
    }

    /// The stack is never empty and `General` lies at its base.
    pub open spec fn wf(&self) -> bool {
        self.stack().len() >= 1 && self.stack()[0] == AstContext::General
    }

    /// The rewrite this visitor applies to a class list.
    pub open spec fn rewrite_of(&self, s: Seq<char>) -> Seq<char> {
        rewritten(s, compiler_of(self.obfuscating()))
    }

    pub fn new(compiler: ClassCompiler, obfuscate: bool) -> (r: Self)
        ensures
            r.wf(),
            r.stack() == seq![AstContext::General],
            r.count() == 0,
            r.obfuscating() == obfuscate,
            r.marked() == Set::<Seq<char>>::empty(),
    {
        TailwindAstMutator {
            compiler,
            obfuscate,
            transformed_count: 0,
            context_stack: ContextStack::new(),
            variable_tracker: VariableTracker::new(),
        }
    }

    /// Number of string literals rewritten so far.
    pub fn transformed_count(&self) -> (r: usize)
        ensures
            r == self.count(),
    {
        self.transformed_count
    }

    /// Hands the compiler back, with the classes it recorded.
    pub fn into_compiler(self) -> ClassCompiler {
        self.compiler
    }

    pub fn is_in_class_context(&self) -> (r: bool)
        ensures
            r == in_class(self.stack()),
    {
        self.context_stack.is_in_class_context()
    }

    /// Whether `value` reads as a class list where the walk stands now.
    pub fn looks_like_classes(&self, value: &str) -> (r: bool)
        ensures
            r == class_like(value@, in_class(self.stack())),
    {
        is_class_like(value, self.context_stack.is_in_class_context())
    }

    fn rewrite(&mut self, value: &str) -> (r: Option<String>)
        requires
            old(self).wf(),
        ensures
            final(self).wf(),
            final(self).stack() == old(self).stack(),
            final(self).marked() == old(self).marked(),
            final(self).obfuscating() == old(self).obfuscating(),
            match r {
                Some(t) => t@ == old(self).rewrite_of(value@) && t@ != value@ && final(self).count()
                    == (if old(self).count() < usize::MAX {
                    old(self).count() + 1
                } else {
                    old(self).count()
                }),
                None => old(self).rewrite_of(value@) == value@ && final(self).count() == old(
                    self,
                ).count(),
            },
    {
        let t = self.compiler.process_with_fallback(value, self.obfuscate);
        if same_text(t.as_str(), value) {
            None
        } else {
            if self.transformed_count < usize::MAX {
                self.transformed_count = self.transformed_count + 1;
            }
            Some(t)
        }
    }

    /// A plain string literal or a template segment: rewritten when it reads
    /// as a class list here and the rewrite changes it.
    pub fn visit_string(&mut self, value: &str) -> (r: Option<String>)
        requires
            old(self).wf(),
        ensures
            final(self).wf(),
            final(self).stack() == old(self).stack(),
            final(self).marked() == old(self).marked(),
            final(self).obfuscating() == old(self).obfuscating(),
            r is Some <==> (class_like(value@, in_class(old(self).stack())) && old(self).rewrite_of(
                value@,
            ) != value@),
            r matches Some(t) ==> t@ == old(self).rewrite_of(value@),
            r is None ==> final(self).count() == old(self).count(),
            r is Some ==> final(self).count() == (if old(self).count() < usize::MAX {
                old(self).count() + 1
            } else {
                old(self).count()
            }),
    {
        if self.looks_like_classes(value) {
            self.rewrite(value)
        } else {
            None
        }
    }

    /// A string literal standing directly as the value of a class attribute
    /// or property: its position is evidence enough, so the classifier is
    /// not asked.
    pub fn visit_class_value(&mut self, value: &str) -> (r: Option<String>)
        requires
            old(self).wf(),
        ensures
            final(self).wf(),
            final(self).stack() == old(self).stack(),
            final(self).marked() == old(self).marked(),
            final(self).obfuscating() == old(self).obfuscating(),
            r is Some <==> old(self).rewrite_of(value@) != value@,
            r matches Some(t) ==> t@ == old(self).rewrite_of(value@),
            r is None ==> final(self).count() == old(self).count(),
            r is Some ==> final(self).count() == (if old(self).count() < usize::MAX {
                old(self).count() + 1
            } else {
                old(self).count()
            }),
    {
        self.rewrite(value)
    }

    /// A JSX attribute: a `className` or `class` attribute opens a class
    /// scope, which the walker closes with `leave_scope` after its value.
    pub fn enter_jsx_attr(&mut self, name: &str) -> (pushed: bool)
        requires
            old(self).wf(),
        ensures
            final(self).wf(),
            pushed == class_key(name@),
            pushed ==> final(self).stack() == old(self).stack().push(AstContext::JsxClassAttribute),
            !pushed ==> final(self).stack() == old(self).stack(),
            final(self).count() == old(self).count(),
            final(self).marked() == old(self).marked(),
            final(self).obfuscating() == old(self).obfuscating(),
    {
        if same_text(name, "className") || same_text(name, "class") {
            self.context_stack.push(AstContext::JsxClassAttribute);
            true
        } else {
            false
        }
    }

    /// An object property, named by an identifier or a string key.
    pub fn enter_property(&mut self, key: &str) -> (pushed: bool)
        requires
            old(self).wf(),
        ensures
            final(self).wf(),
            pushed == class_key(key@),
            pushed ==> final(self).stack() == old(self).stack().push(AstContext::ClassNameProperty),
            !pushed ==> final(self).stack() == old(self).stack(),
            final(self).count() == old(self).count(),
            final(self).marked() == old(self).marked(),
            final(self).obfuscating() == old(self).obfuscating(),
    {
        if same_text(key, "className") || same_text(key, "class") {
            self.context_stack.push(AstContext::ClassNameProperty);
            true
        } else {
            false
        }
    }

    /// A call whose callee is a plain identifier: a class-joining helper
    /// opens a scope for its arguments.
    pub fn enter_call(&mut self, callee: &str) -> (pushed: bool)
        requires
            old(self).wf(),
        ensures
            final(self).wf(),
            pushed == helper_name(callee@),
            pushed ==> final(self).stack().len() == old(self).stack().len() + 1,
            pushed ==> final(self).stack().drop_last() == old(self).stack(),
            pushed ==> (final(self).stack().last() matches AstContext::WhitelistedFunction(f)
                && f@ == callee@),
            !pushed ==> final(self).stack() == old(self).stack(),
            final(self).count() == old(self).count(),
            final(self).marked() == old(self).marked(),
            final(self).obfuscating() == old(self).obfuscating(),
    {
        if self.variable_tracker.is_whitelisted_function(callee) {
            self.context_stack.push(AstContext::WhitelistedFunction(String::from_str(callee)));
            proof {
                assert(self.stack().drop_last() =~= old(self).stack());
            }
            true
        } else {
            false
        }
    }

    /// A conditional or logical expression: inside a class scope its
    /// branches are visited under a branch context.
    pub fn enter_branch(&mut self) -> (pushed: bool)
        requires
            old(self).wf(),
        ensures
            final(self).wf(),
            pushed == in_class(old(self).stack()),
            pushed ==> final(self).stack() == old(self).stack().push(
                AstContext::ConditionalExpression,
            ),
            !pushed ==> final(self).stack() == old(self).stack(),
            final(self).count() == old(self).count(),
            final(self).marked() == old(self).marked(),
            final(self).obfuscating() == old(self).obfuscating(),
    {
        if self.context_stack.is_in_class_context() {
            self.context_stack.push(AstContext::ConditionalExpression);
            true
        } else {
            false
        }
    }

    /// Closes the scope opened by the matching `enter_*` call.
    pub fn leave_scope(&mut self)
        requires
            old(self).wf(),
            old(self).stack().len() > 1,
        ensures
            final(self).wf(),
            final(self).stack() == old(self).stack().drop_last(),
            final(self).count() == old(self).count(),
            final(self).marked() == old(self).marked(),
            final(self).obfuscating() == old(self).obfuscating(),
    {
        self.context_stack.pop();
    }

    /// A variable declarator, reported after its initializer was visited:
    /// when the initializer stood in a class scope, the name is marked.
    pub fn declare_variable(&mut self, name: &str, initializer_in_class: bool)
        requires
            old(self).wf(),
        ensures
            final(self).wf(),
            final(self).stack() == old(self).stack(),
            final(self).count() == old(self).count(),
            final(self).obfuscating() == old(self).obfuscating(),
            initializer_in_class ==> final(self).marked() == old(self).marked().insert(name@),
            !initializer_in_class ==> final(self).marked() == old(self).marked(),
    {
        if initializer_in_class {
            self.variable_tracker.mark_as_class_variable(name);
        }
    }

    /// Whether `name` was declared with a class-bearing initializer.
    pub fn is_class_variable(&self, name: &str) -> (r: bool)
        ensures
            r == self.marked().contains(name@),
    {
        self.variable_tracker.is_class_variable(name)
    }
}

} // verus!
