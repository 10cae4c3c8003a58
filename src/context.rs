//! Where the traversal stands: a stack of contexts, and the names that a
//! file has shown to carry classes.
use vstd::prelude::*;
use crate::text::{position_of, same_text};

verus! {

/// One position in the syntax tree that changes how strings are read.
#[derive(Debug, Clone)]
pub enum AstContext {
    /// A `className` or `class` JSX attribute.
    JsxClassAttribute,
    /// A `className` or `class` object property.
    ClassNameProperty,
    /// The arguments of a class-joining helper such as `clsx`.
    WhitelistedFunction(String),
    /// The initializer of a variable known to carry classes.
    TrackedVariable(String),
    /// A branch of a conditional or logical expression.
    ConditionalExpression,
    /// A template literal.
    TemplateLiteral,
    /// Anywhere else.
    General,
}

/// Strings met in this context are read as class lists by default.
pub open spec fn class_bearing(c: AstContext) -> bool {
    match c {
        AstContext::JsxClassAttribute => true,
        AstContext::ClassNameProperty => true,
        AstContext::WhitelistedFunction(_) => true,
        AstContext::TrackedVariable(_) => true,
        _ => false,
    }
}

/// Some context of the stack is class-bearing.
pub open spec fn in_class(s: Seq<AstContext>) -> bool {
    exists|i: int| 0 <= i < s.len() && class_bearing(#[trigger] s[i])
}

/// A stack of contexts whose base is always `General`.
#[derive(Debug, Clone)]
pub struct ContextStack {
    stack: Vec<AstContext>,
}

impl View for ContextStack {
    type V = Seq<AstContext>;

    closed spec fn view(&self) -> Seq<AstContext> {
        self.stack@
    }
}

impl ContextStack {
    /// The stack is never empty and `General` lies at its base.
    pub open spec fn wf(&self) -> bool {
        self@.len() >= 1 && self@[0] == AstContext::General
    }

    pub fn new() -> (r: Self)
        ensures
            r.wf(),
            r@ == seq![AstContext::General],
    {
        let r = ContextStack { stack: vec![AstContext::General] };
        assert(r@ =~= seq![AstContext::General]);
        r
    }

    pub fn push(&mut self, context: AstContext)
        requires
            old(self).wf(),
        ensures
            final(self).wf(),
            final(self)@ == old(self)@.push(context),
    {
        self.stack.push(context);
    }

    /// Removes the innermost context; the base is never removed.
    pub fn pop(&mut self)
        requires
            old(self).wf(),
        ensures
            final(self).wf(),
            old(self)@.len() > 1 ==> final(self)@ == old(self)@.drop_last(),
            old(self)@.len() == 1 ==> final(self)@ == old(self)@,
    {
        if self.stack.len() > 1 {
            self.stack.pop();
        }
    }

    pub fn depth(&self) -> (r: usize)
        ensures
            r == self@.len(),
    {
        self.stack.len()
    }

    pub fn current(&self) -> (r: &AstContext)
        requires
            self.wf(),
        ensures
            *r == self@.last(),
    {
        &self.stack[self.stack.len() - 1]
    }

    pub fn is_in_class_context(&self) -> (r: bool)
        ensures
            r == in_class(self@),
    {
        let mut i: usize = 0;
        while i < self.stack.len()
            invariant
                i <= self.stack@.len(),
                forall|k: int| 0 <= k < i ==> !class_bearing(#[trigger] self.stack@[k]),
            decreases self.stack@.len() - i,
        {
            match &self.stack[i] {
                AstContext::JsxClassAttribute
                | AstContext::ClassNameProperty
                | AstContext::WhitelistedFunction(_)
                | AstContext::TrackedVariable(_) => {
                    assert(class_bearing(self.stack@[i as int]));
                    return true;
                },
                _ => {},
            }
            i = i + 1;
        }
        false
    }
}

/// The names of the class-joining helpers whose arguments are class lists.
pub open spec fn helper_name(name: Seq<char>) -> bool {
    name == "clsx"@ || name == "cn"@ || name == "twMerge"@ || name == "classNames"@ || name
        == "tw"@ || name == "classnames"@ || name == "twJoin"@
}

/// Remembers, within one file, which variables were initialized in a
/// class-bearing position; a name once marked stays marked.
#[derive(Debug, Clone)]
pub struct VariableTracker {
    class_variables: Vec<String>,
}

impl VariableTracker {
    /// The names marked so far.
    pub closed spec fn marked(&self) -> Set<Seq<char>> {
        Set::new(|n: Seq<char>| exists|i: int| 0 <= i < self.class_variables@.len() && #[trigger] self.class_variables@[i]@ == n)
    }

    pub fn new() -> (r: Self)
        ensures
            r.marked() == Set::<Seq<char>>::empty(),
    {
        let r = VariableTracker { class_variables: Vec::new() };
        assert(r.marked() =~= Set::<Seq<char>>::empty());
        r
    }

    pub fn mark_as_class_variable(&mut self, name: &str)
        ensures
            final(self).marked() == old(self).marked().insert(name@),
    {
        let ghost before = self.marked();
        match position_of(&self.class_variables, name) {
            Some(_) => {
                assert(self.marked() =~= before.insert(name@));
            },
            None => {
                let ghost old_vars = self.class_variables@;
                self.class_variables.push(String::from_str(name));
                assert(self.class_variables@[old_vars.len() as int]@ == name@);
                assert forall|n: Seq<char>| self.marked().contains(n) <==> before.insert(name@).contains(n) by {
                    if before.contains(n) {
                        let i = choose|i: int| 0 <= i < old_vars.len() && #[trigger] old_vars[i]@ == n;
                        assert(self.class_variables@[i]@ == n);
                    }
                    if self.marked().contains(n) && n != name@ {
                        let i = choose|i: int| 0 <= i < self.class_variables@.len() && #[trigger] self.class_variables@[i]@ == n;
                        assert(old_vars[i]@ == n);
                    }
                }
                assert(self.marked() =~= before.insert(name@));
            },
        }
    }

    pub fn is_class_variable(&self, name: &str) -> (r: bool)
        ensures
            r == self.marked().contains(name@),
    {
        match position_of(&self.class_variables, name) {
            Some(i) => {
                assert(self.marked().contains(name@));
                true
            },
            None => false,
        }
    }

    pub fn is_whitelisted_function(&self, name: &str) -> (r: bool)
        ensures
            r == helper_name(name@),
    {
        same_text(name, "clsx") || same_text(name, "cn") || same_text(name, "twMerge") || same_text(
            name,
            "classNames",
        ) || same_text(name, "tw") || same_text(name, "classnames") || same_text(name, "twJoin")
    }
}

} // verus!
