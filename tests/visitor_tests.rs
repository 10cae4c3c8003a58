use tailwind_extractor::classifier::is_class_like;
use tailwind_extractor::compiler::ClassCompiler;
use tailwind_extractor::context::{AstContext, ContextStack, VariableTracker};
use tailwind_extractor::visitor::TailwindAstMutator;

#[test]
fn test_looks_like_classes_function() {
    let mut mutator = TailwindAstMutator::new(ClassCompiler::new(false), false);

    assert!(mutator.looks_like_classes("p-4 bg-blue-500"));
    assert!(mutator.looks_like_classes("flex items-center"));
    assert!(mutator.looks_like_classes("hover:bg-blue-600"));
    assert!(mutator.looks_like_classes("bg-[#123456]"));

    assert!(!mutator.looks_like_classes("mycustomclass"));
    assert!(mutator.looks_like_classes("my-custom-class"));

    assert!(!mutator.looks_like_classes("https://example.com"));
    assert!(!mutator.looks_like_classes("Hello, world!"));
    assert!(!mutator.looks_like_classes("/path/to/file"));
    assert!(!mutator.looks_like_classes("./relative/path"));
    assert!(!mutator.looks_like_classes("What is this?"));
    assert!(!mutator.looks_like_classes(""));
    assert!(!mutator.looks_like_classes("a"));

    assert!(mutator.enter_jsx_attr("className"));

    assert!(!mutator.looks_like_classes("mycustomclass"));
    assert!(mutator.looks_like_classes("my-custom-class"));
    assert!(mutator.looks_like_classes("simple words here"));

    mutator.leave_scope();
}

#[test]
fn classifier_precision_at_boundaries() {
    assert!(!is_class_like("https://example.com", false));
    assert!(is_class_like("p-4 bg-blue-500", false));
    assert!(!is_class_like("mycustomclass", false));
    assert!(!is_class_like("mycustomclass", true));
    assert!(is_class_like("simple words here", true));
}

#[test]
fn classifier_outside_class_context_needs_evidence() {
    assert!(is_class_like("flex grid", false));
    assert!(is_class_like("gap-[0.25rem] gap-[1.5rem]", false));
    assert!(!is_class_like("a b", false));
    assert!(!is_class_like("[abc]", false));
    assert!(!is_class_like("back\\slash-x", true));
    assert!(!is_class_like("not.a-class", true));
    assert!(!is_class_like("x{y}-z", true));
}

#[test]
fn context_stack_keeps_its_base() {
    let mut stack = ContextStack::new();
    assert_eq!(stack.depth(), 1);
    assert!(!stack.is_in_class_context());
    stack.pop();
    assert_eq!(stack.depth(), 1);
    assert!(matches!(stack.current(), AstContext::General));
    stack.push(AstContext::ConditionalExpression);
    assert!(!stack.is_in_class_context());
    stack.push(AstContext::WhitelistedFunction("clsx".to_string()));
    assert!(stack.is_in_class_context());
    stack.pop();
    stack.pop();
    assert_eq!(stack.depth(), 1);
}

#[test]
fn variable_tracker_marks_and_knows_helpers() {
    let mut tracker = VariableTracker::new();
    assert!(!tracker.is_class_variable("button"));
    tracker.mark_as_class_variable("button");
    tracker.mark_as_class_variable("button");
    assert!(tracker.is_class_variable("button"));
    assert!(!tracker.is_class_variable("other"));
    for name in ["clsx", "cn", "twMerge", "classNames", "tw", "classnames", "twJoin"] {
        assert!(tracker.is_whitelisted_function(name));
    }
    assert!(!tracker.is_whitelisted_function("join"));
}

#[test]
fn visitor_scopes_and_branches() {
    let mut mutator = TailwindAstMutator::new(ClassCompiler::new(false), false);
    assert!(!mutator.enter_branch());
    assert!(!mutator.enter_jsx_attr("id"));
    assert!(mutator.enter_call("clsx"));
    assert!(mutator.is_in_class_context());
    assert!(mutator.enter_branch());
    mutator.leave_scope();
    mutator.leave_scope();
    assert!(!mutator.is_in_class_context());
    assert!(mutator.enter_property("class"));
    let was = mutator.is_in_class_context();
    mutator.leave_scope();
    mutator.declare_variable("styles", was);
    assert!(mutator.is_class_variable("styles"));
    mutator.declare_variable("other", false);
    assert!(!mutator.is_class_variable("other"));
}

#[test]
fn visitor_leaves_non_class_strings() {
    let mut mutator = TailwindAstMutator::new(ClassCompiler::new(false), false);
    assert_eq!(mutator.visit_string("Hello, world!"), None);
    assert_eq!(mutator.visit_string("https://example.com"), None);
    assert_eq!(mutator.transformed_count(), 0);
}

#[test]
fn visitor_rewrite_keeps_custom_classes() {
    let mut mutator = TailwindAstMutator::new(ClassCompiler::new(false), false);
    assert!(mutator.enter_jsx_attr("className"));
    let r = mutator.visit_class_value("my-custom-class another-class");
    assert_eq!(r, None);
    mutator.leave_scope();
}
