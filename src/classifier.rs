//! Decides whether a string literal reads as a list of utility classes.
use vstd::prelude::*;
use crate::text::{
    chars_of, contains_char, contains_chars, has_infix, has_prefix, is_ws, is_ws_char,
    split_tokens, starts_with_chars, tokens,
};

verus! {

/// A character that may appear in a class list.
pub open spec fn class_char(c: char) -> bool {
    ('a' <= c && c <= 'z') || ('A' <= c && c <= 'Z') || ('0' <= c && c <= '9') || c == '-' || c
        == '_' || c == ':' || c == '[' || c == ']' || c == '(' || c == ')' || c == '/' || c == '#'
        || c == '%' || c == '.' || is_ws(c)
}

pub open spec fn all_class_chars(v: Seq<char>) -> bool {
    forall|i: int| 0 <= i < v.len() ==> class_char(#[trigger] v[i])
}

/// Starts like a URL or a path, or holds a backslash.
pub open spec fn looks_like_path(v: Seq<char>) -> bool {
    has_prefix(v, "http://"@) || has_prefix(v, "https://"@) || has_prefix(v, "/"@) || has_prefix(
        v,
        "./"@,
    ) || has_prefix(v, "../"@) || v.contains('\\')
}

/// Holds sentence punctuation; a dot counts only when no `0.` or `1.` excuses it.
pub open spec fn has_punctuation(v: Seq<char>) -> bool {
    (v.contains('.') && !has_infix(v, "0."@) && !has_infix(v, "1."@)) || v.contains('!')
        || v.contains('?') || v.contains(',')
}

/// Holds one of the markers typical of utility classes.
pub open spec fn has_class_marker(v: Seq<char>) -> bool {
    v.contains('-') || v.contains(':') || v.contains('[') || v.contains(']')
}

/// A single token that reads like a utility class.
pub open spec fn utility_token(t: Seq<char>) -> bool {
    t.contains('-') || t.contains(':') || has_prefix(t, "bg-"@) || has_prefix(t, "text-"@)
        || has_prefix(t, "p-"@) || has_prefix(t, "m-"@) || has_prefix(t, "flex"@) || has_prefix(
        t,
        "grid"@,
    ) || has_prefix(t, "hover:"@) || has_prefix(t, "focus:"@) || has_prefix(t, "md:"@)
        || has_prefix(t, "lg:"@)
}

/// A token with a dash or longer than three characters.
pub open spec fn wordy_token(t: Seq<char>) -> bool {
    t.contains('-') || t.len() > 3
}

pub open spec fn any_utility_token(ts: Seq<Seq<char>>) -> bool {
    exists|i: int| 0 <= i < ts.len() && utility_token(#[trigger] ts[i])
}

pub open spec fn any_wordy_token(ts: Seq<Seq<char>>) -> bool {
    exists|i: int| 0 <= i < ts.len() && wordy_token(#[trigger] ts[i])
}

/// Whether `v` is taken for a class list; `in_class` says whether the
/// traversal stands in a class-bearing position.
pub open spec fn class_like(v: Seq<char>, in_class: bool) -> bool {
    if v.len() < 2 || looks_like_path(v) || has_punctuation(v) {
        false
    } else if in_class {
        all_class_chars(v) && (has_class_marker(v) || v.contains(' '))
    } else if !all_class_chars(v) {
        false
    } else if has_class_marker(v) {
        any_utility_token(tokens(v))
    } else if v.contains(' ') {
        tokens(v).len() >= 2 && any_wordy_token(tokens(v))
    } else {
        false
    }
}

fn is_class_char(c: char) -> (r: bool)
    ensures
        r == class_char(c),
{
    ('a' <= c && c <= 'z') || ('A' <= c && c <= 'Z') || ('0' <= c && c <= '9') || c == '-' || c
        == '_' || c == ':' || c == '[' || c == ']' || c == '(' || c == ')' || c == '/' || c == '#'
        || c == '%' || c == '.' || is_ws_char(c)
}

fn only_class_chars(v: &[char]) -> (r: bool)
    ensures
        r == all_class_chars(v@),
{
    let mut i: usize = 0;
    while i < v.len()
        invariant
            i <= v@.len(),
            forall|k: int| 0 <= k < i ==> class_char(#[trigger] v@[k]),
        decreases v@.len() - i,
    {
        if !is_class_char(v[i]) {
            return false;
        }
        i = i + 1;
    }
    true
}

fn is_utility_token(t: &[char]) -> (r: bool)
    ensures
        r == utility_token(t@),
{
    contains_char(t, '-') || contains_char(t, ':') || starts_with_chars(t, "bg-")
        || starts_with_chars(t, "text-") || starts_with_chars(t, "p-") || starts_with_chars(t, "m-")
        || starts_with_chars(t, "flex") || starts_with_chars(t, "grid") || starts_with_chars(
        t,
        "hover:",
    ) || starts_with_chars(t, "focus:") || starts_with_chars(t, "md:") || starts_with_chars(t, "lg:")
}

/// Whether `value` should be treated as a class list. Outside class-bearing
/// positions it asks for stronger evidence than inside them.
pub fn is_class_like(value: &str, in_class_context: bool) -> (r: bool)
    ensures
        r == class_like(value@, in_class_context),
{
    let v = chars_of(value);
    let vs = v.as_slice();
    if v.len() < 2 {
        return false;
    }
    if starts_with_chars(vs, "http://") || starts_with_chars(vs, "https://") || starts_with_chars(
        vs,
        "/",
    ) || starts_with_chars(vs, "./") || starts_with_chars(vs, "../") || contains_char(vs, '\\') {
        return false;
    }
    if (contains_char(vs, '.') && !contains_chars(vs, "0.") && !contains_chars(vs, "1."))
        || contains_char(vs, '!') || contains_char(vs, '?') || contains_char(vs, ',') {
        return false;
    }
    let marker = contains_char(vs, '-') || contains_char(vs, ':') || contains_char(vs, '[')
        || contains_char(vs, ']');
    let valid = only_class_chars(vs);
    if in_class_context {
        return valid && (marker || contains_char(vs, ' '));
    }
    if !valid {
        return false;
    }
    if marker {
        let ts = split_tokens(vs);
        let mut i: usize = 0;
        assert(class_like(value@, in_class_context) == any_utility_token(tokens(v@)));
        while i < ts.len()
            invariant
                class_like(value@, in_class_context) == any_utility_token(tokens(v@)),
                ts@.len() == tokens(v@).len(),
                forall|k: int| 0 <= k < ts@.len() ==> #[trigger] ts@[k]@ == tokens(v@)[k],
                i <= ts@.len(),
                forall|k: int| 0 <= k < i ==> !utility_token(#[trigger] tokens(v@)[k]),
            decreases ts@.len() - i,
        {
            let tc = chars_of(ts[i].as_str());
            if is_utility_token(tc.as_slice()) {
                assert(utility_token(tokens(v@)[i as int]));
                return true;
            }
            i = i + 1;
        }
        false
    } else if contains_char(vs, ' ') {
        let ts = split_tokens(vs);
        if ts.len() < 2 {
            return false;
        }
        let mut i: usize = 0;
        assert(class_like(value@, in_class_context) == any_wordy_token(tokens(v@)));
        while i < ts.len()
            invariant
                class_like(value@, in_class_context) == any_wordy_token(tokens(v@)),
                ts@.len() == tokens(v@).len(),
                forall|k: int| 0 <= k < ts@.len() ==> #[trigger] ts@[k]@ == tokens(v@)[k],
                i <= ts@.len(),
                forall|k: int| 0 <= k < i ==> !wordy_token(#[trigger] tokens(v@)[k]),
            decreases ts@.len() - i,
        {
            let tc = chars_of(ts[i].as_str());
            if contains_char(tc.as_slice(), '-') || tc.len() > 3 {
                assert(wordy_token(tokens(v@)[i as int]));
                return true;
            }
            i = i + 1;
        }
        false
    } else {
        false
    }
}

} // verus!
