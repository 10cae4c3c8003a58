//! Style sheet text: the generation banner and minification.
use vstd::prelude::*;
use crate::text::{all_ws, chars_of, is_ws, is_ws_char, push_char};

verus! {

/// Characters around which whitespace is never needed.
pub open spec fn tight(c: char) -> bool {
    c == '{' || c == '}' || c == ';' || c == ':' || c == ','
}

fn is_tight(c: char) -> (r: bool)
    ensures
        r == tight(c),
{
    c == '{' || c == '}' || c == ';' || c == ':' || c == ','
}

/// Minification of `c` from position `i` on. `prev` is the last character
/// written outside comments, `in_comment` says whether a dropped comment is
/// open, `in_banner` whether a kept leading comment is being copied, and
/// `out` is what was written so far.
///
/// A comment that opens at the start, or within the first hundred
/// characters after whitespace alone, is the banner and is copied whole;
/// other comments are dropped. A run of whitespace becomes one space, and
/// only between two characters that need it.
pub open spec fn minified_from(
    c: Seq<char>,
    i: int,
    prev: char,
    in_comment: bool,
    in_banner: bool,
    out: Seq<char>,
) -> Seq<char>
    decreases c.len() - i, if in_banner {
        1int
    } else {
        0int
    },
{
    if i < 0 || i >= c.len() {
        out
    } else if in_banner {
        if i + 1 < c.len() {
            if c[i] == '*' && c[i + 1] == '/' {
                minified_from(c, i + 2, prev, false, false, out.push(c[i]).push(c[i + 1]))
            } else {
                minified_from(c, i + 1, prev, false, true, out.push(c[i]))
            }
        } else {
            minified_from(c, i, prev, false, false, out)
        }
    } else if !in_comment && i + 1 < c.len() && c[i] == '/' && c[i + 1] == '*' {
        if i == 0 || (i < 100 && all_ws(c.take(i))) {
            minified_from(c, i + 2, prev, false, true, out.push('/').push('*'))
        } else {
            minified_from(c, i + 2, prev, true, false, out)
        }
    } else if in_comment {
        if c[i] == '*' && i + 1 < c.len() && c[i + 1] == '/' {
            minified_from(c, i + 2, prev, false, false, out)
        } else {
            minified_from(c, i + 1, prev, true, false, out)
        }
    } else if is_ws(c[i]) {
        if !is_ws(prev) && !tight(prev) && i + 1 < c.len() && !tight(c[i + 1]) && !is_ws(c[i + 1]) {
            minified_from(c, i + 1, ' ', false, false, out.push(' '))
        } else {
            minified_from(c, i + 1, prev, false, false, out)
        }
    } else {
        minified_from(c, i + 1, c[i], false, false, out.push(c[i]))
    }
}

/// The minified form of a style sheet.
pub open spec fn minified(c: Seq<char>) -> Seq<char> {
    minified_from(c, 0, ' ', false, false, Seq::empty())
}

fn prefix_all_ws(v: &[char], i: usize) -> (r: bool)
    requires
        i <= v@.len(),
    ensures
        r == all_ws(v@.take(i as int)),
{
    let mut k: usize = 0;
    while k < i
        invariant
            i <= v@.len(),
            k <= i,
            forall|q: int| 0 <= q < k ==> is_ws(#[trigger] v@[q]),
        decreases i - k,
    {
        if !is_ws_char(v[k]) {
            assert(v@.take(i as int)[k as int] == v@[k as int]);
            return false;
        }
        k = k + 1;
    }
    true
}

/// Minifies a style sheet: drops comments but a leading banner, and
/// collapses whitespace to single spaces where one is needed.
pub fn minify_css(css: &str) -> (r: String)
    ensures
        r@ == minified(css@),
{
    let c = chars_of(css);
    let n = c.len();
    let mut out = String::new();
    let mut prev = ' ';
    let mut in_comment = false;
    let mut in_banner = false;
    let mut i: usize = 0;
    while i < n
        invariant
            n == c@.len(),
            c@ == css@,
            i <= n,
            !(in_comment && in_banner),
            minified_from(c@, i as int, prev, in_comment, in_banner, out@) == minified(css@),
        decreases n - i, if in_banner {
            1int
        } else {
            0int
        },
    {
        let ch = c[i];
        if in_banner {
            if i + 1 < n {
                if ch == '*' && c[i + 1] == '/' {
                    push_char(&mut out, ch);
                    push_char(&mut out, c[i + 1]);
                    i = i + 2;
                    in_banner = false;
                } else {
                    push_char(&mut out, ch);
                    i = i + 1;
                }
            } else {
                in_banner = false;
            }
        } else if !in_comment && i + 1 < n && ch == '/' && c[i + 1] == '*' {
            if i == 0 || (i < 100 && prefix_all_ws(c.as_slice(), i)) {
                push_char(&mut out, '/');
                push_char(&mut out, '*');
                in_banner = true;
            } else {
                in_comment = true;
            }
            i = i + 2;
        } else if in_comment {
            if ch == '*' && i + 1 < n && c[i + 1] == '/' {
                in_comment = false;
                i = i + 2;
            } else {
                i = i + 1;
            }
        } else if is_ws_char(ch) {
            if !is_ws_char(prev) && !is_tight(prev) && i + 1 < n && !is_tight(c[i + 1])
                && !is_ws_char(c[i + 1]) {
                push_char(&mut out, ' ');
                prev = ' ';
            }
            i = i + 1;
        } else {
            push_char(&mut out, ch);
            prev = ch;
            i = i + 1;
        }
    }
    out
}

/// The banner of a generated style sheet.
pub open spec fn banner(empty: bool, minified: bool, version: Seq<char>, time: Seq<char>) -> Seq<char> {
    if minified {
        if empty {
            "/* tailwind-extractor-cli: No classes found */"@
        } else {
            "/* Generated by tailwind-extractor-cli v"@ + version + " at "@ + time + " */"@
        }
    } else if empty {
        "/**\n * Generated by tailwind-extractor-cli v"@ + version + "\n * Generation time: "@ + time
            + "\n * \n * No Tailwind classes found\n */\n"@
    } else {
        "/**\n * Generated by tailwind-extractor-cli v"@ + version + "\n * Generation time: "@ + time
            + "\n * \n * This file contains extracted Tailwind CSS utilities.\n * DO NOT EDIT - This file is auto-generated.\n */\n\n"@
    }
}

/// The banner of a generated style sheet, naming the tool's version and the
/// generation time.
pub fn generate_css_header(empty: bool, minified: bool, version: &str, time: &str) -> (r: String)
    ensures
        r@ == banner(empty, minified, version@, time@),
{
    if minified {
        if empty {
            String::from_str("/* tailwind-extractor-cli: No classes found */")
        } else {
            let mut r = String::from_str("/* Generated by tailwind-extractor-cli v");
            r.append(version);
            r.append(" at ");
            r.append(time);
            r.append(" */");
            r
        }
    } else {
        let mut r = String::from_str("/**\n * Generated by tailwind-extractor-cli v");
        r.append(version);
        r.append("\n * Generation time: ");
        r.append(time);
        if empty {
            r.append("\n * \n * No Tailwind classes found\n */\n");
        } else {
            r.append(
                "\n * \n * This file contains extracted Tailwind CSS utilities.\n * DO NOT EDIT - This file is auto-generated.\n */\n\n",
            );
        }
        r
    }
}

} // verus!
