//! The tiered fallback rewriter: turns one class list into its rewritten
//! form, keeping the outer whitespace and the number of tokens.
use vstd::prelude::*;
use crate::compiler::{answer, opt_view, ClassCompiler};
use crate::text::{
    all_ws, chars_of, is_ws, join_tokens, lead_len, lemma_lead_len, lemma_run_len_bound, lemma_tokens_cons,
    lemma_tokens_all_ws, lemma_tokens_join, lemma_tokens_proper, lemma_tokens_skip_ws,
    lemma_trail_len, outer_ws, proper_tokens, push_char, run_len, same_text, split_tokens, string_of,
    tokens, trail_len, views, ws_free,
};

verus! {

/// An answer of the compiler is usable when it has exactly `n` tokens.
pub open spec fn fits(r: Option<Seq<char>>, n: nat) -> bool {
    r is Some && tokens(r->0).len() == n
}

/// The part of `s` between its leading and trailing whitespace.
pub open spec fn core_of(s: Seq<char>) -> Seq<char> {
    s.subrange(lead_len(s) as int, s.len() - trail_len(s))
}

pub open spec fn lead_of(s: Seq<char>) -> Seq<char> {
    s.take(lead_len(s) as int)
}

pub open spec fn trail_of(s: Seq<char>) -> Seq<char> {
    s.skip(s.len() - trail_len(s))
}

/// No token of `ins` shows up in `outs` at another position: an answer that
/// moves a token is not a positional rewrite.
pub open spec fn order_kept(ins: Seq<Seq<char>>, outs: Seq<Seq<char>>) -> bool {
    forall|i: int, j: int| 0 <= i < outs.len() && 0 <= j < ins.len() && #[trigger] outs[i] == #[trigger] ins[j] ==> i == j
}

/// An answer for the tokens `ins` is usable when it has as many tokens, none
/// of them moved.
pub open spec fn usable(ins: Seq<Seq<char>>, r: Option<Seq<char>>) -> bool {
    fits(r, ins.len()) && order_kept(ins, tokens(r->0))
}

/// One token, or its replacement when the compiler gave exactly one token.
pub open spec fn pick_token(t: Seq<char>, r: Option<Seq<char>>) -> Seq<char> {
    if fits(r, 1) {
        tokens(r->0)[0]
    } else {
        t
    }
}

/// The tokens of the rewritten core, given the compiler's answers: for the
/// whole core, for all tokens but the first, for all but the last, and for
/// each token alone.
pub open spec fn tier_tokens(
    ts: Seq<Seq<char>>,
    whole: Option<Seq<char>>,
    rest: Option<Seq<char>>,
    init: Option<Seq<char>>,
    each: Seq<Option<Seq<char>>>,
) -> Seq<Seq<char>> {
    let n = ts.len();
    if usable(ts, whole) {
        tokens(whole->0)
    } else if n >= 2 && usable(ts.drop_first(), rest) {
        seq![ts[0]] + tokens(rest->0)
    } else if n >= 2 && usable(ts.drop_last(), init) {
        tokens(init->0).push(ts[n - 1])
    } else {
        Seq::new(
            n,
            |i: int|
                if i < each.len() {
                    pick_token(ts[i], each[i])
                } else {
                    ts[i]
                },
        )
    }
}

/// The rewrite of `s` given the compiler's answers; a string of whitespace
/// alone comes back unchanged.
pub open spec fn settled(
    s: Seq<char>,
    whole: Option<Seq<char>>,
    rest: Option<Seq<char>>,
    init: Option<Seq<char>>,
    each: Seq<Option<Seq<char>>>,
) -> Seq<char> {
    if lead_len(s) == s.len() {
        s
    } else {
        lead_of(s) + join_tokens(tier_tokens(tokens(core_of(s)), whole, rest, init, each))
            + trail_of(s)
    }
}

/// The rewrite of `s` with the compiler `o`.
pub open spec fn rewritten(s: Seq<char>, o: spec_fn(Seq<char>) -> Option<Seq<char>>) -> Seq<char> {
    let ts = tokens(core_of(s));
    settled(
        s,
        o(core_of(s)),
        o(join_tokens(ts.drop_first())),
        o(join_tokens(ts.drop_last())),
        Seq::new(ts.len(), |i: int| o(ts[i])),
    )
}

pub proof fn lemma_outer(s: Seq<char>)
    requires
        lead_len(s) < s.len(),
    ensures
        lead_len(s) + trail_len(s) < s.len(),
        s == lead_of(s) + core_of(s) + trail_of(s),
        all_ws(lead_of(s)),
        all_ws(trail_of(s)),
        core_of(s).len() > 0,
        !is_ws(core_of(s)[0]),
        !is_ws(core_of(s).last()),
{
    lemma_lead_len(s);
    lemma_trail_len(s);
    let a = lead_len(s) as int;
    let b = trail_len(s) as int;
    if a >= s.len() - b {
        assert(s.skip(s.len() - b)[a - (s.len() - b)] == s[a]);
    }
    assert(s =~= lead_of(s) + core_of(s) + trail_of(s));
}

/// Proper tokens joined start and end with a token character.
pub proof fn lemma_join_ends(ts: Seq<Seq<char>>)
    requires
        proper_tokens(ts),
        ts.len() > 0,
    ensures
        join_tokens(ts).len() > 0,
        !is_ws(join_tokens(ts)[0]),
        !is_ws(join_tokens(ts).last()),
    decreases ts.len(),
{
    assert(ts[0].len() > 0 && ws_free(ts[0]));
    if ts.len() > 1 {
        let rest = ts.drop_first();
        assert(proper_tokens(rest)) by {
            assert forall|i: int| 0 <= i < rest.len() implies #[trigger] rest[i].len() > 0 && ws_free(rest[i]) by {
                assert(rest[i] == ts[i + 1]);
            }
        }
        lemma_join_ends(rest);
    } else {
        assert(!is_ws(ts[0][ts[0].len() - 1]));
    }
}

pub proof fn lemma_lead_concat(w: Seq<char>, x: Seq<char>)
    requires
        all_ws(w),
        x.len() > 0,
        !is_ws(x[0]),
    ensures
        lead_len(w + x) == w.len(),
    decreases w.len(),
{
    if w.len() == 0 {
        assert(w + x =~= x);
    } else {
        assert((w + x).drop_first() =~= w.drop_first() + x);
        lemma_lead_concat(w.drop_first(), x);
    }
}

pub proof fn lemma_trail_concat(x: Seq<char>, w: Seq<char>)
    requires
        all_ws(w),
        x.len() > 0,
        !is_ws(x.last()),
    ensures
        trail_len(x + w) == w.len(),
    decreases w.len(),
{
    if w.len() == 0 {
        assert(x + w =~= x);
    } else {
        assert((x + w).drop_last() =~= x + w.drop_last());
        lemma_trail_concat(x, w.drop_last());
    }
}

pub proof fn lemma_run_len_suffix(a: Seq<char>, w: Seq<char>)
    requires
        w.len() == 0 || is_ws(w[0]),
    ensures
        run_len(a + w) == run_len(a),
    decreases a.len(),
{
    if a.len() == 0 {
        assert(a + w =~= w);
    } else if !is_ws(a[0]) {
        assert((a + w).drop_first() =~= a.drop_first() + w);
        lemma_run_len_suffix(a.drop_first(), w);
    }
}

/// Whitespace after a sequence does not change its tokens.
pub proof fn lemma_tokens_trailing_ws(a: Seq<char>, w: Seq<char>)
    requires
        all_ws(w),
    ensures
        tokens(a + w) == tokens(a),
    decreases a.len(),
{
    if a.len() == 0 {
        assert(a + w =~= w);
        lemma_tokens_all_ws(w);
    } else if is_ws(a[0]) {
        assert((a + w).drop_first() =~= a.drop_first() + w);
        lemma_tokens_trailing_ws(a.drop_first(), w);
    } else {
        lemma_run_len_suffix(a, w);
        lemma_run_len_bound(a);
        let n = run_len(a) as int;
        assert((a + w).take(n) =~= a.take(n));
        assert((a + w).skip(n) =~= a.skip(n) + w);
        lemma_tokens_trailing_ws(a.skip(n), w);
    }
}

/// The tokens of `s` are the tokens of its core.
pub proof fn lemma_tokens_core(s: Seq<char>)
    requires
        lead_len(s) < s.len(),
    ensures
        tokens(s) == tokens(core_of(s)),
{
    lemma_outer(s);
    assert(lead_of(s) + core_of(s) + trail_of(s) =~= lead_of(s) + (core_of(s) + trail_of(s)));
    lemma_tokens_skip_ws(lead_of(s), core_of(s) + trail_of(s));
    lemma_tokens_trailing_ws(core_of(s), trail_of(s));
}

pub proof fn lemma_proper_push(a: Seq<Seq<char>>, t: Seq<char>)
    requires
        proper_tokens(a),
        t.len() > 0,
        ws_free(t),
    ensures
        proper_tokens(a.push(t)),
        proper_tokens(seq![t] + a),
{
    assert forall|i: int| 0 <= i < a.push(t).len() implies #[trigger] a.push(t)[i].len() > 0 && ws_free(a.push(t)[i]) by {
        if i < a.len() {
            assert(a.push(t)[i] == a[i]);
        }
    }
    assert forall|i: int| 0 <= i < (seq![t] + a).len() implies #[trigger] (seq![t] + a)[i].len() > 0 && ws_free((seq![t] + a)[i]) by {
        if i > 0 {
            assert((seq![t] + a)[i] == a[i - 1]);
        }
    }
}

/// The tokens chosen by the tiers are proper and as many as the input's.
pub proof fn lemma_tier_tokens(
    ts: Seq<Seq<char>>,
    whole: Option<Seq<char>>,
    rest: Option<Seq<char>>,
    init: Option<Seq<char>>,
    each: Seq<Option<Seq<char>>>,
)
    requires
        proper_tokens(ts),
    ensures
        proper_tokens(tier_tokens(ts, whole, rest, init, each)),
        tier_tokens(ts, whole, rest, init, each).len() == ts.len(),
{
    let n = ts.len();
    if usable(ts, whole) {
        lemma_tokens_proper(whole->0);
    } else if n >= 2 && usable(ts.drop_first(), rest) {
        lemma_tokens_proper(rest->0);
        lemma_proper_push(tokens(rest->0), ts[0]);
    } else if n >= 2 && usable(ts.drop_last(), init) {
        lemma_tokens_proper(init->0);
        lemma_proper_push(tokens(init->0), ts[n - 1]);
    } else {
        let r = tier_tokens(ts, whole, rest, init, each);
        assert forall|i: int| 0 <= i < r.len() implies #[trigger] r[i].len() > 0 && ws_free(r[i]) by {
            assert(ts[i].len() > 0 && ws_free(ts[i]));
            if i < each.len() && fits(each[i], 1) {
                lemma_tokens_proper(each[i]->0);
                assert(tokens(each[i]->0)[0].len() > 0);
            }
        }
    }
}

/// Whitespace is kept: the rewrite of `s` starts and ends with exactly the
/// leading and trailing whitespace of `s`, whatever the compiler answers.
pub proof fn lemma_settled_keeps_outer_ws(
    s: Seq<char>,
    whole: Option<Seq<char>>,
    rest: Option<Seq<char>>,
    init: Option<Seq<char>>,
    each: Seq<Option<Seq<char>>>,
)
    ensures
        lead_len(settled(s, whole, rest, init, each)) == lead_len(s),
        trail_len(settled(s, whole, rest, init, each)) == trail_len(s),
        lead_of(settled(s, whole, rest, init, each)) == lead_of(s),
        trail_of(settled(s, whole, rest, init, each)) == trail_of(s),
{
    lemma_lead_len(s);
    if lead_len(s) < s.len() {
        lemma_outer(s);
        let ts = tokens(core_of(s));
        lemma_tokens_proper(core_of(s));
        lemma_tokens_core(s);
        lemma_tokens_cons_nonempty(core_of(s));
        let body = tier_tokens(ts, whole, rest, init, each);
        lemma_tier_tokens(ts, whole, rest, init, each);
        lemma_join_ends(body);
        let j = join_tokens(body);
        let r = settled(s, whole, rest, init, each);
        assert(r == lead_of(s) + (j + trail_of(s)));
        lemma_lead_concat(lead_of(s), j + trail_of(s));
        assert(r == (lead_of(s) + j) + trail_of(s));
        lemma_trail_concat(lead_of(s) + j, trail_of(s));
        assert(lead_of(r) =~= lead_of(s));
        assert(trail_of(r) =~= trail_of(s));
    }
}

/// A core with a token character has at least one token.
pub proof fn lemma_tokens_cons_nonempty(c: Seq<char>)
    requires
        c.len() > 0,
        !is_ws(c[0]),
    ensures
        tokens(c).len() > 0,
{
}

/// The rewrite has as many tokens as `s`, whatever the compiler answers.
pub proof fn lemma_settled_keeps_count(
    s: Seq<char>,
    whole: Option<Seq<char>>,
    rest: Option<Seq<char>>,
    init: Option<Seq<char>>,
    each: Seq<Option<Seq<char>>>,
)
    ensures
        tokens(settled(s, whole, rest, init, each)).len() == tokens(s).len(),
        lead_len(s) < s.len() ==> tokens(settled(s, whole, rest, init, each)) == tier_tokens(
            tokens(s),
            whole,
            rest,
            init,
            each,
        ),
{
    lemma_lead_len(s);
    if lead_len(s) < s.len() {
        lemma_outer(s);
        let ts = tokens(core_of(s));
        lemma_tokens_proper(core_of(s));
        lemma_tokens_core(s);
        let body = tier_tokens(ts, whole, rest, init, each);
        lemma_tier_tokens(ts, whole, rest, init, each);
        lemma_tokens_join(body);
        let j = join_tokens(body);
        let r = settled(s, whole, rest, init, each);
        assert(r == lead_of(s) + (j + trail_of(s)));
        lemma_tokens_skip_ws(lead_of(s), j + trail_of(s));
        lemma_tokens_trailing_ws(j, trail_of(s));
    }
}

/// With a compiler that hands every class list back unchanged, the rewrite
/// keeps every token of `s`, in order, at its position.
pub proof fn lemma_pass_through_keeps_tokens(s: Seq<char>, o: spec_fn(Seq<char>) -> Option<Seq<char>>)
    requires
        forall|t: Seq<char>| #[trigger] o(t) == Some(t),
    ensures
        tokens(rewritten(s, o)) == tokens(s),
        lead_of(rewritten(s, o)) == lead_of(s),
        trail_of(rewritten(s, o)) == trail_of(s),
{
    let ts = tokens(core_of(s));
    let w = o(core_of(s));
    let r1 = o(join_tokens(ts.drop_first()));
    let r2 = o(join_tokens(ts.drop_last()));
    let e = Seq::new(ts.len(), |i: int| o(ts[i]));
    lemma_lead_len(s);
    lemma_settled_keeps_outer_ws(s, w, r1, r2, e);
    if lead_len(s) < s.len() {
        lemma_settled_keeps_count(s, w, r1, r2, e);
        lemma_tokens_core(s);
        lemma_outer(s);
        lemma_tokens_proper(core_of(s));
        let n = ts.len();
        assert(w == Some(core_of(s)));
        let body = tier_tokens(ts, w, r1, r2, e);
        if usable(ts, w) {
        } else if n >= 2 && usable(ts.drop_first(), r1) {
            lemma_proper_sub(ts, 1, n as int);
            assert(ts.drop_first() =~= ts.subrange(1, n as int));
            lemma_tokens_join(ts.drop_first());
            assert(body =~= ts);
        } else if n >= 2 && usable(ts.drop_last(), r2) {
            lemma_proper_sub(ts, 0, n - 1);
            assert(ts.drop_last() =~= ts.subrange(0, n - 1));
            lemma_tokens_join(ts.drop_last());
            assert(body =~= ts);
        } else {
            assert forall|i: int| 0 <= i < n implies #[trigger] body[i] == ts[i] by {
                lemma_single_token(ts[i]);
            }
            assert(body =~= ts);
        }
    } else {
        lemma_tokens_all_ws_of(s);
    }
}

pub proof fn lemma_proper_sub(ts: Seq<Seq<char>>, a: int, b: int)
    requires
        proper_tokens(ts),
        0 <= a <= b <= ts.len(),
    ensures
        proper_tokens(ts.subrange(a, b)),
{
    assert forall|i: int| 0 <= i < ts.subrange(a, b).len() implies #[trigger] ts.subrange(a, b)[i].len() > 0 && ws_free(ts.subrange(a, b)[i]) by {
        assert(ts.subrange(a, b)[i] == ts[a + i]);
    }
}

/// A single proper token is its own only token.
pub proof fn lemma_single_token(t: Seq<char>)
    requires
        t.len() > 0,
        ws_free(t),
    ensures
        tokens(t) == seq![t],
        fits(Some(t), 1),
        pick_token(t, Some(t)) == t,
{
    lemma_tokens_cons(t, Seq::empty());
    assert(t + Seq::<char>::empty() =~= t);
    assert(seq![t] + tokens(Seq::<char>::empty()) =~= seq![t]);
}

pub proof fn lemma_tokens_all_ws_of(s: Seq<char>)
    requires
        lead_len(s) == s.len(),
    ensures
        tokens(s) == Seq::<Seq<char>>::empty(),
{
    lemma_lead_len(s);
    assert(s.take(lead_len(s) as int) =~= s);
    lemma_tokens_all_ws(s);
}

/// Whether no string of `ins` appears in `outs` at another position.
pub fn order_kept_exec(ins: &Vec<String>, outs: &Vec<String>) -> (r: bool)
    ensures
        r == order_kept(views(ins@), views(outs@)),
{
    let mut i: usize = 0;
    while i < outs.len()
        invariant
            i <= outs@.len(),
            forall|a: int, b: int| 0 <= a < i && 0 <= b < ins@.len() && #[trigger] views(outs@)[a] == #[trigger] views(ins@)[b] ==> a == b,
        decreases outs@.len() - i,
    {
        let mut j: usize = 0;
        while j < ins.len()
            invariant
                i < outs@.len(),
                j <= ins@.len(),
                forall|a: int, b: int| 0 <= a < i && 0 <= b < ins@.len() && #[trigger] views(outs@)[a] == #[trigger] views(ins@)[b] ==> a == b,
                forall|b: int| 0 <= b < j && views(outs@)[i as int] == #[trigger] views(ins@)[b] ==> i == b,
            decreases ins@.len() - j,
        {
            if j != i && same_text(outs[i].as_str(), ins[j].as_str()) {
                assert(views(outs@)[i as int] == views(ins@)[j as int]);
                return false;
            }
            j = j + 1;
        }
        i = i + 1;
    }
    true
}

/// Joins strings with single spaces.
pub fn join_with_spaces(parts: &Vec<String>) -> (r: String)
    ensures
        r@ == join_tokens(views(parts@)),
{
    let n = parts.len();
    let mut r = String::new();
    if n == 0 {
        assert(views(parts@) =~= Seq::<Seq<char>>::empty());
        return r;
    }
    let mut i: usize = n - 1;
    r.append(parts[i].as_str());
    assert(views(parts@).subrange(i as int, n as int) =~= seq![parts@[i as int]@]);
    while i > 0
        invariant
            n == parts@.len(),
            i < n,
            r@ == join_tokens(views(parts@).subrange(i as int, n as int)),
        decreases i,
    {
        let ghost tail = views(parts@).subrange(i as int, n as int);
        let mut x = String::new();
        x.append(parts[i - 1].as_str());
        push_char(&mut x, ' ');
        x.append(r.as_str());
        r = x;
        i = i - 1;
        proof {
            let now = views(parts@).subrange(i as int, n as int);
            assert(now.drop_first() =~= tail);
            assert(now[0] == parts@[i as int]@);
        }
    }
    assert(views(parts@).subrange(0, n as int) =~= views(parts@));
    r
}

/// Assembles the rewrite of `class_string` from the compiler's answers:
/// `whole` for the trimmed list, `rest` for all tokens but the first,
/// `init` for all but the last, and `each` for the tokens one by one. The
/// first answer with the right number of tokens wins; in the last tier a
/// token whose answer is unusable stays as it was.
pub fn settle_rewrite(
    class_string: &str,
    whole: Option<String>,
    rest: Option<String>,
    init: Option<String>,
    each: &Vec<Option<String>>,
) -> (r: String)
    ensures
        r@ == settled(
            class_string@,
            opt_view(whole),
            opt_view(rest),
            opt_view(init),
            each@.map_values(|x: Option<String>| opt_view(x)),
        ),
{
    let ghost eachv = each@.map_values(|x: Option<String>| opt_view(x));
    let v = chars_of(class_string);
    let len = v.len();
    let (a, b) = outer_ws(v.as_slice());
    if a == len {
        return String::from_str(class_string);
    }
    proof {
        lemma_lead_len(v@);
        lemma_outer(v@);
    }
    let core = string_of(v.as_slice(), a, len - b);
    let lead = string_of(v.as_slice(), 0, a);
    let trail = string_of(v.as_slice(), len - b, len);
    assert(core@ == core_of(v@));
    assert(lead@ =~= lead_of(v@));
    assert(trail@ =~= trail_of(v@));
    let cv = chars_of(core.as_str());
    let ts = split_tokens(cv.as_slice());
    let ghost tsv = tokens(core_of(v@));
    assert(views(ts@) =~= tsv);
    let n = ts.len();
    let mut body: Vec<String> = Vec::new();
    let mut done = false;
    if let Some(w) = &whole {
        let wt = split_tokens(chars_of(w.as_str()).as_slice());
        assert(views(wt@) =~= tokens(w@));
        if wt.len() == n && order_kept_exec(&ts, &wt) {
            body = wt;
            done = true;
        }
    }
    if !done && n >= 2 {
        if let Some(x) = &rest {
            let xt = split_tokens(chars_of(x.as_str()).as_slice());
            let tail = slice_of(&ts, 1, n);
            assert(views(tail@) =~= tsv.drop_first());
            assert(views(xt@) =~= tokens(x@));
            if xt.len() == n - 1 && order_kept_exec(&tail, &xt) {
                body = Vec::new();
                body.push(ts[0].clone());
                let mut k: usize = 0;
                while k < xt.len()
                    invariant
                        body@.len() == k + 1,
                        k <= xt@.len(),
                        xt@.len() == tokens(x@).len(),
                        forall|q: int| 0 <= q < xt@.len() ==> #[trigger] xt@[q]@ == tokens(x@)[q],
                        body@[0]@ == tsv[0],
                        forall|q: int| 1 <= q < k + 1 ==> #[trigger] body@[q]@ == xt@[q - 1]@,
                    decreases xt@.len() - k,
                {
                    body.push(xt[k].clone());
                    k = k + 1;
                }
                assert(views(body@) =~= seq![tsv[0]] + tokens(x@));
                done = true;
            }
        }
    }
    if !done && n >= 2 {
        if let Some(x) = &init {
            let xt = split_tokens(chars_of(x.as_str()).as_slice());
            let head = slice_of(&ts, 0, n - 1);
            assert(views(head@) =~= tsv.drop_last());
            assert(views(xt@) =~= tokens(x@));
            if xt.len() == n - 1 && order_kept_exec(&head, &xt) {
                body = xt;
                body.push(ts[n - 1].clone());
                assert(views(body@) =~= tokens(x@).push(tsv[n - 1]));
                done = true;
            }
        }
    }
    if !done {
        body = Vec::new();
        let mut k: usize = 0;
        while k < n
            invariant
                n == ts@.len(),
                n == tsv.len(),
                views(ts@) == tsv,
                eachv == each@.map_values(|x: Option<String>| opt_view(x)),
                k <= n,
                body@.len() == k,
                forall|q: int|
                    0 <= q < k ==> #[trigger] body@[q]@ == (if q < eachv.len() {
                        pick_token(tsv[q], eachv[q])
                    } else {
                        tsv[q]
                    }),
            decreases n - k,
        {
            let mut chosen = ts[k].clone();
            if k < each.len() {
                if let Some(y) = &each[k] {
                    let yt = split_tokens(chars_of(y.as_str()).as_slice());
                    if yt.len() == 1 {
                        chosen = yt[0].clone();
                    }
                }
            }
            body.push(chosen);
            k = k + 1;
        }
        assert(views(body@) =~= tier_tokens(tsv, opt_view(whole), opt_view(rest), opt_view(init), eachv));
    }
    let joined = join_with_spaces(&body);
    let mut out = lead;
    out.append(joined.as_str());
    out.append(trail.as_str());
    out
}

/// The compiler's answers, for one setting of the obfuscation flag.
pub open spec fn compiler_of(obfuscate: bool) -> spec_fn(Seq<char>) -> Option<Seq<char>> {
    |t: Seq<char>| answer(t, obfuscate)
}

fn slice_of(v: &Vec<String>, from: usize, to: usize) -> (r: Vec<String>)
    requires
        from <= to <= v@.len(),
    ensures
        views(r@) == views(v@).subrange(from as int, to as int),
{
    let mut r: Vec<String> = Vec::new();
    let mut i = from;
    while i < to
        invariant
            from <= i <= to <= v@.len(),
            views(r@) == views(v@).subrange(from as int, i as int),
        decreases to - i,
    {
        let ghost before = r@;
        let c = v[i].clone();
        assert(c@ == v@[i as int]@);
        r.push(c);
        assert(r@ == before.push(c));
        assert(views(r@) =~= views(before).push(c@));
        assert(views(v@).subrange(from as int, i + 1) =~= views(v@).subrange(from as int, i as int).push(v@[i as int]@));
        i = i + 1;
        assert(views(r@) =~= views(v@).subrange(from as int, i as int));
    }
    r
}

impl ClassCompiler {
    /// Rewrites one class list. The compiler is asked about the whole
    /// trimmed list first; when its answer has a different number of tokens,
    /// about all tokens but the first, then all but the last, and last about
    /// each token alone, keeping a token whose answer is unusable. The outer
    /// whitespace is kept; inner runs of whitespace become single spaces.
    pub fn process_with_fallback(&mut self, class_string: &str, obfuscate: bool) -> (r: String)
        ensures
            r@ == rewritten(class_string@, compiler_of(obfuscate)),
            final(self).preflight_disabled() == old(self).preflight_disabled(),
    {
        let ghost o = compiler_of(obfuscate);
        let ghost sv = class_string@;
        let v = chars_of(class_string);
        let len = v.len();
        let (a, b) = outer_ws(v.as_slice());
        let none: Vec<Option<String>> = Vec::new();
        proof {
            lemma_lead_len(sv);
        }
        if a == len {
            return settle_rewrite(class_string, None, None, None, &none);
        }
        proof {
            lemma_outer(sv);
        }
        let core = string_of(v.as_slice(), a, len - b);
        assert(core@ == core_of(sv));
        let ts = split_tokens(chars_of(core.as_str()).as_slice());
        let ghost tsv = tokens(core_of(sv));
        assert(views(ts@) =~= tsv);
        let n = ts.len();
        let ghost full_each = Seq::new(tsv.len(), |i: int| o(tsv[i]));
        let ghost q_rest = o(join_tokens(tsv.drop_first()));
        let ghost q_init = o(join_tokens(tsv.drop_last()));
        let whole = self.classify(core.as_str(), obfuscate);
        assert(opt_view(whole) == o(core_of(sv)));
        let fits_whole = match &whole {
            Some(w) => {
                let wt = split_tokens(chars_of(w.as_str()).as_slice());
                assert(views(wt@) =~= tokens(w@));
                wt.len() == n && order_kept_exec(&ts, &wt)
            },
            None => false,
        };
        if fits_whole {
            let r = settle_rewrite(class_string, whole, None, None, &none);
            assert(tier_tokens(tsv, opt_view(whole), None, None, Seq::empty()) == tier_tokens(
                tsv,
                opt_view(whole),
                q_rest,
                q_init,
                full_each,
            ));
            assert(none@.map_values(|x: Option<String>| opt_view(x)) =~= Seq::<Option<Seq<char>>>::empty());
            return r;
        }
        if n >= 2 {
            let tail = slice_of(&ts, 1, n);
            assert(views(tail@) =~= tsv.drop_first());
            let rest_query = join_with_spaces(&tail);
            let rest = self.classify(rest_query.as_str(), obfuscate);
            assert(opt_view(rest) == q_rest);
            let fits_rest = match &rest {
                Some(x) => {
                    let xt = split_tokens(chars_of(x.as_str()).as_slice());
                    assert(views(xt@) =~= tokens(x@));
                    xt.len() == n - 1 && order_kept_exec(&tail, &xt)
                },
                None => false,
            };
            if fits_rest {
                let r = settle_rewrite(class_string, whole, rest, None, &none);
                assert(none@.map_values(|x: Option<String>| opt_view(x)) =~= Seq::<Option<Seq<char>>>::empty());
                assert(tier_tokens(tsv, opt_view(whole), q_rest, None, Seq::empty()) == tier_tokens(
                    tsv,
                    opt_view(whole),
                    q_rest,
                    q_init,
                    full_each,
                ));
                return r;
            }
            let head = slice_of(&ts, 0, n - 1);
            assert(views(head@) =~= tsv.drop_last());
            let init_query = join_with_spaces(&head);
            let init = self.classify(init_query.as_str(), obfuscate);
            assert(opt_view(init) == q_init);
            let fits_init = match &init {
                Some(x) => {
                    let xt = split_tokens(chars_of(x.as_str()).as_slice());
                    assert(views(xt@) =~= tokens(x@));
                    xt.len() == n - 1 && order_kept_exec(&head, &xt)
                },
                None => false,
            };
            if fits_init {
                let r = settle_rewrite(class_string, whole, rest, init, &none);
                assert(none@.map_values(|x: Option<String>| opt_view(x)) =~= Seq::<Option<Seq<char>>>::empty());
                assert(tier_tokens(tsv, opt_view(whole), q_rest, q_init, Seq::empty()) == tier_tokens(
                    tsv,
                    opt_view(whole),
                    q_rest,
                    q_init,
                    full_each,
                ));
                return r;
            }
            let each = self.classify_each(&ts, obfuscate);
            assert(each@.map_values(|x: Option<String>| opt_view(x)) =~= full_each);
            return settle_rewrite(class_string, whole, rest, init, &each);
        }
        let each = self.classify_each(&ts, obfuscate);
        assert(each@.map_values(|x: Option<String>| opt_view(x)) =~= full_each);
        let r = settle_rewrite(class_string, whole, None, None, &each);
        assert(tier_tokens(tsv, opt_view(whole), None, None, full_each) == tier_tokens(
            tsv,
            opt_view(whole),
            q_rest,
            q_init,
            full_each,
        ));
        r
    }

    /// Asks the compiler about each token alone.
    fn classify_each(&mut self, ts: &Vec<String>, obfuscate: bool) -> (r: Vec<Option<String>>)
        ensures
            r@.len() == ts@.len(),
            forall|i: int| 0 <= i < ts@.len() ==> #[trigger] opt_view(r@[i]) == answer(ts@[i]@, obfuscate),
            final(self).preflight_disabled() == old(self).preflight_disabled(),
    {
        let mut r: Vec<Option<String>> = Vec::new();
        let mut i: usize = 0;
        while i < ts.len()
            invariant
                i <= ts@.len(),
                r@.len() == i,
                forall|k: int| 0 <= k < i ==> #[trigger] opt_view(r@[k]) == answer(ts@[k]@, obfuscate),
                self.preflight_disabled() == old(self).preflight_disabled(),
            decreases ts@.len() - i,
        {
            let x = self.classify(ts[i].as_str(), obfuscate);
            r.push(x);
            i = i + 1;
        }
        r
    }
}

/// The rewrite keeps the exact leading and trailing whitespace of its input
/// (characters and run lengths), whatever the compiler answers.
pub proof fn rewrite_keeps_outer_whitespace(s: Seq<char>, o: spec_fn(Seq<char>) -> Option<Seq<char>>)
    ensures
        lead_len(rewritten(s, o)) == lead_len(s),
        trail_len(rewritten(s, o)) == trail_len(s),
        lead_of(rewritten(s, o)) == lead_of(s),
        trail_of(rewritten(s, o)) == trail_of(s),
{
    let ts = tokens(core_of(s));
    lemma_settled_keeps_outer_ws(
        s,
        o(core_of(s)),
        o(join_tokens(ts.drop_first())),
        o(join_tokens(ts.drop_last())),
        Seq::new(ts.len(), |i: int| o(ts[i])),
    );
}

/// The rewrite has exactly as many tokens as its input, whatever the
/// compiler answers; when no tier's answer fits, token `i` of the output is
/// the compiler's single-token answer for token `i`, or token `i` itself.
pub proof fn rewrite_keeps_token_count(s: Seq<char>, o: spec_fn(Seq<char>) -> Option<Seq<char>>)
    ensures
        tokens(rewritten(s, o)).len() == tokens(s).len(),
        ({
            let ts = tokens(s);
            let n = ts.len();
            (!usable(ts, o(core_of(s))) && !(n >= 2 && usable(ts.drop_first(), o(join_tokens(ts.drop_first()))))
                && !(n >= 2 && usable(ts.drop_last(), o(join_tokens(ts.drop_last())))))
                ==> forall|i: int| 0 <= i < n ==> #[trigger] tokens(rewritten(s, o))[i] == pick_token(ts[i], o(ts[i]))
        }),
{
    lemma_lead_len(s);
    let ts = tokens(core_of(s));
    let e = Seq::new(ts.len(), |i: int| o(ts[i]));
    lemma_settled_keeps_count(
        s,
        o(core_of(s)),
        o(join_tokens(ts.drop_first())),
        o(join_tokens(ts.drop_last())),
        e,
    );
    if lead_len(s) < s.len() {
        lemma_tokens_core(s);
    } else {
        lemma_tokens_all_ws_of(s);
    }
}

/// No token moves: when the answer for the whole list is used, no token of
/// `s` appears in the result at another position; when the answer for all
/// tokens but the first (or the last) is used, that token stays first (or
/// last) and no other token of `s` moves. The last tier is positional by
/// `rewrite_keeps_token_count`.
pub proof fn rewrite_keeps_token_positions(s: Seq<char>, o: spec_fn(Seq<char>) -> Option<Seq<char>>)
    ensures
        ({
            let ts = tokens(s);
            let n = ts.len();
            let rs = tokens(rewritten(s, o));
            &&& usable(ts, o(core_of(s))) ==> order_kept(ts, rs)
            &&& (!usable(ts, o(core_of(s))) && n >= 2 && usable(ts.drop_first(), o(join_tokens(ts.drop_first()))))
                ==> rs[0] == ts[0] && order_kept(ts.drop_first(), rs.drop_first())
            &&& (!usable(ts, o(core_of(s))) && !(n >= 2 && usable(ts.drop_first(), o(join_tokens(ts.drop_first()))))
                && n >= 2 && usable(ts.drop_last(), o(join_tokens(ts.drop_last()))))
                ==> rs[n - 1] == ts[n - 1] && order_kept(ts.drop_last(), rs.drop_last())
        }),
{
    lemma_lead_len(s);
    let tc = tokens(core_of(s));
    let w = o(core_of(s));
    let r1 = o(join_tokens(tc.drop_first()));
    let r2 = o(join_tokens(tc.drop_last()));
    let e = Seq::new(tc.len(), |i: int| o(tc[i]));
    lemma_settled_keeps_count(s, w, r1, r2, e);
    if lead_len(s) < s.len() {
        lemma_tokens_core(s);
        let ts = tokens(s);
        let n = ts.len();
        let rs = tokens(rewritten(s, o));
        assert(rs == tier_tokens(ts, w, r1, r2, e));
        if usable(ts, w) {
        } else if n >= 2 && usable(ts.drop_first(), r1) {
            assert(rs.drop_first() =~= tokens(r1->0));
        } else if n >= 2 && usable(ts.drop_last(), r2) {
            assert(rs.drop_last() =~= tokens(r2->0));
        }
    } else {
        lemma_tokens_all_ws_of(s);
        assert(rewritten(s, o) == s);
    }
}

} // verus!
