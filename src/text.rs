//! Character-level helpers: Unicode whitespace, whitespace-delimited tokens,
//! and conversion between `&str` and character vectors.
use vstd::prelude::*;

verus! {

/// The Unicode `White_Space` property, which is what `char::is_whitespace` tests.
pub open spec fn is_ws(c: char) -> bool {
    let u = c as u32;
    (0x09 <= u && u <= 0x0d) || u == 0x20 || u == 0x85 || u == 0xa0 || u == 0x1680 || (0x2000
        <= u && u <= 0x200a) || u == 0x2028 || u == 0x2029 || u == 0x202f || u == 0x205f || u
        == 0x3000
}

pub fn is_ws_char(c: char) -> (r: bool)
    ensures
        r == is_ws(c),
{
    let u = c as u32;
    (0x09 <= u && u <= 0x0d) || u == 0x20 || u == 0x85 || u == 0xa0 || u == 0x1680 || (0x2000
        <= u && u <= 0x200a) || u == 0x2028 || u == 0x2029 || u == 0x202f || u == 0x205f || u
        == 0x3000
}

/// No character of `s` is whitespace.
pub open spec fn ws_free(s: Seq<char>) -> bool {
    forall|i: int| 0 <= i < s.len() ==> !is_ws(#[trigger] s[i])
}

/// Every character of `s` is whitespace.
pub open spec fn all_ws(s: Seq<char>) -> bool {
    forall|i: int| 0 <= i < s.len() ==> is_ws(#[trigger] s[i])
}

/// Length of the run of non-whitespace characters that starts `s`.
pub open spec fn run_len(s: Seq<char>) -> nat
    decreases s.len(),
{
    if s.len() == 0 || is_ws(s[0]) {
        0
    } else {
        1 + run_len(s.drop_first())
    }
}

/// The whitespace-delimited tokens of `s`, in order, none of them empty.
pub open spec fn tokens(s: Seq<char>) -> Seq<Seq<char>>
    decreases s.len(),
    via tokens_decreases
{
    if s.len() == 0 {
        Seq::empty()
    } else if is_ws(s[0]) {
        tokens(s.drop_first())
    } else {
        let n = run_len(s);
        seq![s.take(n as int)] + tokens(s.skip(n as int))
    }
}

#[via_fn]
proof fn tokens_decreases(s: Seq<char>) {
    if s.len() > 0 && !is_ws(s[0]) {
        lemma_run_len_bound(s);
    }
}

/// The tokens joined with single spaces.
pub open spec fn join_tokens(ts: Seq<Seq<char>>) -> Seq<char>
    decreases ts.len(),
{
    if ts.len() == 0 {
        Seq::empty()
    } else if ts.len() == 1 {
        ts[0]
    } else {
        ts[0] + seq![' '] + join_tokens(ts.drop_first())
    }
}

/// Each token is non-empty and holds no whitespace.
pub open spec fn proper_tokens(ts: Seq<Seq<char>>) -> bool {
    forall|i: int| 0 <= i < ts.len() ==> #[trigger] ts[i].len() > 0 && ws_free(ts[i])
}

/// Number of leading whitespace characters of `s`.
pub open spec fn lead_len(s: Seq<char>) -> nat
    decreases s.len(),
{
    if s.len() == 0 || !is_ws(s[0]) {
        0
    } else {
        1 + lead_len(s.drop_first())
    }
}

/// Number of trailing whitespace characters of `s`.
pub open spec fn trail_len(s: Seq<char>) -> nat
    decreases s.len(),
{
    if s.len() == 0 || !is_ws(s.last()) {
        0
    } else {
        1 + trail_len(s.drop_last())
    }
}

pub proof fn lemma_run_len_bound(s: Seq<char>)
    ensures
        run_len(s) <= s.len(),
        ws_free(s.take(run_len(s) as int)),
        run_len(s) < s.len() ==> is_ws(s[run_len(s) as int]),
    decreases s.len(),
{
    if s.len() > 0 && !is_ws(s[0]) {
        lemma_run_len_bound(s.drop_first());
        let n = run_len(s.drop_first());
        assert forall|i: int| 0 <= i < run_len(s) implies !is_ws(#[trigger] s.take(run_len(s) as int)[i]) by {
            if i > 0 {
                assert(s.take(run_len(s) as int)[i] == s.drop_first().take(n as int)[i - 1]);
            }
        }
    }
}

pub proof fn lemma_lead_len(s: Seq<char>)
    ensures
        lead_len(s) <= s.len(),
        all_ws(s.take(lead_len(s) as int)),
        lead_len(s) < s.len() ==> !is_ws(s[lead_len(s) as int]),
    decreases s.len(),
{
    if s.len() > 0 && is_ws(s[0]) {
        lemma_lead_len(s.drop_first());
        let n = lead_len(s.drop_first());
        assert forall|i: int| 0 <= i < lead_len(s) implies is_ws(#[trigger] s.take(lead_len(s) as int)[i]) by {
            if i > 0 {
                assert(s.take(lead_len(s) as int)[i] == s.drop_first().take(n as int)[i - 1]);
            }
        }
    }
}

pub proof fn lemma_trail_len(s: Seq<char>)
    ensures
        trail_len(s) <= s.len(),
        all_ws(s.skip(s.len() - trail_len(s))),
        trail_len(s) < s.len() ==> !is_ws(s[s.len() - trail_len(s) - 1]),
    decreases s.len(),
{
    if s.len() > 0 && is_ws(s.last()) {
        lemma_trail_len(s.drop_last());
        let t = trail_len(s);
        assert forall|i: int| 0 <= i < t implies is_ws(#[trigger] s.skip(s.len() - t)[i]) by {
            if i < t - 1 {
                assert(s.skip(s.len() - t)[i] == s.drop_last().skip(s.drop_last().len() - (t - 1))[i]);
            }
        }
    }
}

/// A sequence made only of whitespace has no tokens.
pub proof fn lemma_tokens_all_ws(s: Seq<char>)
    requires
        all_ws(s),
    ensures
        tokens(s) == Seq::<Seq<char>>::empty(),
    decreases s.len(),
{
    if s.len() > 0 {
        lemma_tokens_all_ws(s.drop_first());
    }
}

/// Whitespace before a sequence does not change its tokens.
pub proof fn lemma_tokens_skip_ws(w: Seq<char>, s: Seq<char>)
    requires
        all_ws(w),
    ensures
        tokens(w + s) == tokens(s),
    decreases w.len(),
{
    if w.len() > 0 {
        assert((w + s).drop_first() =~= w.drop_first() + s);
        lemma_tokens_skip_ws(w.drop_first(), s);
    } else {
        assert(w + s =~= s);
    }
}

pub proof fn lemma_run_len_prefix(t: Seq<char>, r: Seq<char>)
    requires
        ws_free(t),
        r.len() == 0 || is_ws(r[0]),
    ensures
        run_len(t + r) == t.len(),
    decreases t.len(),
{
    if t.len() == 0 {
        assert(t + r =~= r);
    } else {
        assert((t + r).drop_first() =~= t.drop_first() + r);
        lemma_run_len_prefix(t.drop_first(), r);
    }
}

/// A non-empty token followed by whitespace or the end is the first token.
pub proof fn lemma_tokens_cons(t: Seq<char>, r: Seq<char>)
    requires
        t.len() > 0,
        ws_free(t),
        r.len() == 0 || is_ws(r[0]),
    ensures
        tokens(t + r) == seq![t] + tokens(r),
{
    lemma_run_len_prefix(t, r);
    assert((t + r).take(t.len() as int) =~= t);
    assert((t + r).skip(t.len() as int) =~= r);
}

/// Splitting the join of proper tokens gives the tokens back.
pub proof fn lemma_tokens_join(ts: Seq<Seq<char>>)
    requires
        proper_tokens(ts),
    ensures
        tokens(join_tokens(ts)) == ts,
    decreases ts.len(),
{
    if ts.len() == 0 {
    } else if ts.len() == 1 {
        assert(ts[0] + Seq::<char>::empty() =~= ts[0]);
        lemma_tokens_cons(ts[0], Seq::empty());
        assert(ts =~= seq![ts[0]]);
    } else {
        let rest = ts.drop_first();
        assert(proper_tokens(rest)) by {
            assert forall|i: int| 0 <= i < rest.len() implies #[trigger] rest[i].len() > 0 && ws_free(rest[i]) by {
                assert(rest[i] == ts[i + 1]);
            }
        }
        lemma_tokens_join(rest);
        let tail = seq![' '] + join_tokens(rest);
        assert(ts[0] + seq![' '] + join_tokens(rest) =~= ts[0] + tail);
        lemma_tokens_cons(ts[0], tail);
        assert(all_ws(seq![' ']));
        lemma_tokens_skip_ws(seq![' '], join_tokens(rest));
        assert(ts =~= seq![ts[0]] + rest);
    }
}

/// Every token of a sequence is non-empty and whitespace-free.
pub proof fn lemma_tokens_proper(s: Seq<char>)
    ensures
        proper_tokens(tokens(s)),
    decreases s.len(),
{
    if s.len() > 0 {
        if is_ws(s[0]) {
            lemma_tokens_proper(s.drop_first());
        } else {
            lemma_run_len_bound(s);
            let n = run_len(s);
            lemma_tokens_proper(s.skip(n as int));
            let ts = tokens(s);
            assert forall|i: int| 0 <= i < ts.len() implies #[trigger] ts[i].len() > 0 && ws_free(ts[i]) by {
                if i > 0 {
                    assert(ts[i] == tokens(s.skip(n as int))[i - 1]);
                }
            }
        }
    }
}

/// Copies the characters of `s` into a vector.
pub fn chars_of(s: &str) -> (r: Vec<char>)
    ensures
        r@ == s@,
{
    let mut r: Vec<char> = Vec::new();
    for c in it: s.chars()
        invariant
            r@ == it.seq().take(it.index() as int),
            it.seq() == s@,
    {
        r.push(c);
        proof {
            assert(it.seq().take(it.index() as int + 1) =~= r@);
        }
    }
    proof {
        assert(r@ =~= s@);
    }
    r
}

/// Relies on `String::push`: appends one character.
#[verifier::external_body]
pub(crate) fn push_char(s: &mut String, c: char)
    ensures
        final(s)@ == old(s)@.push(c),
{
    s.push(c);
}

/// Builds a string from a run of characters.
pub fn string_of(v: &[char], from: usize, to: usize) -> (r: String)
    requires
        from <= to <= v@.len(),
    ensures
        r@ == v@.subrange(from as int, to as int),
{
    let mut r = String::new();
    let mut i = from;
    while i < to
        invariant
            from <= i <= to <= v@.len(),
            r@ == v@.subrange(from as int, i as int),
        decreases to - i,
    {
        push_char(&mut r, v[i]);
        i = i + 1;
        proof {
            assert(r@ =~= v@.subrange(from as int, i as int));
        }
    }
    r
}

/// Splits `v` on whitespace.
pub fn split_tokens(v: &[char]) -> (r: Vec<String>)
    ensures
        r@.len() == tokens(v@).len(),
        forall|i: int| 0 <= i < r@.len() ==> #[trigger] r@[i]@ == tokens(v@)[i],
{
    let mut r: Vec<String> = Vec::new();
    let n = v.len();
    let mut i: usize = 0;
    let ghost acc: Seq<Seq<char>> = Seq::empty();
    assert(v@.skip(0) =~= v@);
    assert(acc + tokens(v@) =~= tokens(v@));
    while i < n
        invariant
            n == v@.len(),
            i <= n,
            acc + tokens(v@.skip(i as int)) == tokens(v@),
            r@.len() == acc.len(),
            forall|k: int| 0 <= k < r@.len() ==> #[trigger] r@[k]@ == acc[k],
        decreases n - i,
    {
        let ghost rest = v@.skip(i as int);
        if is_ws_char(v[i]) {
            assert(rest.drop_first() =~= v@.skip(i as int + 1));
            i = i + 1;
        } else {
            let mut j = i;
            while j < n && !is_ws_char(v[j])
                invariant
                    n == v@.len(),
                    i <= j <= n,
                    forall|k: int| i <= k < j ==> !is_ws(#[trigger] v@[k]),
                decreases n - j,
            {
                j = j + 1;
            }
            let t = string_of(v, i, j);
            proof {
                let tk = v@.subrange(i as int, j as int);
                let after = v@.skip(j as int);
                assert(rest =~= tk + after);
                assert(ws_free(tk));
                lemma_tokens_cons(tk, after);
                assert(acc.push(tk) + tokens(after) =~= acc + (seq![tk] + tokens(after)));
                acc = acc.push(tk);
            }
            r.push(t);
            i = j;
        }
    }
    proof {
        assert(v@.skip(n as int) =~= Seq::<char>::empty());
        assert(acc =~= tokens(v@));
    }
    r
}

/// Lengths of the leading and trailing whitespace runs.
pub fn outer_ws(v: &[char]) -> (r: (usize, usize))
    ensures
        r.0 == lead_len(v@),
        r.1 == trail_len(v@),
{
    let n = v.len();
    let mut a: usize = 0;
    assert(v@.skip(0) =~= v@);
    while a < n && is_ws_char(v[a])
        invariant
            n == v@.len(),
            a <= n,
            lead_len(v@) == a + lead_len(v@.skip(a as int)),
        decreases n - a,
    {
        assert(v@.skip(a as int).drop_first() =~= v@.skip(a as int + 1));
        a = a + 1;
    }
    let mut b: usize = 0;
    assert(v@.take(n as int) =~= v@);
    while b < n && is_ws_char(v[n - 1 - b])
        invariant
            n == v@.len(),
            b <= n,
            trail_len(v@) == b + trail_len(v@.take(n - b)),
        decreases n - b,
    {
        assert(v@.take(n - b).drop_last() =~= v@.take(n - b - 1));
        b = b + 1;
    }
    (a, b)
}

/// `p` is a prefix of `v`.
pub open spec fn has_prefix(v: Seq<char>, p: Seq<char>) -> bool {
    p.len() <= v.len() && v.take(p.len() as int) == p
}

/// `p` occurs in `v` as a contiguous run.
pub open spec fn has_infix(v: Seq<char>, p: Seq<char>) -> bool {
    exists|i: int| 0 <= i && i + p.len() <= v.len() && #[trigger] v.subrange(i, i + p.len()) == p
}

pub fn starts_with_chars(v: &[char], p: &str) -> (r: bool)
    ensures
        r == has_prefix(v@, p@),
{
    let pc = chars_of(p);
    if pc.len() > v.len() {
        return false;
    }
    let mut i: usize = 0;
    while i < pc.len()
        invariant
            pc@ == p@,
            pc@.len() <= v@.len(),
            i <= pc@.len(),
            forall|k: int| 0 <= k < i ==> v@[k] == pc@[k],
        decreases pc@.len() - i,
    {
        if v[i] != pc[i] {
            assert(v@.take(pc@.len() as int)[i as int] != p@[i as int]);
            return false;
        }
        i = i + 1;
    }
    assert(v@.take(pc@.len() as int) =~= p@);
    true
}

pub fn contains_chars(v: &[char], p: &str) -> (r: bool)
    ensures
        r == has_infix(v@, p@),
{
    let pc = chars_of(p);
    let m = pc.len();
    let n = v.len();
    if m > n {
        assert forall|i: int| 0 <= i && i + p@.len() <= v@.len() implies #[trigger] v@.subrange(i, i + p@.len()) != p@ by {}
        return false;
    }
    let mut i: usize = 0;
    while i <= n - m
        invariant
            pc@ == p@,
            m == pc@.len(),
            n == v@.len(),
            m <= n,
            i <= n - m + 1,
            forall|j: int| 0 <= j < i ==> #[trigger] v@.subrange(j, j + m) != p@,
        decreases n - i,
    {
        let mut k: usize = 0;
        let mut same = true;
        while k < m
            invariant
                pc@ == p@,
                m == pc@.len(),
                n == v@.len(),
                i + m <= n,
                k <= m,
                same == (forall|q: int| 0 <= q < k ==> v@[i + q] == pc@[q]),
            decreases m - k,
        {
            if v[i + k] != pc[k] {
                same = false;
            }
            k = k + 1;
        }
        if same {
            assert(v@.subrange(i as int, i + m) =~= p@);
            return true;
        }
        assert(v@.subrange(i as int, i + m) != p@) by {
            let q = choose|q: int| 0 <= q < m && v@[i + q] != pc@[q];
            assert(v@.subrange(i as int, i + m)[q] != p@[q]);
        }
        i = i + 1;
    }
    assert forall|j: int| 0 <= j && j + p@.len() <= v@.len() implies #[trigger] v@.subrange(j, j + p@.len()) != p@ by {
        assert(j < i);
    }
    false
}

pub fn contains_char(v: &[char], c: char) -> (r: bool)
    ensures
        r == v@.contains(c),
{
    let mut i: usize = 0;
    while i < v.len()
        invariant
            i <= v@.len(),
            forall|k: int| 0 <= k < i ==> v@[k] != c,
        decreases v@.len() - i,
    {
        if v[i] == c {
            return true;
        }
        i = i + 1;
    }
    false
}

/// Whether two strings hold the same characters.
pub fn same_text(a: &str, b: &str) -> (r: bool)
    ensures
        r == (a@ == b@),
{
    let x = chars_of(a);
    let y = chars_of(b);
    if x.len() != y.len() {
        return false;
    }
    let mut i: usize = 0;
    while i < x.len()
        invariant
            x@ == a@,
            y@ == b@,
            x@.len() == y@.len(),
            i <= x@.len(),
            forall|k: int| 0 <= k < i ==> x@[k] == y@[k],
        decreases x@.len() - i,
    {
        if x[i] != y[i] {
            return false;
        }
        i = i + 1;
    }
    assert(x@ =~= y@);
    true
}

/// Position of the first string of `v` that reads `s`.
pub fn position_of(v: &Vec<String>, s: &str) -> (r: Option<usize>)
    ensures
        match r {
            Some(i) => i < v@.len() && v@[i as int]@ == s@ && forall|k: int|
                0 <= k < i ==> #[trigger] v@[k]@ != s@,
            None => forall|k: int| 0 <= k < v@.len() ==> #[trigger] v@[k]@ != s@,
        },
{
    let mut i: usize = 0;
    while i < v.len()
        invariant
            i <= v@.len(),
            forall|k: int| 0 <= k < i ==> #[trigger] v@[k]@ != s@,
        decreases v@.len() - i,
    {
        if same_text(v[i].as_str(), s) {
            return Some(i);
        }
        i = i + 1;
    }
    None
}

/// The views of a vector of strings.
pub open spec fn views(v: Seq<String>) -> Seq<Seq<char>> {
    Seq::new(v.len(), |i: int| v[i]@)
}

/// Position of the last `c` in `s`, or -1.
pub open spec fn last_index(s: Seq<char>, c: char) -> int
    decreases s.len(),
{
    if s.len() == 0 {
        -1
    } else if s.last() == c {
        s.len() - 1
    } else {
        last_index(s.drop_last(), c)
    }
}

pub proof fn lemma_last_index(s: Seq<char>, c: char)
    ensures
        -1 <= last_index(s, c) < s.len(),
    decreases s.len(),
{
    if s.len() > 0 && s.last() != c {
        lemma_last_index(s.drop_last(), c);
    }
}

pub fn find_last(v: &[char], c: char) -> (r: Option<usize>)
    ensures
        match r {
            Some(i) => i == last_index(v@, c),
            None => last_index(v@, c) == -1,
        },
{
    let mut i = v.len();
    assert(v@.take(i as int) =~= v@);
    while i > 0
        invariant
            i <= v@.len(),
            last_index(v@, c) == last_index(v@.take(i as int), c),
        decreases i,
    {
        if v[i - 1] == c {
            return Some(i - 1);
        }
        assert(v@.take(i as int).drop_last() =~= v@.take(i - 1));
        i = i - 1;
    }
    None
}

/// What follows the last dot of the last path component, when that dot is
/// not the component's first character.
pub fn extension(path: &str) -> (r: Option<String>)
    ensures
        match r {
            Some(e) => ({
                let name = path@.skip(last_index(path@, '/') + 1);
                last_index(name, '.') > 0 && e@ == name.skip(last_index(name, '.') + 1)
            }),
            None => last_index(path@.skip(last_index(path@, '/') + 1), '.') <= 0,
        },
{
    let v = chars_of(path);
    proof {
        lemma_last_index(v@, '/');
    }
    let start = match find_last(v.as_slice(), '/') {
        Some(i) => {
            let n = v.len();
            assert(i < n);
            i + 1
        },
        None => 0,
    };
    let name = string_of(v.as_slice(), start, v.len());
    let nv = chars_of(name.as_str());
    assert(nv@ =~= path@.skip(last_index(path@, '/') + 1));
    proof {
        lemma_last_index(nv@, '.');
    }
    match find_last(nv.as_slice(), '.') {
        Some(d) => {
            if d > 0 {
                let e = string_of(nv.as_slice(), d + 1, nv.len());
                assert(e@ =~= nv@.skip(d + 1));
                Some(e)
            } else {
                None
            }
        },
        None => None,
    }
}

pub proof fn lemma_push_to_set<A>(s: Seq<A>, a: A)
    ensures
        s.push(a).to_set() == s.to_set().insert(a),
{
    assert forall|x: A| #[trigger] s.push(a).to_set().contains(x) == s.to_set().insert(a).contains(x) by {
        if s.push(a).to_set().contains(x) && x != a {
            let k = choose|k: int| 0 <= k < s.push(a).len() && s.push(a)[k] == x;
            assert(s[k] == x);
        }
        if s.to_set().contains(x) {
            let k = choose|k: int| 0 <= k < s.len() && s[k] == x;
            assert(s.push(a)[k] == x);
        }
        if x == a {
            assert(s.push(a)[s.len() as int] == a);
        }
    }
    assert(s.push(a).to_set() =~= s.to_set().insert(a));
}

} // verus!
