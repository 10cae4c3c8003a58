//! The arguments of the command line, as plain values.
use vstd::prelude::*;
use crate::text::{chars_of, same_text, string_of, views};

verus! {

/// The command line.
#[derive(Debug, Clone)]
pub struct Cli {
    pub command: Commands,
}

/// What the tool is asked to do.
#[derive(Debug, Clone)]
pub enum Commands {
    /// Extract classes from source files.
    Extract(ExtractArgs),
    /// Read script text from standard input and write a style sheet.
    Pipe(PipeArgs),
}

/// Arguments of the extract command.
#[derive(Debug, Clone)]
pub struct ExtractArgs {
    /// Input glob patterns.
    pub input: Vec<String>,
    /// Where the style sheet goes.
    pub output_css: String,
    /// Where the manifest goes.
    pub output_manifest: String,
    /// A configuration file.
    pub config: Option<String>,
    pub obfuscate: bool,
    pub minify: bool,
    pub watch: bool,
    pub verbose: bool,
    /// Worker threads; the available parallelism when absent.
    pub jobs: Option<usize>,
    /// Glob patterns of paths to leave out.
    pub exclude: Vec<String>,
    /// Extract without writing outputs.
    pub dry_run: bool,
    /// Leave the reset style sheet out.
    pub no_preflight: bool,
}

/// Arguments of the pipe command.
#[derive(Debug, Clone)]
pub struct PipeArgs {
    pub minify: bool,
    pub no_preflight: bool,
}

/// Length of the path segment that starts `p`: the characters before the
/// first separator.
pub open spec fn seg_len(p: Seq<char>) -> nat
    decreases p.len(),
{
    if p.len() == 0 || p[0] == '/' {
        0
    } else {
        1 + seg_len(p.drop_first())
    }
}

pub proof fn lemma_seg_len(p: Seq<char>)
    ensures
        seg_len(p) <= p.len(),
        seg_len(p) < p.len() ==> p[seg_len(p) as int] == '/',
        forall|i: int| 0 <= i < seg_len(p) ==> p[i] != '/',
        p.len() > 0 && p[0] != '/' ==> seg_len(p) >= 1,
    decreases p.len(),
{
    if p.len() > 0 && p[0] != '/' {
        lemma_seg_len(p.drop_first());
        assert forall|i: int| 0 <= i < seg_len(p) implies p[i] != '/' by {
            if i > 0 {
                assert(p[i] == p.drop_first()[i - 1]);
            }
        }
    }
}

/// The components of a path as a path comparison sees them: separators
/// repeat freely, a trailing one is ignored, and a `.` segment counts only
/// as the very first component of a relative path.
pub open spec fn components(p: Seq<char>, first: bool) -> Seq<Seq<char>>
    decreases p.len(),
    via components_decreases
{
    if p.len() == 0 {
        Seq::empty()
    } else if p[0] == '/' {
        components(p.drop_first(), false)
    } else {
        let n = seg_len(p);
        let rest = components(p.skip(n as int), false);
        if p.take(n as int) == "."@ && !first {
            rest
        } else {
            seq![p.take(n as int)] + rest
        }
    }
}

#[via_fn]
proof fn components_decreases(p: Seq<char>, first: bool) {
    lemma_seg_len(p);
}

/// Whether a path is absolute.
pub open spec fn rooted(p: Seq<char>) -> bool {
    p.len() > 0 && p[0] == '/'
}

/// Two paths name the same place for a path comparison.
pub open spec fn same_path(a: Seq<char>, b: Seq<char>) -> bool {
    rooted(a) == rooted(b) && components(a, !rooted(a)) == components(b, !rooted(b))
}

/// The components of `path` as strings.
pub fn path_components(path: &str) -> (r: Vec<String>)
    ensures
        views(r@) == components(path@, !rooted(path@)),
{
    let v = chars_of(path);
    let n = v.len();
    let first0 = !(n > 0 && v[0] == '/');
    let mut first = first0;
    let mut r: Vec<String> = Vec::new();
    let mut i: usize = 0;
    assert(v@.skip(0) =~= v@);
    assert(views(r@) + components(v@, first0) =~= components(v@, first0));
    while i < n
        invariant
            v@ == path@,
            n == v@.len(),
            i <= n,
            first0 == !rooted(path@),
            views(r@) + components(v@.skip(i as int), first) == components(path@, first0),
        decreases n - i,
    {
        let ghost rest = v@.skip(i as int);
        if v[i] == '/' {
            assert(rest.drop_first() =~= v@.skip(i + 1));
            first = false;
            i = i + 1;
        } else {
            let mut j = i;
            while j < n && v[j] != '/'
                invariant
                    n == v@.len(),
                    i <= j <= n,
                    forall|k: int| i <= k < j ==> v@[k] != '/',
                decreases n - j,
            {
                j = j + 1;
            }
            proof {
                lemma_seg_len(rest);
                let m = seg_len(rest);
                if m < j - i {
                    assert(rest[m as int] == v@[i + m]);
                }
                if m > j - i {
                    assert(rest[(j - i) as int] == v@[j as int]);
                }
                assert(m == j - i);
                assert(rest.skip(m as int) =~= v@.skip(j as int));
                assert(rest.take(m as int) =~= v@.subrange(i as int, j as int));
            }
            let seg = string_of(v.as_slice(), i, j);
            let dot = same_text(seg.as_str(), ".");
            if !(dot && !first) {
                let ghost before = views(r@);
                r.push(seg);
                assert(views(r@) =~= before.push(v@.subrange(i as int, j as int)));
                assert(views(r@) + components(v@.skip(j as int), false) =~= before + (seq![v@.subrange(i as int, j as int)] + components(v@.skip(j as int), false)));
            }
            first = false;
            i = j;
        }
    }
    assert(v@.skip(n as int) =~= Seq::<char>::empty());
    assert(views(r@) + Seq::<Seq<char>>::empty() =~= views(r@));
    r
}

/// Whether two paths name the same place, comparing components.
pub fn paths_equal(a: &str, b: &str) -> (r: bool)
    ensures
        r == same_path(a@, b@),
{
    let ra = same_first_slash(a);
    let rb = same_first_slash(b);
    if ra != rb {
        return false;
    }
    let ca = path_components(a);
    let cb = path_components(b);
    if ca.len() != cb.len() {
        assert(views(ca@).len() != views(cb@).len());
        return false;
    }
    let mut i: usize = 0;
    while i < ca.len()
        invariant
            views(ca@) == components(a@, !rooted(a@)),
            views(cb@) == components(b@, !rooted(b@)),
            rooted(a@) == rooted(b@),
            ca@.len() == cb@.len(),
            i <= ca@.len(),
            forall|k: int| 0 <= k < i ==> ca@[k]@ == cb@[k]@,
        decreases ca@.len() - i,
    {
        if !same_text(ca[i].as_str(), cb[i].as_str()) {
            assert(views(ca@)[i as int] != views(cb@)[i as int]);
            return false;
        }
        i = i + 1;
    }
    assert(views(ca@) =~= views(cb@));
    true
}

fn same_first_slash(p: &str) -> (r: bool)
    ensures
        r == rooted(p@),
{
    let v = chars_of(p);
    v.len() > 0 && v[0] == '/'
}

/// Why a set of extract arguments is refused, if it is.
pub open spec fn arguments_problem(input_len: nat, css: Seq<char>, manifest: Seq<char>, jobs: Option<usize>) -> Option<Seq<char>> {
    if input_len == 0 {
        Some("At least one input pattern must be provided"@)
    } else if same_path(css, manifest) {
        Some("Output CSS and manifest paths must be different"@)
    } else if jobs == Some(0usize) {
        Some("Number of jobs must be at least 1"@)
    } else {
        None
    }
}

impl ExtractArgs {
    /// Checks that the arguments are consistent: some input, two distinct
    /// outputs, and at least one job when a number is given.
    pub fn validate(&self) -> (r: Result<(), String>)
        ensures
            match arguments_problem(self.input@.len(), self.output_css@, self.output_manifest@, self.jobs) {
                Some(m) => r matches Err(e) && e@ == m,
                None => r is Ok,
            },
    {
        if self.input.len() == 0 {
            return Err(String::from_str("At least one input pattern must be provided"));
        }
        if paths_equal(self.output_css.as_str(), self.output_manifest.as_str()) {
            return Err(String::from_str("Output CSS and manifest paths must be different"));
        }
        if let Some(jobs) = self.jobs {
            if jobs == 0 {
                return Err(String::from_str("Number of jobs must be at least 1"));
            }
        }
        Ok(())
    }
}

} // verus!
