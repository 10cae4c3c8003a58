//! The decisions of the multi-file pipeline: which paths to process, which
//! files pass the security check, and where outputs may be written.
use vstd::prelude::*;
use glob::Pattern;
use crate::errors::ExtractorError;
use crate::text::{chars_of, has_prefix, position_of, starts_with_chars, views};

verus! {

#[verifier::external_type_specification]
#[verifier::external_body]
pub struct ExPattern(Pattern);

/// Whether `glob::Pattern::new` accepts a pattern text.
pub uninterp spec fn glob_ok(source: Seq<char>) -> bool;

/// Whether the pattern compiled from `source` matches `path`, with the
/// default match options.
pub uninterp spec fn glob_match(source: Seq<char>, path: Seq<char>) -> bool;

/// A compiled glob pattern, with the text it was compiled from.
pub struct GlobPattern {
    source: Ghost<Seq<char>>,
    compiled: Pattern,
}

impl GlobPattern {
    /// The text the pattern was compiled from.
    pub closed spec fn source(&self) -> Seq<char> {
        self.source@
    }
}

/// Relies on `glob::Pattern::new`: compiles a glob pattern, or reports why
/// it is malformed; which texts it accepts depends on the text alone.
#[verifier::external_body]
fn compile_glob(source: &str) -> (r: Result<Pattern, String>)
    ensures
        r is Ok <==> glob_ok(source@),
{
    Pattern::new(source).map_err(|e| e.to_string())
}

/// Relies on `glob::Pattern::matches`: whether a path matches the pattern,
/// which was compiled from `pattern.source()` (the only way a
/// `GlobPattern` is made).
#[verifier::external_body]
fn glob_matches(pattern: &GlobPattern, path: &str) -> (r: bool)
    ensures
        r == glob_match(pattern.source(), path@),
{
    pattern.compiled.matches(path)
}

/// Compiles exclusion patterns; a malformed one is an error naming it.
pub fn compile_patterns(sources: &Vec<String>) -> (r: Result<Vec<GlobPattern>, ExtractorError>)
    ensures
        r is Ok <==> forall|i: int| 0 <= i < sources@.len() ==> glob_ok(#[trigger] sources@[i]@),
        r matches Ok(ps) ==> ps@.len() == sources@.len() && forall|i: int|
            0 <= i < sources@.len() ==> (#[trigger] ps@[i]).source() == sources@[i]@,
        r matches Err(e) ==> e is Pattern,
{
    let mut ps: Vec<GlobPattern> = Vec::new();
    let mut i: usize = 0;
    while i < sources.len()
        invariant
            i <= sources@.len(),
            ps@.len() == i,
            forall|k: int| 0 <= k < i ==> glob_ok(#[trigger] sources@[k]@),
            forall|k: int| 0 <= k < i ==> (#[trigger] ps@[k]).source() == sources@[k]@,
        decreases sources@.len() - i,
    {
        match compile_glob(sources[i].as_str()) {
            Ok(p) => ps.push(GlobPattern { source: Ghost(sources@[i as int]@), compiled: p }),
            Err(message) => {
                let mut m = String::from_str("Invalid pattern ");
                m.append(sources[i].as_str());
                m.append(": ");
                m.append(message.as_str());
                return Err(ExtractorError::Pattern(m));
            },
        }
        i = i + 1;
    }
    Ok(ps)
}

/// Some exclusion pattern matches `path`.
pub open spec fn excluded_by(patterns: Seq<GlobPattern>, path: Seq<char>) -> bool {
    exists|j: int| 0 <= j < patterns.len() && glob_match(#[trigger] patterns[j].source(), path)
}

/// For each candidate path, whether some exclusion pattern matches it.
pub fn exclusion_flags(candidates: &Vec<String>, patterns: &Vec<GlobPattern>) -> (r: Vec<bool>)
    ensures
        r@.len() == candidates@.len(),
        forall|i: int| 0 <= i < candidates@.len() ==> #[trigger] r@[i] == excluded_by(patterns@, candidates@[i]@),
{
    let mut r: Vec<bool> = Vec::new();
    let mut i: usize = 0;
    while i < candidates.len()
        invariant
            i <= candidates@.len(),
            r@.len() == i,
            forall|q: int| 0 <= q < i ==> #[trigger] r@[q] == excluded_by(patterns@, candidates@[q]@),
        decreases candidates@.len() - i,
    {
        let mut hit = false;
        let mut k: usize = 0;
        while k < patterns.len() && !hit
            invariant
                k <= patterns@.len(),
                i < candidates@.len(),
                hit ==> excluded_by(patterns@, candidates@[i as int]@),
                !hit ==> forall|j: int| 0 <= j < k ==> !glob_match(#[trigger] patterns@[j].source(), candidates@[i as int]@),
            decreases patterns@.len() - k,
        {
            hit = glob_matches(&patterns[k], candidates[i].as_str());
            k = k + 1;
        }
        r.push(hit);
        i = i + 1;
    }
    r
}

/// The paths to process: the candidates not excluded, each once, in the
/// order first met.
pub open spec fn selected(candidates: Seq<Seq<char>>, excluded: Seq<bool>) -> Seq<Seq<char>>
    decreases candidates.len(),
{
    if candidates.len() == 0 {
        Seq::empty()
    } else {
        let prev = selected(candidates.drop_last(), excluded);
        let p = candidates.last();
        if (candidates.len() - 1 < excluded.len() && excluded[candidates.len() - 1]) || prev.contains(p) {
            prev
        } else {
            prev.push(p)
        }
    }
}

/// Drops excluded and repeated paths, keeping the order.
pub fn select_paths(candidates: &Vec<String>, excluded: &Vec<bool>) -> (r: Vec<String>)
    ensures
        views(r@) == selected(views(candidates@), excluded@),
{
    let mut r: Vec<String> = Vec::new();
    let mut i: usize = 0;
    assert(views(candidates@).take(0) =~= Seq::<Seq<char>>::empty());
    while i < candidates.len()
        invariant
            i <= candidates@.len(),
            views(r@) == selected(views(candidates@).take(i as int), excluded@),
        decreases candidates@.len() - i,
    {
        let ghost pre = views(candidates@).take(i as int);
        let ghost nxt = views(candidates@).take(i + 1);
        assert(nxt.drop_last() =~= pre);
        assert(nxt.last() == candidates@[i as int]@);
        let skip = (i < excluded.len() && excluded[i]);
        if !skip {
            match position_of(&r, candidates[i].as_str()) {
                Some(k) => {
                    assert(views(r@)[k as int] == candidates@[i as int]@);
                },
                None => {
                    let ghost before = r@;
                    r.push(candidates[i].clone());
                    assert(views(r@) =~= views(before).push(candidates@[i as int]@));
                },
            }
        }
        i = i + 1;
    }
    assert(views(candidates@).take(candidates@.len() as int) =~= views(candidates@));
    r
}

/// What the security check knows of one file.
#[derive(Debug, Clone)]
pub struct FileFacts {
    /// The path is a symbolic link.
    pub is_symlink: bool,
    /// Size in bytes.
    pub size: u64,
    /// Where the path leads once every link is resolved, when that is known.
    pub resolved: Option<String>,
}

/// The limits of the security check.
#[derive(Debug, Clone)]
pub struct SecurityPolicy {
    /// Largest file size accepted, in bytes.
    pub max_file_size: u64,
    /// Whether symbolic links are followed.
    pub allow_symlinks: bool,
    /// The directory that link targets and outputs must stay within.
    pub root: String,
}

/// Why a file is turned away.
#[derive(Debug, Clone, Copy, PartialEq, Eq, Structural)]
pub enum Rejection {
    /// It is a symbolic link, and links are not followed.
    Symlink,
    /// It is a link whose target lies outside the root.
    OutsideRoot,
    /// It is larger than the size limit.
    TooLarge,
}

/// `path` lies within the directory `root`: it is `root`, or it continues
/// `root` after a separator.
pub open spec fn within(path: Seq<char>, root: Seq<char>) -> bool {
    has_prefix(path, root) && (path.len() == root.len() || (root.len() > 0 && root.last() == '/')
        || path[root.len() as int] == '/')
}

/// Whether `path` lies within the directory `root`.
pub fn is_within(path: &str, root: &str) -> (r: bool)
    ensures
        r == within(path@, root@),
{
    let p = chars_of(path);
    let rt = chars_of(root);
    if !starts_with_chars(p.as_slice(), root) {
        return false;
    }
    if p.len() == rt.len() {
        return true;
    }
    (rt.len() > 0 && rt[rt.len() - 1] == '/') || p[rt.len()] == '/'
}

/// The verdict of the security check on one file.
pub open spec fn verdict(facts: FileFacts, policy: SecurityPolicy) -> Option<Rejection> {
    if facts.is_symlink && !policy.allow_symlinks {
        Some(Rejection::Symlink)
    } else if facts.is_symlink && !(facts.resolved matches Some(t) && within(t@, policy.root@)) {
        Some(Rejection::OutsideRoot)
    } else if facts.size > policy.max_file_size {
        Some(Rejection::TooLarge)
    } else {
        None
    }
}

/// Passes a file through the security check: a link is refused unless links
/// are followed and its target stays within the root, and a file above the
/// size limit is refused. A refusal only skips the file.
pub fn validate_file(facts: &FileFacts, policy: &SecurityPolicy) -> (r: Option<Rejection>)
    ensures
        r == verdict(*facts, *policy),
{
    if facts.is_symlink && !policy.allow_symlinks {
        return Some(Rejection::Symlink);
    }
    if facts.is_symlink {
        let inside = match &facts.resolved {
            Some(t) => is_within(t.as_str(), policy.root.as_str()),
            None => false,
        };
        if !inside {
            return Some(Rejection::OutsideRoot);
        }
    }
    if facts.size > policy.max_file_size {
        return Some(Rejection::TooLarge);
    }
    None
}

/// Keeps the files that pass the security check, in order.
pub fn admitted_files(paths: &Vec<String>, facts: &Vec<FileFacts>, policy: &SecurityPolicy) -> (r: Vec<String>)
    requires
        paths@.len() == facts@.len(),
    ensures
        views(r@) == admitted(views(paths@), facts@, *policy),
{
    let mut r: Vec<String> = Vec::new();
    let mut i: usize = 0;
    assert(views(paths@).take(0) =~= Seq::<Seq<char>>::empty());
    while i < paths.len()
        invariant
            paths@.len() == facts@.len(),
            i <= paths@.len(),
            views(r@) == admitted(views(paths@).take(i as int), facts@, *policy),
        decreases paths@.len() - i,
    {
        let ghost pre = views(paths@).take(i as int);
        assert(views(paths@).take(i + 1).drop_last() =~= pre);
        if validate_file(&facts[i], policy).is_none() {
            let ghost before = r@;
            r.push(paths[i].clone());
            assert(views(r@) =~= views(before).push(paths@[i as int]@));
        }
        i = i + 1;
    }
    assert(views(paths@).take(paths@.len() as int) =~= views(paths@));
    r
}

/// The paths whose facts pass the security check, in order.
pub open spec fn admitted(paths: Seq<Seq<char>>, facts: Seq<FileFacts>, policy: SecurityPolicy) -> Seq<Seq<char>>
    decreases paths.len(),
{
    if paths.len() == 0 {
        Seq::empty()
    } else {
        let prev = admitted(paths.drop_last(), facts, policy);
        let i = paths.len() - 1;
        if i < facts.len() && verdict(facts[i], policy) is None {
            prev.push(paths.last())
        } else {
            prev
        }
    }
}

/// An output path must lie within the root; otherwise the run stops before
/// any work.
pub fn check_output_path(resolved: &str, root: &str) -> (r: Result<(), ExtractorError>)
    ensures
        r is Ok <==> within(resolved@, root@),
        r matches Err(e) ==> e is SecurityError,
{
    if is_within(resolved, root) {
        Ok(())
    } else {
        let mut m = String::from_str("Output path ");
        m.append(resolved);
        m.append(" is outside the working directory");
        Err(ExtractorError::SecurityError(m))
    }
}

} // verus!
