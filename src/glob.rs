//! Filtering file names by a set of shell-style glob patterns.
use vstd::prelude::*;

verus! {

#[verifier::external_type_specification]
#[verifier::external_body]
pub struct ExGlobSet(globset::GlobSet);

#[verifier::external_type_specification]
#[verifier::external_body]
pub struct ExGlobSetBuilder(globset::GlobSetBuilder);

#[verifier::external_type_specification]
#[verifier::external_body]
pub struct ExGlobError(globset::Error);

/// Whether `globset::Glob::new` accepts the pattern.
pub uninterp spec fn glob_parses(pattern: Seq<char>) -> bool;

/// Whether the glob compiled from `pattern` matches the file name `name`.
pub uninterp spec fn glob_matches(pattern: Seq<char>, name: Seq<char>) -> bool;

/// The patterns added to a builder, in order.
pub uninterp spec fn builder_globs(b: globset::GlobSetBuilder) -> Seq<Seq<char>>;

/// Whether `GlobSet::is_match` is true of a set and a file name.
pub uninterp spec fn set_matches(s: globset::GlobSet, name: Seq<char>) -> bool;

/// Whether `GlobSetBuilder::build` succeeds on these patterns.
pub uninterp spec fn globs_build(globs: Seq<Seq<char>>) -> bool;

/// A name is matched by one of the patterns.
pub open spec fn any_matches(patterns: Seq<Seq<char>>, name: Seq<char>) -> bool {
    exists|i: int| 0 <= i < patterns.len() && #[trigger] glob_matches(patterns[i], name)
}

/// Relies on `GlobSetBuilder::new`: it starts with no pattern.
#[verifier::external_body]
fn new_builder() -> (r: globset::GlobSetBuilder)
    ensures
        builder_globs(r) == Seq::<Seq<char>>::empty(),
{
    globset::GlobSetBuilder::new()
}

/// Relies on `Glob::new`, which fails exactly on a pattern it cannot parse, and
/// on `GlobSetBuilder::add`, which appends the parsed glob to the builder.
#[verifier::external_body]
fn add_glob(b: &mut globset::GlobSetBuilder, pattern: &str) -> (r: Result<(), globset::Error>)
    ensures
        r is Ok == glob_parses(pattern@),
        r is Ok ==> builder_globs(*final(b)) == builder_globs(*old(b)).push(pattern@),
        r is Err ==> *final(b) == *old(b),
{
    let glob = globset::Glob::new(pattern)?;
    b.add(glob);
    Ok(())
}

/// Relies on `GlobSetBuilder::build`: whether it succeeds depends on the
/// patterns alone, it always succeeds with no pattern, and the set it builds
/// matches a name exactly when one of the builder's globs does.
#[verifier::external_body]
fn build_set(b: &globset::GlobSetBuilder) -> (r: Result<globset::GlobSet, globset::Error>)
    ensures
        r is Ok == globs_build(builder_globs(*b)),
        builder_globs(*b).len() == 0 ==> r is Ok,
        r matches Ok(s) ==> forall|n: Seq<char>|
            #[trigger] set_matches(s, n) == (exists|i: int|
                0 <= i < builder_globs(*b).len() && #[trigger] glob_matches(builder_globs(*b)[i], n)),
{
    b.build()
}

/// Relies on `GlobSet::is_match`, whose result depends on the set and the name alone.
#[verifier::external_body]
fn set_is_match(s: &globset::GlobSet, name: &str) -> (r: bool)
    ensures
        r == set_matches(*s, name@),
{
    s.is_match(name)
}

/// Why a filter could not be built.
#[derive(Debug, Clone, Copy, PartialEq, Eq, Structural)]
pub enum FilterError {
    /// The pattern at this index is not a valid glob.
    InvalidPattern(usize),
    /// Every pattern parsed, but the combined matcher could not be built.
    BuildFailed,
}

/// The views of a list of strings.
pub open spec fn views(s: Seq<String>) -> Seq<Seq<char>> {
    s.map_values(|p: String| p@)
}

/// A name passes a list of patterns when the list is empty or one of them matches it.
pub open spec fn passes(patterns: Seq<Seq<char>>, name: Seq<char>) -> bool {
    patterns.len() == 0 || exists|i: int|
        0 <= i < patterns.len() && #[trigger] glob_matches(patterns[i], name)
}

/// What building a filter from `patterns` may give: a filter of exactly those
/// patterns when all parse; the index of the first one that does not parse;
/// or, when all parse, a failure to build the combined matcher.
pub open spec fn built_from(patterns: Seq<String>, r: Result<GlobFilter, FilterError>) -> bool {
    match r {
        Ok(f) => {
            &&& f.wf()
            &&& f.patterns() == views(patterns)
            &&& forall|j: int| 0 <= j < patterns.len() ==> glob_parses(#[trigger] patterns[j]@)
        },
        Err(FilterError::InvalidPattern(i)) => {
            &&& i < patterns.len()
            &&& !glob_parses(patterns[i as int]@)
            &&& forall|j: int| 0 <= j < i ==> glob_parses(#[trigger] patterns[j]@)
        },
        Err(FilterError::BuildFailed) => {
            &&& forall|j: int| 0 <= j < patterns.len() ==> glob_parses(#[trigger] patterns[j]@)
            &&& !globs_build(views(patterns))
            &&& patterns.len() > 0
        },
    }
}

/// Decides which file names take part in aggregation.
pub struct GlobFilter {
    set: globset::GlobSet,
    any: bool,
    patterns: Ghost<Seq<Seq<char>>>,
}

impl GlobFilter {
    /// The patterns the filter was built from.
    pub closed spec fn patterns(&self) -> Seq<Seq<char>> {
        self.patterns@
    }

    /// The filter passes every name exactly when it holds no pattern, and its
    /// set matches a name exactly when one of its patterns does.
    pub closed spec fn wf(&self) -> bool {
        &&& self.any == (self.patterns@.len() == 0)
        &&& forall|n: Seq<char>| #[trigger] set_matches(self.set, n) == any_matches(self.patterns@, n)
    }

    /// Builds the filter from `patterns`; fails on the first pattern that is
    /// not a valid glob.
    pub fn new(patterns: &Vec<String>) -> (r: Result<GlobFilter, FilterError>)
        ensures
            built_from(patterns@, r),
    {
        let mut builder = new_builder();
        let mut i: usize = 0;
        while i < patterns.len()
            invariant
                i <= patterns@.len(),
                builder_globs(builder) == views(patterns@.subrange(0, i as int)),
                forall|j: int| 0 <= j < i ==> glob_parses(#[trigger] patterns@[j]@),
            decreases patterns@.len() - i,
        {
            match add_glob(&mut builder, patterns[i].as_str()) {
                Ok(()) => {},
                Err(_) => {
                    return Err(FilterError::InvalidPattern(i));
                },
            }
            assert(views(patterns@.subrange(0, i + 1)) =~= views(patterns@.subrange(0, i as int)).push(
                patterns@[i as int]@,
            ));
            i = i + 1;
        }
        assert(patterns@.subrange(0, i as int) =~= patterns@);
        match build_set(&builder) {
            Ok(set) => {
                let any = patterns.len() == 0;
                Ok(GlobFilter { set, any, patterns: Ghost(views(patterns@)) })
            },
            Err(_) => Err(FilterError::BuildFailed),
        }
    }

    /// Whether `name` passes the filter: always, when there is no pattern, else
    /// when some pattern matches it.
    pub fn matches(&self, name: &str) -> (r: bool)
        requires
            self.wf(),
        ensures
            r == passes(self.patterns(), name@),
    {
        if self.any {
            true
        } else {
            set_is_match(&self.set, name)
        }
    }
}

} // verus!
