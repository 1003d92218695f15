//! The configuration of a run: the window size and the globs of the paths
//! that are left out of the scan.

use crate::index::FileEntry;
use crate::text::texts;
use vstd::prelude::*;

verus! {

/// The window size of a run that configures none.
pub const DEFAULT_MIN_LINES: usize = 4;

/// `globset::Glob`, a parsed glob pattern; nothing inside it is looked at.
#[verifier::external_type_specification]
#[verifier::external_body]
pub struct ExGlob(globset::Glob);

/// `globset::GlobSetBuilder`, the globs that a set is to be built from.
#[verifier::external_type_specification]
#[verifier::external_body]
pub struct ExGlobSetBuilder(globset::GlobSetBuilder);

/// `globset::GlobSet`, globs compiled to be matched together.
#[verifier::external_type_specification]
#[verifier::external_body]
pub struct ExGlobSet(globset::GlobSet);

/// `globset::Error`, why a glob did not parse or a set did not build.
#[verifier::external_type_specification]
#[verifier::external_body]
pub struct ExGlobError(globset::Error);

/// The pattern that a glob was parsed from.
pub uninterp spec fn glob_pattern(glob: globset::Glob) -> Seq<char>;

/// The patterns of the globs that were added to a builder, oldest first.
pub uninterp spec fn builder_globs(builder: globset::GlobSetBuilder) -> Seq<Seq<char>>;

/// The patterns of the globs that a set was built from, oldest first.
pub uninterp spec fn set_globs(set: globset::GlobSet) -> Seq<Seq<char>>;

/// The paths that a set matches: those that one of its globs matches.
pub uninterp spec fn matched_paths(set: globset::GlobSet) -> Set<Seq<char>>;

/// Whether a pattern parses as a glob.
pub uninterp spec fn glob_parses(pattern: Seq<char>) -> bool;

/// Whether the globs parsed from these patterns compile into one set.
pub uninterp spec fn globs_build(patterns: Seq<Seq<char>>) -> bool;

/// The position of the first pattern at or after `from` that does not parse
/// as a glob; the number of patterns if all of them parse.
pub open spec fn first_invalid_from(patterns: Seq<Seq<char>>, from: int) -> int
    decreases patterns.len() - from,
{
    if from < 0 || from >= patterns.len() {
        patterns.len() as int
    } else if !glob_parses(patterns[from]) {
        from
    } else {
        first_invalid_from(patterns, from + 1)
    }
}

/// The position of the first pattern that does not parse as a glob; the
/// number of patterns if all of them parse.
pub open spec fn first_invalid(patterns: Seq<Seq<char>>) -> int {
    first_invalid_from(patterns, 0)
}

/// Whether the patterns make a matcher: each of them parses as a glob, and
/// the globs compile into one set.
pub open spec fn compiles(patterns: Seq<Seq<char>>) -> bool {
    first_invalid(patterns) == patterns.len() && globs_build(patterns)
}

/// What `first_invalid_from` finds: every pattern from `from` up to the
/// result parses, and the pattern at the result, if there is one, does not.
pub proof fn lemma_first_invalid(patterns: Seq<Seq<char>>, from: int)
    requires
        0 <= from <= patterns.len(),
    ensures
        from <= first_invalid_from(patterns, from) <= patterns.len(),
        first_invalid_from(patterns, from) < patterns.len() ==> !glob_parses(
            patterns[first_invalid_from(patterns, from)],
        ),
        forall|k: int|
            from <= k < first_invalid_from(patterns, from) ==> glob_parses(#[trigger] patterns[k]),
    decreases patterns.len() - from,
{
    if from < patterns.len() && glob_parses(patterns[from]) {
        lemma_first_invalid(patterns, from + 1);
    }
}

/// `globset::Glob::new`. Trusted: whether the pattern parses depends on the
/// pattern alone, and a glob that was parsed holds the pattern it was parsed
/// from. Which patterns parse is left open.
#[verifier::external_body]
fn glob_new(pattern: &str) -> (r: Result<globset::Glob, globset::Error>)
    ensures
        r is Ok <==> glob_parses(pattern@),
        r matches Ok(glob) ==> glob_pattern(glob) == pattern@,
{
    globset::Glob::new(pattern)
}

/// `globset::GlobSetBuilder::new`. Trusted: a new builder holds no glob.
#[verifier::external_body]
fn builder_new() -> (r: globset::GlobSetBuilder)
    ensures
        builder_globs(r).len() == 0,
{
    globset::GlobSetBuilder::new()
}

/// `globset::GlobSetBuilder::add`. Trusted: the glob becomes the last of the
/// builder's globs.
#[verifier::external_body]
fn builder_add(builder: &mut globset::GlobSetBuilder, glob: globset::Glob)
    ensures
        builder_globs(*final(builder)) == builder_globs(*old(builder)).push(glob_pattern(glob)),
{
    builder.add(glob);
}

/// `globset::GlobSetBuilder::build`. Trusted: whether the set builds depends
/// on the globs of the builder alone, a set that was built holds these globs,
/// and a builder without globs always builds.
#[verifier::external_body]
fn builder_build(builder: &globset::GlobSetBuilder) -> (r: Result<globset::GlobSet, globset::Error>)
    ensures
        r is Ok <==> globs_build(builder_globs(*builder)),
        r matches Ok(set) ==> set_globs(set) == builder_globs(*builder),
        builder_globs(*builder).len() == 0 ==> r is Ok,
{
    builder.build()
}

/// `globset::GlobSet::is_match`. Trusted: the result is whether the path is
/// among the paths that the set matches, and a set without globs matches no
/// path. Which paths a set with globs matches is left open.
#[verifier::external_body]
fn set_is_match(set: &globset::GlobSet, path: &str) -> (r: bool)
    ensures
        r == matched_paths(*set).contains(path@),
        set_globs(*set).len() == 0 ==> !r,
{
    set.is_match(path)
}

/// Why a configuration is refused.
#[derive(Debug, Clone)]
pub enum ConfigError {
    /// The window size is zero.
    ZeroMinLines,
    /// The pattern is no valid glob.
    InvalidGlob(String),
    /// The globs are valid one by one but cannot be compiled together.
    InvalidGlobSet,
}

/// What a configuration file holds.
#[derive(Debug, Clone)]
pub struct CpdConfigContents {
    pub min_lines: Option<usize>,
    pub ignored_globs: Option<Vec<String>>,
}

impl Default for CpdConfigContents {
    /// The contents of a file that configures nothing.
    fn default() -> (r: Self)
        ensures
            r.min_lines is None,
            r.ignored_globs is None,
    {
        CpdConfigContents { min_lines: None, ignored_globs: None }
    }
}

/// A configuration that was accepted: its window size is not zero and its
/// globs are compiled.
#[derive(Debug)]
pub struct CpdConfig {
    contents: CpdConfigContents,
    ignore_matcher: Option<globset::GlobSet>,
}

/// Compiles the globs into one matcher. It succeeds if and only if every
/// pattern parses as a glob and the globs compile together. Otherwise the
/// first pattern that does not parse is reported, or, if all parse, that
/// they do not compile together.
pub fn build_ignore_matcher(ignored_globs: &Vec<String>) -> (r: Result<
    globset::GlobSet,
    ConfigError,
>)
    ensures
        r is Ok <==> (forall|i: int|
            0 <= i < ignored_globs.len() ==> glob_parses(#[trigger] ignored_globs[i]@))
            && globs_build(texts(ignored_globs@)),
        match r {
            Ok(set) => compiles(texts(ignored_globs@)) && set_globs(set) == texts(ignored_globs@),
            Err(ConfigError::InvalidGlob(pattern)) => first_invalid(texts(ignored_globs@))
                < ignored_globs.len() && pattern@ == texts(ignored_globs@)[first_invalid(
                texts(ignored_globs@),
            )],
            Err(ConfigError::InvalidGlobSet) => first_invalid(texts(ignored_globs@))
                == ignored_globs.len() && !globs_build(texts(ignored_globs@)),
            Err(ConfigError::ZeroMinLines) => false,
        },
        ignored_globs.len() == 0 ==> r is Ok,
{
    let ghost patterns = texts(ignored_globs@);
    let mut builder = builder_new();
    let mut i: usize = 0;
    assert(builder_globs(builder) =~= patterns.take(0));
    proof {
        lemma_first_invalid(patterns, 0);
    }
    while i < ignored_globs.len()
        invariant
            i <= ignored_globs.len(),
            patterns == texts(ignored_globs@),
            builder_globs(builder) == patterns.take(i as int),
            first_invalid(patterns) == first_invalid_from(patterns, i as int),
            forall|k: int| 0 <= k < i ==> glob_parses(#[trigger] ignored_globs[k]@),
        decreases ignored_globs.len() - i,
    {
        assert(patterns[i as int] == ignored_globs[i as int]@);
        match glob_new(ignored_globs[i].as_str()) {
            Ok(glob) => {
                builder_add(&mut builder, glob);
            },
            Err(_) => {
                return Err(ConfigError::InvalidGlob(ignored_globs[i].clone()));
            },
        }
        assert(patterns.take(i + 1) =~= patterns.take(i as int).push(ignored_globs[i as int]@));
        i += 1;
    }
    assert(patterns.take(i as int) =~= patterns);
    match builder_build(&builder) {
        Ok(set) => Ok(set),
        Err(_) => Err(ConfigError::InvalidGlobSet),
    }
}

/// The entries among the first `n` that are not flagged, in their order.
pub open spec fn selected(entries: Seq<FileEntry>, ignored: Seq<bool>, n: int) -> Seq<FileEntry>
    decreases n,
{
    if n <= 0 {
        Seq::empty()
    } else if ignored[n - 1] {
        selected(entries, ignored, n - 1)
    } else {
        selected(entries, ignored, n - 1).push(entries[n - 1])
    }
}

impl CpdConfig {
    #[verifier::type_invariant]
    spec fn inv(self) -> bool {
        &&& self.contents.min_lines != Some(0usize)
        &&& match (self.contents.ignored_globs, self.ignore_matcher) {
            (Some(globs), Some(set)) => set_globs(set) == texts(globs@),
            (None, None) => true,
            _ => false,
        }
    }

    /// The configured window size, if one is configured.
    pub closed spec fn min_lines(&self) -> Option<usize> {
        self.contents.min_lines
    }

    /// The configured globs, if any are configured.
    pub closed spec fn ignored_globs(&self) -> Option<Seq<Seq<char>>> {
        match self.contents.ignored_globs {
            Some(globs) => Some(texts(globs@)),
            None => None,
        }
    }

    /// Whether the configured globs match the path: whether it is among the
    /// paths that the matcher compiled from them matches. With no list of
    /// globs there is no matcher, and no path is matched.
    pub closed spec fn ignores(&self, path: Seq<char>) -> bool {
        match self.ignore_matcher {
            Some(set) => matched_paths(set).contains(path),
            None => false,
        }
    }

    /// Which of the entries the configured globs leave out: for each entry,
    /// whether they match its path.
    pub open spec fn ignored_flags(&self, entries: Seq<FileEntry>) -> Seq<bool> {
        Seq::new(entries.len(), |i: int| self.ignores(entries[i].path@))
    }

    /// The globs that the contents of a configuration file configure, if
    /// they configure any.
    pub open spec fn globs_of(contents: CpdConfigContents) -> Option<Seq<Seq<char>>> {
        match contents.ignored_globs {
            Some(globs) => Some(texts(globs@)),
            None => None,
        }
    }

    /// The globs of an optional list, none when there is no list.
    pub open spec fn listed(globs: Option<Seq<Seq<char>>>) -> Seq<Seq<char>> {
        match globs {
            Some(list) => list,
            None => Seq::empty(),
        }
    }

    /// Whether the contents of a configuration file are accepted: the window
    /// size is not zero, and the globs, if any are listed, make a matcher.
    pub open spec fn accepts(contents: CpdConfigContents) -> bool {
        &&& contents.min_lines != Some(0usize)
        &&& match Self::globs_of(contents) {
            Some(list) => compiles(list),
            None => true,
        }
    }

    /// Accepts a configuration, if and only if its window size is not zero
    /// and its globs make a matcher. A window size of zero is reported
    /// first; then the first pattern that does not parse as a glob; then
    /// that the globs do not compile together.
    pub fn new(contents: CpdConfigContents) -> (r: Result<Self, ConfigError>)
        ensures
            r is Ok <==> Self::accepts(contents),
            match r {
                Ok(config) => config.min_lines() == contents.min_lines && config.ignored_globs()
                    == Self::globs_of(contents),
                Err(ConfigError::ZeroMinLines) => contents.min_lines == Some(0usize),
                Err(ConfigError::InvalidGlob(pattern)) => {
                    let list = Self::listed(Self::globs_of(contents));
                    &&& contents.min_lines != Some(0usize)
                    &&& first_invalid(list) < list.len()
                    &&& pattern@ == list[first_invalid(list)]
                },
                Err(ConfigError::InvalidGlobSet) => {
                    let list = Self::listed(Self::globs_of(contents));
                    &&& contents.min_lines != Some(0usize)
                    &&& list.len() > 0
                    &&& first_invalid(list) == list.len()
                    &&& !globs_build(list)
                },
            },
    {
        if let Some(n) = contents.min_lines {
            if n == 0 {
                return Err(ConfigError::ZeroMinLines);
            }
        }
        let ignore_matcher = match &contents.ignored_globs {
            Some(globs) => match build_ignore_matcher(globs) {
                Ok(set) => Some(set),
                Err(e) => {
                    return Err(e);
                },
            },
            None => None,
        };
        Ok(CpdConfig { contents, ignore_matcher })
    }

    /// The configuration of a run that configures nothing: the default
    /// window size and no ignored glob.
    pub fn default() -> (r: Self)
        ensures
            r.min_lines() is None,
            r.ignored_globs() is None,
    {
        CpdConfig { contents: CpdConfigContents::default(), ignore_matcher: None }
    }

    /// The window size of the run: the configured one, or the default.
    pub fn get_min_lines(&self) -> (r: usize)
        ensures
            r == match self.min_lines() {
                Some(n) => n,
                None => DEFAULT_MIN_LINES,
            },
            r > 0,
    {
        proof {
            use_type_invariant(self);
        }
        match self.contents.min_lines {
            Some(n) => n,
            None => DEFAULT_MIN_LINES,
        }
    }

    /// Whether the path is left out of the scan: whether the matcher
    /// compiled from the configured globs matches it. Without globs no path
    /// is left out.
    pub fn should_file_be_ignored(&self, file: &str) -> (r: bool)
        ensures
            r == self.ignores(file@),
            Self::listed(self.ignored_globs()).len() == 0 ==> !r,
    {
        proof {
            use_type_invariant(self);
        }
        if let Some(ignore_matcher) = &self.ignore_matcher {
            set_is_match(ignore_matcher, file)
        } else {
            false
        }
    }

    /// The entries of a walk that take part in the scan: exactly the entries
    /// whose path the configured globs do not match, in the order of the
    /// walk. Without globs every entry takes part.
    pub fn retain_included(&self, entries: &Vec<FileEntry>) -> (kept: Vec<FileEntry>)
        ensures
            kept@ == selected(entries@, self.ignored_flags(entries@), entries.len() as int),
            Self::listed(self.ignored_globs()).len() == 0 ==> kept@ == entries@,
    {
        let ghost mut ignored: Seq<bool> = Seq::empty();
        let mut kept: Vec<FileEntry> = Vec::new();
        let mut i: usize = 0;
        while i < entries.len()
            invariant
                i <= entries.len(),
                ignored.len() == i,
                forall|k: int|
                    0 <= k < i ==> #[trigger] ignored[k] == self.ignores(entries[k].path@),
                kept@ == selected(entries@, ignored, i as int),
                Self::listed(self.ignored_globs()).len() == 0 ==> kept@ == entries@.take(i as int),
            decreases entries.len() - i,
        {
            let entry = &entries[i];
            let ghost flags = ignored;
            let skip = self.should_file_be_ignored(entry.path.as_str());
            proof {
                ignored = flags.push(skip);
                lemma_selected_prefix(entries@, flags, ignored, i as int);
            }
            if !skip {
                let contents = match &entry.contents {
                    Some(text) => Some(text.clone()),
                    None => None,
                };
                kept.push(FileEntry { path: entry.path.clone(), is_dir: entry.is_dir, contents });
            }
            assert(entries@.take(i + 1) =~= entries@.take(i as int).push(entries[i as int]));
            i += 1;
        }
        assert(entries@.take(i as int) =~= entries@);
        assert(ignored =~= self.ignored_flags(entries@));
        kept
    }
}

/// What is selected among the first `n` entries depends on the first `n`
/// flags only.
proof fn lemma_selected_prefix(entries: Seq<FileEntry>, short: Seq<bool>, long: Seq<bool>, n: int)
    requires
        0 <= n <= short.len() <= long.len(),
        forall|k: int| 0 <= k < short.len() ==> short[k] == long[k],
    ensures
        selected(entries, short, n) == selected(entries, long, n),
    decreases n,
{
    if n > 0 {
        lemma_selected_prefix(entries, short, long, n - 1);
    }
}

} // verus!
