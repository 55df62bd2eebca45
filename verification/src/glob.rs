//! Walk options, and which paths their exclude patterns leave out.
//!
//! Patterns are compiled and matched by the `globset` crate. Whether a backslash
//! escapes or separates is up to the platform there, so what is stated of patterns
//! and paths is stated of those without one.
use vstd::prelude::*;

use crate::path::{FilePath, Part};
use crate::raw::{RawStyle, Spelling};

verus! {

/// Options controlling how the filesystem is walked (shared by scan + dupes).
#[derive(Debug)]
pub struct Options {
    /// Maximum depth below the root (`None` = unlimited; `Some(1)` = root's children).
    pub max_depth: Option<usize>,
    /// Follow symbolic links / junctions (default `false` — avoids loops + surprises).
    pub follow_symlinks: bool,
    /// Glob patterns; a path is skipped if the glob matches the whole path, any
    /// path component, or the file name (so `node_modules` and `*.tmp` both work).
    pub exclude: Vec<String>,
}

/// Options, as a mathematical value.
#[verifier::ext_equal]
pub struct OptionsRec {
    pub max_depth: Option<usize>,
    pub follow_symlinks: bool,
    pub exclude: Seq<Seq<char>>,
}

impl View for Options {
    type V = OptionsRec;

    open spec fn view(&self) -> OptionsRec {
        OptionsRec {
            max_depth: self.max_depth,
            follow_symlinks: self.follow_symlinks,
            exclude: crate::sort::views(self.exclude@),
        }
    }
}

impl Default for Options {
    fn default() -> (r: Self)
        ensures
            r@ == (OptionsRec {
                max_depth: None,
                follow_symlinks: false,
                exclude: Seq::empty(),
            }),
    {
        let r = Options { max_depth: None, follow_symlinks: false, exclude: Vec::new() };
        assert(r@.exclude =~= Seq::<Seq<char>>::empty());
        r
    }
}

impl Options {
    /// Whether both describe the same walk.
    pub fn same(&self, other: &Options) -> (r: bool)
        ensures
            r == (self@ == other@),
    {
        let ghost a = self@.exclude;
        let ghost b = other@.exclude;
        let depth: bool = match (self.max_depth, other.max_depth) {
            (Some(x), Some(y)) => x == y,
            (None, None) => true,
            _ => false,
        };
        if !depth || self.follow_symlinks != other.follow_symlinks || self.exclude.len()
            != other.exclude.len() {
            assert(a.len() == self.exclude.len());
            return false;
        }
        let mut i: usize = 0;
        while i < self.exclude.len()
            invariant
                i <= self.exclude.len(),
                self.exclude.len() == other.exclude.len(),
                a == crate::sort::views(self.exclude@),
                b == crate::sort::views(other.exclude@),
                a == self@.exclude,
                b == other@.exclude,
                forall|j: int| 0 <= j < i ==> #[trigger] a[j] == b[j],
            decreases self.exclude.len() - i,
        {
            assert(a[i as int] == self.exclude[i as int]@);
            assert(b[i as int] == other.exclude[i as int]@);
            if self.exclude[i] != other.exclude[i] {
                return false;
            }
            i += 1;
        }
        assert(a =~= b);
        true
    }
}

#[verifier::external_type_specification]
#[verifier::external_body]
pub struct ExGlobSet(globset::GlobSet);

#[verifier::external_type_specification]
#[verifier::external_body]
pub struct ExGlobSetBuilder(globset::GlobSetBuilder);

#[verifier::external_type_specification]
#[verifier::external_body]
pub struct ExGlobError(globset::Error);

/// The patterns of a compiled set, in the order in which they were added.
pub uninterp spec fn set_patterns(set: globset::GlobSet) -> Seq<Seq<char>>;

/// The patterns added to a builder so far.
pub uninterp spec fn builder_patterns(builder: globset::GlobSetBuilder) -> Seq<Seq<char>>;

/// Whether `globset` accepts a pattern without a backslash.
pub uninterp spec fn glob_is_valid(pattern: Seq<char>) -> bool;

/// Whether a set that has only this pattern, which is not [`simple_pattern`], matches a
/// text, neither of them with a backslash in it.
pub uninterp spec fn glob_matches(pattern: Seq<char>, text: Seq<u8>) -> bool;

/// No backslash occurs in the pattern.
pub open spec fn plain_pattern(pattern: Seq<char>) -> bool {
    !pattern.contains('\\')
}

/// No backslash occurs in any of the patterns.
pub open spec fn plain_patterns(patterns: Seq<Seq<char>>) -> bool {
    forall|i: int| 0 <= i < patterns.len() ==> plain_pattern(#[trigger] patterns[i])
}

/// No backslash occurs in the text.
pub open spec fn plain_text(text: Seq<u8>) -> bool {
    !text.contains(0x5c)
}

/// The character means something else than itself in a pattern.
pub open spec fn is_special(c: char) -> bool {
    c == '?' || c == '*' || c == '[' || c == '{' || c == '}' || c == '\\'
}

/// A pattern that stands for itself, such as `node_modules`.
pub open spec fn name_pattern(pattern: Seq<char>) -> bool {
    &&& pattern.len() > 0
    &&& forall|i: int| 0 <= i < pattern.len() ==> !is_special(#[trigger] pattern[i])
}

/// A pattern for an extension, such as `*.tmp`.
pub open spec fn extension_pattern(pattern: Seq<char>) -> bool {
    &&& pattern.len() > 2
    &&& pattern[0] == '*'
    &&& pattern[1] == '.'
    &&& forall|i: int|
        2 <= i < pattern.len() ==> !is_special(#[trigger] pattern[i]) && pattern[i] != '.'
            && pattern[i] != '/'
}

/// A pattern for a name or an extension.
pub open spec fn simple_pattern(pattern: Seq<char>) -> bool {
    name_pattern(pattern) || extension_pattern(pattern)
}

/// All patterns are for names or extensions.
pub open spec fn simple_patterns(patterns: Seq<Seq<char>>) -> bool {
    forall|i: int| 0 <= i < patterns.len() ==> simple_pattern(#[trigger] patterns[i])
}

/// A name matches the text that it spells, an extension the texts that end with it.
pub open spec fn simply_matches(pattern: Seq<char>, text: Seq<u8>) -> bool {
    if name_pattern(pattern) {
        text == vstd::utf8::encode_utf8(pattern)
    } else {
        vstd::utf8::encode_utf8(pattern.skip(1)).is_suffix_of(text)
    }
}

/// The pattern matches the text.
pub open spec fn pattern_matches(pattern: Seq<char>, text: Seq<u8>) -> bool {
    if simple_pattern(pattern) {
        simply_matches(pattern, text)
    } else {
        glob_matches(pattern, text)
    }
}

/// A name or an extension among the patterns matches the text.
pub open spec fn simple_hit(patterns: Seq<Seq<char>>, text: Seq<u8>) -> bool {
    exists|i: int|
        0 <= i < patterns.len() && simple_pattern(#[trigger] patterns[i]) && simply_matches(
            patterns[i],
            text,
        )
}

/// Some pattern matches the text.
pub open spec fn some_matches(patterns: Seq<Seq<char>>, text: Seq<u8>) -> bool {
    exists|i: int| 0 <= i < patterns.len() && pattern_matches(#[trigger] patterns[i], text)
}

/// Calls `globset::Glob::new` to find out whether a pattern is a glob. For a pattern
/// without a backslash the answer depends on nothing but the pattern; names and extensions
/// are globs.
#[verifier::external_body]
fn glob_parses(pattern: &String) -> (r: bool)
    ensures
        simple_pattern(pattern@) ==> r,
        plain_pattern(pattern@) ==> r == glob_is_valid(pattern@),
{
    globset::Glob::new(pattern).is_ok()
}

/// Calls `globset::GlobSetBuilder::new`: a builder without patterns.
#[verifier::external_body]
fn new_builder() -> (r: globset::GlobSetBuilder)
    ensures
        builder_patterns(r) == Seq::<Seq<char>>::empty(),
{
    globset::GlobSetBuilder::new()
}

/// Calls `globset::GlobSetBuilder::add`, which puts the pattern behind the others, if
/// `globset::Glob::new` accepts it. Returns whether it did; names and extensions are
/// accepted.
#[verifier::external_body]
fn add_glob(builder: &mut globset::GlobSetBuilder, pattern: &String) -> (r: bool)
    ensures
        simple_pattern(pattern@) ==> r,
        plain_pattern(pattern@) ==> r == glob_is_valid(pattern@),
        r ==> builder_patterns(*final(builder)) == builder_patterns(*old(builder)).push(pattern@),
        !r ==> builder_patterns(*final(builder)) == builder_patterns(*old(builder)),
{
    match globset::Glob::new(pattern) {
        Ok(glob) => {
            builder.add(glob);
            true
        },
        Err(_) => false,
    }
}

/// Calls `globset::GlobSetBuilder::build`, which compiles the patterns. It fails where
/// the compiled form grows beyond the limits of the regular expression engine, which
/// are not stated here. Names and extensions are looked up in tables and do without that
/// engine, so a set that has nothing else, or nothing at all, does not fail.
#[verifier::external_body]
fn build_set(builder: &globset::GlobSetBuilder) -> (r: Result<globset::GlobSet, globset::Error>)
    ensures
        r matches Ok(set) ==> set_patterns(set) == builder_patterns(*builder),
        simple_patterns(builder_patterns(*builder)) ==> r is Ok,
{
    builder.build()
}

/// Calls `globset::GlobSet::empty`: the set without patterns.
#[verifier::external_body]
fn empty_set() -> (r: globset::GlobSet)
    ensures
        set_patterns(r) == Seq::<Seq<char>>::empty(),
{
    globset::GlobSet::empty()
}

/// Calls `globset::GlobSet::is_empty`: whether the set has no patterns.
#[verifier::external_body]
fn has_no_globs(set: &globset::GlobSet) -> (r: bool)
    ensures
        r == (set_patterns(*set).len() == 0),
{
    set.is_empty()
}

/// Calls `globset::GlobSet::is_match_candidate`: whether any pattern of the set matches
/// the text. Without backslashes this is what the patterns say one by one. A name matches
/// the text that it spells and an extension matches the texts that end with it, whatever
/// else is in the set; what other patterns match is only named.
#[verifier::external_body]
fn set_matches(set: &globset::GlobSet, text: &Vec<u8>) -> (r: bool)
    ensures
        plain_patterns(set_patterns(*set)) && plain_text(text@) ==> (r == (exists|i: int|
            0 <= i < set_patterns(*set).len() && if simple_pattern(
                #[trigger] set_patterns(*set)[i],
            ) {
                simply_matches(set_patterns(*set)[i], text@)
            } else {
                glob_matches(set_patterns(*set)[i], text@)
            })),
        plain_text(text@) && simple_hit(set_patterns(*set), text@) ==> r,
        set_patterns(*set).len() == 0 ==> !r,
{
    set.is_match_candidate(&globset::Candidate::from_bytes(text))
}

/// The patterns whose flag is set.
pub open spec fn flagged(patterns: Seq<Seq<char>>, flags: Seq<bool>) -> Seq<Seq<char>>
    decreases patterns.len(),
{
    if patterns.len() == 0 || flags.len() != patterns.len() {
        Seq::empty()
    } else if flags.last() {
        flagged(patterns.drop_last(), flags.drop_last()).push(patterns.last())
    } else {
        flagged(patterns.drop_last(), flags.drop_last())
    }
}

/// `flags` says of each pattern whether it is a glob.
pub open spec fn judged(patterns: Seq<Seq<char>>, flags: Seq<bool>) -> bool {
    &&& flags.len() == patterns.len()
    &&& forall|i: int|
        0 <= i < flags.len() ==> judged_one(#[trigger] patterns[i], flags[i])
}

/// `flag` says of a pattern whether it is a glob. Names and extensions are.
pub open spec fn judged_one(pattern: Seq<char>, flag: bool) -> bool {
    &&& simple_pattern(pattern) ==> flag
    &&& plain_pattern(pattern) ==> flag == glob_is_valid(pattern)
}

/// The opposite of each flag.
pub open spec fn opposite(flags: Seq<bool>) -> Seq<bool> {
    Seq::new(flags.len(), |i: int| !flags[i])
}

/// Collects the patterns that are globs; the others are ignored.
pub fn collect_globs(patterns: &Vec<String>) -> (r: globset::GlobSetBuilder)
    ensures
        exists|flags: Seq<bool>| #[trigger]
            judged(crate::sort::views(patterns@), flags) && builder_patterns(r) == flagged(
                crate::sort::views(patterns@),
                flags,
            ),
        plain_patterns(crate::sort::views(patterns@)) ==> plain_patterns(builder_patterns(r)),
{
    let mut builder = new_builder();
    let ghost all = crate::sort::views(patterns@);
    let ghost mut flags: Seq<bool> = Seq::empty();
    let mut i: usize = 0;
    assert(all.take(0) =~= Seq::<Seq<char>>::empty());
    while i < patterns.len()
        invariant
            i <= patterns.len(),
            all == crate::sort::views(patterns@),
            judged(all.take(i as int), flags),
            builder_patterns(builder) == flagged(all.take(i as int), flags),
            plain_patterns(all) ==> plain_patterns(builder_patterns(builder)),
        decreases patterns.len() - i,
    {
        let ok: bool = add_glob(&mut builder, &patterns[i]);
        proof {
            let more = all.take(i + 1);
            let now = flags.push(ok);
            assert(more.drop_last() =~= all.take(i as int));
            assert(now.drop_last() =~= flags);
            assert(more.last() == patterns[i as int]@);
            assert(all[i as int] == patterns[i as int]@);
            assert forall|j: int| 0 <= j < now.len() implies judged_one(#[trigger] more[j], now[j]) by {
                if j < flags.len() {
                    assert(more[j] == all.take(i as int)[j]);
                }
            }
            flags = now;
        }
        i += 1;
    }
    assert(all.take(i as int) =~= all);
    assert(judged(all, flags));
    builder
}

/// The set that was compiled, or the empty one where that failed.
pub fn set_or_empty(built: Result<globset::GlobSet, globset::Error>) -> (r: globset::GlobSet)
    ensures
        (match built {
            Ok(set) => r == set,
            Err(_) => set_patterns(r) == Seq::<Seq<char>>::empty(),
        }),
{
    match built {
        Ok(set) => set,
        Err(_) => empty_set(),
    }
}

/// Builds the set of the patterns that are globs; the others are ignored. Where such a
/// set cannot be compiled, nothing is excluded.
pub fn build_globset(patterns: &Vec<String>) -> (r: globset::GlobSet)
    ensures
        exists|flags: Seq<bool>| #[trigger]
            judged(crate::sort::views(patterns@), flags) && is_set_of(
                set_patterns(r),
                flagged(crate::sort::views(patterns@), flags),
            ),
        simple_patterns(crate::sort::views(patterns@)) ==> set_patterns(r) == crate::sort::views(
            patterns@,
        ),
        plain_patterns(crate::sort::views(patterns@)) ==> plain_patterns(set_patterns(r)),
{
    let builder = collect_globs(patterns);
    let set = set_or_empty(build_set(&builder));
    proof {
        let all = crate::sort::views(patterns@);
        let flags = choose|flags: Seq<bool>| #[trigger]
            judged(all, flags) && builder_patterns(builder) == flagged(all, flags);
        assert(is_set_of(set_patterns(set), flagged(all, flags)));
        if simple_patterns(all) {
            lemma_all_flagged(all, flags);
        }
    }
    set
}

/// A compiled set holds the patterns, or nothing where they could not be compiled; names
/// and extensions always can.
pub open spec fn is_set_of(set: Seq<Seq<char>>, patterns: Seq<Seq<char>>) -> bool {
    ||| set == patterns
    ||| set == Seq::<Seq<char>>::empty() && !simple_patterns(patterns)
}

/// Where every pattern is a name or an extension, all of them are globs.
proof fn lemma_all_flagged(patterns: Seq<Seq<char>>, flags: Seq<bool>)
    requires
        simple_patterns(patterns),
        judged(patterns, flags),
    ensures
        flagged(patterns, flags) == patterns,
    decreases patterns.len(),
{
    if patterns.len() > 0 {
        let n = patterns.len() - 1;
        assert(judged_one(patterns[n], flags[n]));
        assert forall|i: int| 0 <= i < n implies simple_pattern(
            #[trigger] patterns.drop_last()[i],
        ) by {
            assert(simple_pattern(patterns[i]));
        }
        assert forall|i: int| 0 <= i < n implies judged_one(
            #[trigger] patterns.drop_last()[i],
            flags.drop_last()[i],
        ) by {
            assert(judged_one(patterns[i], flags[i]));
        }
        lemma_all_flagged(patterns.drop_last(), flags.drop_last());
        assert(flagged(patterns, flags) =~= patterns);
    } else {
        assert(flagged(patterns, flags) =~= patterns);
    }
}

/// The patterns that are not valid.
pub fn invalid_ones(patterns: &Vec<String>, valid: &Vec<bool>) -> (r: Vec<String>)
    requires
        valid@.len() == patterns@.len(),
    ensures
        crate::sort::views(r@) == flagged(crate::sort::views(patterns@), opposite(valid@)),
{
    let mut out: Vec<String> = Vec::new();
    let ghost all = crate::sort::views(patterns@);
    let ghost bad = opposite(valid@);
    let mut i: usize = 0;
    assert(all.take(0) =~= Seq::<Seq<char>>::empty());
    assert(crate::sort::views(out@) =~= Seq::<Seq<char>>::empty());
    while i < patterns.len()
        invariant
            i <= patterns.len(),
            valid@.len() == patterns@.len(),
            all == crate::sort::views(patterns@),
            bad == opposite(valid@),
            crate::sort::views(out@) == flagged(all.take(i as int), bad.take(i as int)),
        decreases patterns.len() - i,
    {
        let ghost was = crate::sort::views(out@);
        proof {
            assert(all.take(i + 1).drop_last() =~= all.take(i as int));
            assert(bad.take(i + 1).drop_last() =~= bad.take(i as int));
            assert(all.take(i + 1).last() == patterns[i as int]@);
        }
        if !valid[i] {
            out.push(patterns[i].clone());
            assert(crate::sort::views(out@) =~= was.push(patterns[i as int]@));
        }
        i += 1;
    }
    assert(all.take(i as int) =~= all);
    assert(bad.take(i as int) =~= bad);
    out
}

/// Return the exclude patterns that aren't valid globs, so a caller can warn
/// instead of silently ignoring a typo like `[bad`.
pub fn validate_globs(patterns: &Vec<String>) -> (r: Vec<String>)
    ensures
        exists|flags: Seq<bool>| #[trigger]
            judged(crate::sort::views(patterns@), flags) && crate::sort::views(r@) == flagged(
                crate::sort::views(patterns@),
                opposite(flags),
            ),
{
    let mut valid: Vec<bool> = Vec::new();
    let ghost all = crate::sort::views(patterns@);
    let mut i: usize = 0;
    while i < patterns.len()
        invariant
            i <= patterns.len(),
            valid@.len() == i,
            all == crate::sort::views(patterns@),
            forall|j: int| 0 <= j < i ==> judged_one(#[trigger] all[j], valid@[j]),
        decreases patterns.len() - i,
    {
        assert(all[i as int] == patterns[i as int]@);
        valid.push(glob_parses(&patterns[i]));
        i += 1;
    }
    assert(judged(all, valid@));
    invalid_ones(patterns, &valid)
}

/// Some pattern matches the whole path or one of its components.
pub open spec fn excludes(
    patterns: Seq<Seq<char>>,
    path: Seq<u8>,
    components: Seq<Seq<u8>>,
) -> bool {
    ||| some_matches(patterns, path)
    ||| exists|i: int| 0 <= i < components.len() && some_matches(patterns, #[trigger] components[i])
}

/// Whether any of the flags is set.
pub fn any_hit(hits: &Vec<bool>) -> (r: bool)
    ensures
        r == exists|i: int| 0 <= i < hits@.len() && #[trigger] hits@[i],
{
    let mut i: usize = 0;
    while i < hits.len()
        invariant
            i <= hits.len(),
            forall|j: int| 0 <= j < i ==> !#[trigger] hits@[j],
        decreases hits.len() - i,
    {
        if hits[i] {
            return true;
        }
        i += 1;
    }
    false
}

/// True if `path` should be excluded: the glob matches the whole path, any
/// component (e.g. a `node_modules` dir), or the file name (e.g. `*.tmp`).
pub fn is_excluded(glob: &globset::GlobSet, path: &Vec<u8>, components: &Vec<Vec<u8>>) -> (r: bool)
    ensures
        set_patterns(*glob).len() == 0 ==> !r,
        plain_patterns(set_patterns(*glob)) && plain_text(path@) && (forall|i: int|
            0 <= i < components@.len() ==> plain_text(#[trigger] components@[i]@)) ==> r
            == excludes(set_patterns(*glob), path@, crate::sort::views(components@)),
        plain_patterns(set_patterns(*glob)) && plain_text(path@) && some_matches(
            set_patterns(*glob),
            path@,
        ) ==> r,
        plain_patterns(set_patterns(*glob)) ==> forall|i: int|
            0 <= i < components@.len() && plain_text(#[trigger] components@[i]@) && some_matches(
                set_patterns(*glob),
                components@[i]@,
            ) ==> r,
        plain_text(path@) && simple_hit(set_patterns(*glob), path@) ==> r,
        forall|i: int|
            0 <= i < components@.len() && plain_text(#[trigger] components@[i]@) && simple_hit(
                set_patterns(*glob),
                components@[i]@,
            ) ==> r,
{
    let ghost patterns = set_patterns(*glob);
    let ghost parts = crate::sort::views(components@);
    if has_no_globs(glob) {
        return false;
    }
    let mut hits: Vec<bool> = Vec::new();
    hits.push(set_matches(glob, path));
    let mut i: usize = 0;
    while i < components.len()
        invariant
            i <= components.len(),
            hits@.len() == i + 1,
            patterns == set_patterns(*glob),
            parts == crate::sort::views(components@),
            plain_patterns(patterns) && plain_text(path@) ==> hits@[0] == some_matches(
                patterns,
                path@,
            ),
            forall|j: int|
                0 <= j < i && plain_patterns(patterns) && plain_text(#[trigger] parts[j]) ==> hits@[j
                    + 1] == some_matches(patterns, parts[j]),
            plain_text(path@) && simple_hit(patterns, path@) ==> hits@[0],
            forall|j: int|
                0 <= j < i && plain_text(#[trigger] parts[j]) && simple_hit(patterns, parts[j])
                    ==> hits@[j + 1],
        decreases components.len() - i,
    {
        assert(parts[i as int] == components[i as int]@);
        hits.push(set_matches(glob, &components[i]));
        i += 1;
    }
    let r: bool = any_hit(&hits);
    proof {
        if plain_text(path@) && simple_hit(patterns, path@) {
            assert(hits@[0]);
        }
        assert forall|j: int|
            0 <= j < components@.len() && plain_text(#[trigger] components@[j]@) && simple_hit(
                patterns,
                components@[j]@,
            ) implies r by {
            assert(parts[j] == components@[j]@);
            assert(hits@[j + 1]);
        }
        if plain_patterns(patterns) {
            if plain_text(path@) && some_matches(patterns, path@) {
                assert(hits@[0]);
            }
            assert forall|j: int|
                0 <= j < components@.len() && plain_text(#[trigger] components@[j]@)
                    && some_matches(patterns, components@[j]@) implies r by {
                assert(parts[j] == components@[j]@);
                assert(hits@[j + 1]);
            }
        }
        if plain_patterns(patterns) && plain_text(path@) && (forall|j: int|
            0 <= j < components@.len() ==> plain_text(#[trigger] components@[j]@)) {
            assert forall|j: int| 0 <= j < parts.len() implies hits@[j + 1] == some_matches(
                patterns,
                #[trigger] parts[j],
            ) by {
                assert(plain_text(components@[j]@));
            }
            if r {
                let k = choose|k: int| 0 <= k < hits@.len() && #[trigger] hits@[k];
                if k > 0 {
                    assert(some_matches(patterns, parts[k - 1]));
                }
            }
            if exists|j: int| 0 <= j < parts.len() && some_matches(patterns, #[trigger] parts[j]) {
                let j = choose|j: int|
                    0 <= j < parts.len() && some_matches(patterns, #[trigger] parts[j]);
                assert(hits@[j + 1]);
            }
        }
    }
    r
}

/// Some pattern matches the path or one of its components.
pub open spec fn excludes_path(
    patterns: Seq<Seq<char>>,
    path: Seq<Part>,
    spelling: Spelling,
) -> bool {
    excludes(
        patterns,
        crate::raw::path_raw(path, spelling),
        crate::raw::parts_raw(path, spelling),
    )
}

/// No backslash occurs in the bytes of the path or of one of its components.
pub open spec fn plain_path(path: Seq<Part>, spelling: Spelling) -> bool {
    &&& plain_text(crate::raw::path_raw(path, spelling))
    &&& forall|i: int|
        0 <= i < path.len() ==> plain_text(
            crate::raw::part_raw(#[trigger] path[i], spelling.sep),
        )
}

/// True if a walk leaves `path` out: a pattern matches the path as it is spelled, any of its
/// components, or the file name.
pub fn leaves_out(glob: &globset::GlobSet, path: &FilePath, style: &RawStyle) -> (r: bool)
    ensures
        set_patterns(*glob).len() == 0 ==> !r,
        plain_patterns(set_patterns(*glob)) && plain_path(path@, style@) ==> r == excludes_path(
            set_patterns(*glob),
            path@,
            style@,
        ),
        plain_patterns(set_patterns(*glob)) ==> forall|i: int|
            0 <= i < path@.len() && plain_text(
                crate::raw::part_raw(#[trigger] path@[i], style@.sep),
            ) && some_matches(
                set_patterns(*glob),
                crate::raw::part_raw(path@[i], style@.sep),
            ) ==> r,
        forall|i: int|
            0 <= i < path@.len() && plain_text(
                crate::raw::part_raw(#[trigger] path@[i], style@.sep),
            ) && simple_hit(
                set_patterns(*glob),
                crate::raw::part_raw(path@[i], style@.sep),
            ) ==> r,
{
    let whole = path.raw(style);
    let parts = path.raw_parts(style);
    let r: bool = is_excluded(glob, &whole, &parts);
    proof {
        let raws = crate::raw::parts_raw(path@, style@);
        assert(crate::sort::views(parts@).len() == parts@.len());
        assert forall|i: int| 0 <= i < path@.len() implies parts@[i]@ == crate::raw::part_raw(
            #[trigger] path@[i],
            style@.sep,
        ) by {
            assert(crate::sort::views(parts@)[i] == raws[i]);
        }
        if plain_path(path@, style@) {
            assert forall|i: int| 0 <= i < parts@.len() implies plain_text(
                #[trigger] parts@[i]@,
            ) by {
                assert(parts@[i]@ == crate::raw::part_raw(path@[i], style@.sep));
            }
        }
    }
    r
}

/// Everything below a folder whose name is matched is left out as well.
pub proof fn law_nothing_below_an_excluded_folder_is_kept(
    patterns: Seq<Seq<char>>,
    folder: Seq<Part>,
    below: Seq<Part>,
    spelling: Spelling,
)
    requires
        folder.len() > 0,
        some_matches(patterns, crate::raw::part_raw(folder.last(), spelling.sep)),
        folder.is_prefix_of(below),
    ensures
        excludes_path(patterns, below, spelling),
{
    let raws = crate::raw::parts_raw(below, spelling);
    let k = folder.len() - 1;
    assert(below[k] == folder[k]) by {
        assert(folder =~= below.subrange(0, folder.len() as int));
    }
    assert(some_matches(patterns, raws[k]));
}

/// More patterns never exclude less.
pub proof fn law_more_patterns_exclude_more(
    patterns: Seq<Seq<char>>,
    more: Seq<Seq<char>>,
    path: Seq<u8>,
    components: Seq<Seq<u8>>,
)
    requires
        excludes(patterns, path, components),
    ensures
        excludes(patterns + more, path, components),
        excludes(more + patterns, path, components),
{
    assert forall|text: Seq<u8>| #[trigger] some_matches(patterns, text) implies some_matches(
        patterns + more,
        text,
    ) && some_matches(more + patterns, text) by {
        let i = choose|i: int|
            0 <= i < patterns.len() && pattern_matches(#[trigger] patterns[i], text);
        assert((patterns + more)[i] == patterns[i]);
        assert((more + patterns)[more.len() + i] == patterns[i]);
    }
}

/// Where a component is matched, everything below it is excluded too.
pub proof fn law_excluded_component_excludes_below(
    patterns: Seq<Seq<char>>,
    components: Seq<Seq<u8>>,
    k: int,
    path: Seq<u8>,
    below: Seq<Seq<u8>>,
)
    requires
        0 <= k < components.len(),
        some_matches(patterns, components[k]),
        components.is_prefix_of(below),
    ensures
        excludes(patterns, path, below),
{
    assert(below[k] == components[k]) by {
        assert(components =~= below.subrange(0, components.len() as int));
    }
}

/// A name excludes whatever has a component of that name, as `node_modules` does.
pub proof fn law_a_name_excludes_its_components(
    patterns: Seq<Seq<char>>,
    name: Seq<char>,
    path: Seq<u8>,
    components: Seq<Seq<u8>>,
)
    requires
        name_pattern(name),
        patterns.contains(name),
        components.contains(vstd::utf8::encode_utf8(name)),
    ensures
        excludes(patterns, path, components),
{
    let i = choose|i: int| 0 <= i < patterns.len() && patterns[i] == name;
    let k = choose|k: int|
        0 <= k < components.len() && components[k] == vstd::utf8::encode_utf8(name);
    assert(pattern_matches(patterns[i], components[k]));
    assert(some_matches(patterns, components[k]));
}

/// An extension excludes whatever has a component that ends with it, as `*.tmp` does.
pub proof fn law_an_extension_excludes_its_files(
    patterns: Seq<Seq<char>>,
    extension: Seq<char>,
    path: Seq<u8>,
    components: Seq<Seq<u8>>,
    k: int,
)
    requires
        extension_pattern(extension),
        patterns.contains(extension),
        0 <= k < components.len(),
        vstd::utf8::encode_utf8(extension.skip(1)).is_suffix_of(components[k]),
    ensures
        excludes(patterns, path, components),
{
    let i = choose|i: int| 0 <= i < patterns.len() && patterns[i] == extension;
    assert(is_special(extension[0]));
    assert(pattern_matches(patterns[i], components[k]));
    assert(some_matches(patterns, components[k]));
}

/// Without a pattern nothing is excluded.
pub proof fn law_no_pattern_excludes_nothing(path: Seq<u8>, components: Seq<Seq<u8>>)
    ensures
        !excludes(Seq::empty(), path, components),
{
}

} // verus!
