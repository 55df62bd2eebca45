//! Paths as people read them.
use vstd::prelude::*;

use crate::path::{FilePath, Part, PathPart};

verus! {

/// The text that `String::from_utf8_lossy` makes of bytes that are not valid UTF-8.
pub uninterp spec fn lossy_text(bytes: Seq<u8>) -> Seq<char>;

/// Calls `String::from_utf8_lossy`, which replaces what is not valid UTF-8 and leaves
/// what is valid as it is.
#[verifier::external_body]
fn lossy(bytes: &Vec<u8>) -> (r: String)
    ensures
        vstd::utf8::valid_utf8(bytes@) ==> r@ == vstd::utf8::decode_utf8(bytes@),
        !vstd::utf8::valid_utf8(bytes@) ==> r@ == lossy_text(bytes@),
{
    String::from_utf8_lossy(bytes).into_owned()
}

/// A name as text: the text that it encodes, if it encodes one.
pub open spec fn name_text(bytes: Seq<u8>) -> Seq<char> {
    if vstd::utf8::valid_utf8(bytes) {
        vstd::utf8::decode_utf8(bytes)
    } else {
        lossy_text(bytes)
    }
}

/// A component as text.
pub open spec fn part_text(p: Part, sep: Seq<char>) -> Seq<char> {
    match p {
        Part::Prefix(b) => name_text(b),
        Part::RootDir => sep,
        Part::CurDir => "."@,
        Part::ParentDir => ".."@,
        Part::Normal(b) => name_text(b),
    }
}

/// Whether a separator stands between two components that follow each other.
pub open spec fn separated(a: Part, b: Part) -> bool {
    !(a is RootDir) && !(a is Prefix) && !(b is RootDir)
}

/// The texts of a path's components, put together.
pub open spec fn joined<T>(p: Seq<Part>, texts: Seq<Seq<T>>, sep: Seq<T>) -> Seq<T>
    decreases p.len(),
{
    if p.len() == 0 {
        Seq::empty()
    } else {
        let n = p.len() - 1;
        let before = joined(p.drop_last(), texts, sep);
        if n > 0 && separated(p[n - 1], p[n]) {
            before + sep + texts[n]
        } else {
            before + texts[n]
        }
    }
}

/// The texts of a path's components.
pub open spec fn part_texts(p: Seq<Part>, sep: Seq<char>) -> Seq<Seq<char>> {
    Seq::new(p.len(), |i: int| part_text(p[i], sep))
}

/// How paths are written, as a mathematical value.
pub struct Style {
    /// What stands between components.
    pub sep: Seq<char>,
    /// The path that somebody wrote.
    pub given: Seq<Part>,
    /// How they wrote it.
    pub text: Seq<char>,
}

/// How paths are written: their components are separated by `sep`, and the path that
/// somebody gave is written as they wrote it, also where it is the beginning of another.
#[derive(Debug)]
pub struct PathStyle {
    sep: String,
    given: FilePath,
    text: String,
    /// Whether the text ends in a separator already.
    closed_off: bool,
}

impl View for PathStyle {
    type V = Style;

    closed spec fn view(&self) -> Style {
        Style { sep: self.sep@, given: self.given@, text: self.text@ }
    }
}

/// A path as text, given the texts of its components, where the path `given` is written as
/// `start`.
pub open spec fn spelled<T>(
    p: Seq<Part>,
    texts: Seq<Seq<T>>,
    given: Seq<Part>,
    start: Seq<T>,
    sep: Seq<T>,
) -> Seq<T> {
    let n = given.len() as int;
    if n == 0 || !given.is_prefix_of(p) {
        joined(p, texts, sep)
    } else if p.len() == n {
        start
    } else if separated(p[n - 1], p[n]) && !sep.is_suffix_of(start) {
        start + sep + joined(p.skip(n), texts.skip(n), sep)
    } else {
        start + joined(p.skip(n), texts.skip(n), sep)
    }
}

/// A path as text.
pub open spec fn path_text(p: Seq<Part>, style: Style) -> Seq<char> {
    spelled(p, part_texts(p, style.sep), style.given, style.text, style.sep)
}

/// Whether `text` ends with `end`.
fn ends_with(text: &str, end: &str) -> (r: bool)
    ensures
        r == end@.is_suffix_of(text@),
{
    let n: usize = text.unicode_len();
    let m: usize = end.unicode_len();
    if m > n {
        return false;
    }
    let mut i: usize = 0;
    while i < m
        invariant
            i <= m <= n,
            n == text@.len(),
            m == end@.len(),
            forall|j: int| 0 <= j < i ==> text@[n - m + j] == end@[j],
        decreases m - i,
    {
        if text.get_char(n - m + i) != end.get_char(i) {
            assert(text@.subrange(n - m, n as int)[i as int] != end@[i as int]);
            return false;
        }
        i += 1;
    }
    assert(end@ =~= text@.subrange(n - m, n as int));
    true
}

impl PathStyle {
    #[verifier::type_invariant]
    closed spec fn wf(self) -> bool {
        self.closed_off == self.sep@.is_suffix_of(self.text@)
    }

    /// Paths written out of their components alone.
    pub fn new(sep: &str) -> (r: PathStyle)
        ensures
            r@ == (Style { sep: sep@, given: Seq::empty(), text: Seq::empty() }),
    {
        let r = PathStyle::of(sep, &FilePath::new(Vec::new()), "");
        proof {
            reveal_strlit("");
            assert(r@.given =~= Seq::empty());
            assert(r@.text =~= Seq::empty());
        }
        r
    }

    /// Paths where `given` is written as `text`.
    pub fn of(sep: &str, given: &FilePath, text: &str) -> (r: PathStyle)
        ensures
            r@ == (Style { sep: sep@, given: given@, text: text@ }),
    {
        PathStyle {
            sep: sep.to_owned(),
            given: given.clone(),
            text: text.to_owned(),
            closed_off: ends_with(text, sep),
        }
    }
}

/// A component as text.
fn show_part(p: &PathPart, sep: &str) -> (r: String)
    ensures
        r@ == part_text(p@, sep@),
{
    match p {
        PathPart::Prefix(b) => lossy(b),
        PathPart::RootDir => sep.to_owned(),
        PathPart::CurDir => ".".to_owned(),
        PathPart::ParentDir => "..".to_owned(),
        PathPart::Normal(b) => lossy(b),
    }
}

impl FilePath {
    /// The components from the `k`-th on as text, given the texts of all of them.
    fn join_from(&self, k: usize, texts: &Vec<String>, sep: &str) -> (r: String)
        requires
            k <= self@.len(),
            texts@.len() == self@.len(),
        ensures
            r@ == joined(
                self@.skip(k as int),
                crate::sort::views(texts@).skip(k as int),
                sep@,
            ),
    {
        let parts = self.parts();
        let ghost all = crate::sort::views(texts@).skip(k as int);
        let ghost rest = self@.skip(k as int);
        let mut out = String::new();
        let mut i: usize = k;
        assert(out@ =~= joined(rest.take(0), all, sep@));
        while i < parts.len()
            invariant
                k <= i <= parts.len(),
                texts@.len() == self@.len(),
                crate::sort::views(parts@) == self@,
                all == crate::sort::views(texts@).skip(k as int),
                rest == self@.skip(k as int),
                out@ == joined(rest.take(i - k), all, sep@),
            decreases parts.len() - i,
        {
            let ghost more = rest.take(i - k + 1);
            proof {
                assert(more.drop_last() =~= rest.take(i - k));
                assert(more[i - k] == self@[i as int]);
                assert(self@[i as int] == parts@[i as int]@);
                assert(all[i - k] == texts@[i as int]@);
                if i > k {
                    assert(self@[i - 1] == parts@[i - 1]@);
                    assert(more[i - k - 1] == self@[i - 1]);
                }
            }
            if i > k && self.apart(i) {
                out.append(sep);
            }
            out.append(texts[i].as_str());
            i += 1;
        }
        assert(rest.take(i - k) =~= rest);
        out
    }

    /// Whether a separator stands before the `i`-th component.
    pub(crate) fn apart(&self, i: usize) -> (r: bool)
        requires
            0 < i < self@.len(),
        ensures
            r == separated(self@[i - 1], self@[i as int]),
    {
        let parts = self.parts();
        assert(self@[i - 1] == parts@[i - 1]@);
        assert(self@[i as int] == parts@[i as int]@);
        let after_marker: bool = match &parts[i - 1] {
            PathPart::RootDir => true,
            PathPart::Prefix(_) => true,
            _ => false,
        };
        let marker: bool = match &parts[i] {
            PathPart::RootDir => true,
            _ => false,
        };
        !after_marker && !marker
    }

    /// The path as text, given the texts of its components.
    pub fn join_texts(&self, texts: &Vec<String>, style: &PathStyle) -> (r: String)
        requires
            texts@.len() == self@.len(),
        ensures
            r@ == spelled(
                self@,
                crate::sort::views(texts@),
                style@.given,
                style@.text,
                style@.sep,
            ),
    {
        proof {
            use_type_invariant(style);
        }
        let n: usize = style.given.len();
        if n == 0 || !self.starts_with(&style.given) {
            let r = self.join_from(0, texts, style.sep.as_str());
            assert(self@.skip(0) =~= self@);
            assert(crate::sort::views(texts@).skip(0) =~= crate::sort::views(texts@));
            return r;
        }
        let mut out = style.text.clone();
        if self.len() > n {
            if self.apart(n) && !style.closed_off {
                out.append(style.sep.as_str());
            }
            out.append(self.join_from(n, texts, style.sep.as_str()).as_str());
        }
        out
    }

    /// The path as text. Names that are not valid UTF-8 are shown with replacement
    /// characters.
    pub fn display(&self, style: &PathStyle) -> (r: String)
        ensures
            r@ == path_text(self@, style@),
    {
        let parts = self.parts();
        let mut texts: Vec<String> = Vec::new();
        let mut i: usize = 0;
        while i < parts.len()
            invariant
                i <= parts.len(),
                crate::sort::views(parts@) == self@,
                texts@.len() == i,
                forall|j: int|
                    0 <= j < i ==> (#[trigger] texts@[j])@ == part_text(self@[j], style@.sep),
            decreases parts.len() - i,
        {
            assert(self@[i as int] == parts@[i as int]@);
            texts.push(show_part(&parts[i], style.sep.as_str()));
            i += 1;
        }
        assert(crate::sort::views(texts@) =~= part_texts(self@, style@.sep));
        self.join_texts(&texts, style)
    }
}

/// A name that is valid UTF-8 is shown as the text that it encodes.
pub proof fn law_valid_names_are_shown_as_they_are(name: Seq<char>, style: Style)
    requires
        style.given.len() == 0,
    ensures
        path_text(seq![Part::Normal(vstd::utf8::encode_utf8(name))], style) == name,
{
    let bytes = vstd::utf8::encode_utf8(name);
    let p = seq![Part::Normal(bytes)];
    let texts = part_texts(p, style.sep);
    vstd::utf8::encode_utf8_valid_utf8(name);
    vstd::utf8::encode_utf8_decode_utf8(name);
    assert(texts[0] == name);
    reveal_with_fuel(joined, 2);
    assert(joined(p, texts, style.sep) =~= name);
}

/// The path that somebody gave is shown as they wrote it.
pub proof fn law_given_path_is_shown_as_given(style: Style)
    requires
        style.given.len() > 0,
    ensures
        path_text(style.given, style) == style.text,
{
}

} // verus!
