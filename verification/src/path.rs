//! Paths as lists of components.
//!
//! Two paths are the same path exactly when their component lists agree, and
//! paths are ordered component by component, so everything the library needs to
//! know about a path (its parent, whether it lies below another, which of two
//! comes first) can be read off the list. Component names are kept as raw bytes:
//! a file name need not be valid text.
use vstd::prelude::*;

verus! {

/// One component of a path, as a mathematical value.
#[verifier::ext_equal]
pub enum Part {
    Prefix(Seq<u8>),
    RootDir,
    CurDir,
    ParentDir,
    Normal(Seq<u8>),
}

/// One component of a path.
#[derive(Debug)]
pub enum PathPart {
    /// A drive or share prefix, such as `C:`.
    Prefix(Vec<u8>),
    /// The root directory marker of an absolute path.
    RootDir,
    /// A leading `.`.
    CurDir,
    /// `..`.
    ParentDir,
    /// An ordinary name.
    Normal(Vec<u8>),
}

impl View for PathPart {
    type V = Part;

    open spec fn view(&self) -> Part {
        match self {
            PathPart::Prefix(b) => Part::Prefix(b@),
            PathPart::RootDir => Part::RootDir,
            PathPart::CurDir => Part::CurDir,
            PathPart::ParentDir => Part::ParentDir,
            PathPart::Normal(b) => Part::Normal(b@),
        }
    }
}

/// A path: the list of its components.
#[derive(Debug)]
pub struct FilePath {
    parts: Vec<PathPart>,
}

impl View for FilePath {
    type V = Seq<Part>;

    closed spec fn view(&self) -> Seq<Part> {
        Seq::new(self.parts@.len(), |i: int| self.parts@[i]@)
    }
}

/// The directory that holds `p`: all components but the last. A path that is
/// empty, or that ends in a root or drive marker, lies in no directory.
pub open spec fn parent_of(p: Seq<Part>) -> Option<Seq<Part>> {
    if p.len() == 0 || p.last() is RootDir || p.last() is Prefix {
        None
    } else {
        Some(p.drop_last())
    }
}

/// The position of a component's kind in the component order.
pub open spec fn part_rank(p: Part) -> int {
    match p {
        Part::Prefix(_) => 0,
        Part::RootDir => 1,
        Part::CurDir => 2,
        Part::ParentDir => 3,
        Part::Normal(_) => 4,
    }
}

/// The bytes a component carries.
pub open spec fn part_bytes(p: Part) -> Seq<u8> {
    match p {
        Part::Prefix(b) => b,
        Part::Normal(b) => b,
        _ => Seq::empty(),
    }
}

/// Dictionary order on byte strings.
pub open spec fn bytes_le(a: Seq<u8>, b: Seq<u8>) -> bool
    decreases a.len(),
{
    a.len() == 0 || (b.len() > 0 && (a[0] < b[0] || (a[0] == b[0] && bytes_le(
        a.drop_first(),
        b.drop_first(),
    ))))
}

/// Order of components: by kind first, then by name.
pub open spec fn part_le(a: Part, b: Part) -> bool {
    part_rank(a) < part_rank(b) || (part_rank(a) == part_rank(b) && bytes_le(
        part_bytes(a),
        part_bytes(b),
    ))
}

/// Order of paths: dictionary order on their components.
pub open spec fn path_le(a: Seq<Part>, b: Seq<Part>) -> bool
    decreases a.len(),
{
    a.len() == 0 || (b.len() > 0 && if a[0] == b[0] {
        path_le(a.drop_first(), b.drop_first())
    } else {
        part_le(a[0], b[0])
    })
}

pub(crate) proof fn lemma_bytes_refl(a: Seq<u8>)
    ensures
        bytes_le(a, a),
    decreases a.len(),
{
    if a.len() > 0 {
        lemma_bytes_refl(a.drop_first());
    }
}

pub(crate) proof fn lemma_bytes_total(a: Seq<u8>, b: Seq<u8>)
    ensures
        bytes_le(a, b) || bytes_le(b, a),
    decreases a.len(),
{
    if a.len() > 0 && b.len() > 0 {
        lemma_bytes_total(a.drop_first(), b.drop_first());
    }
}

pub(crate) proof fn lemma_bytes_antisym(a: Seq<u8>, b: Seq<u8>)
    requires
        bytes_le(a, b),
        bytes_le(b, a),
    ensures
        a == b,
    decreases a.len(),
{
    if a.len() > 0 && b.len() > 0 {
        lemma_bytes_antisym(a.drop_first(), b.drop_first());
        assert(a =~= seq![a[0]] + a.drop_first());
        assert(b =~= seq![b[0]] + b.drop_first());
    }
    assert(a =~= b);
}

pub(crate) proof fn lemma_bytes_trans(a: Seq<u8>, b: Seq<u8>, c: Seq<u8>)
    requires
        bytes_le(a, b),
        bytes_le(b, c),
    ensures
        bytes_le(a, c),
    decreases a.len(),
{
    if a.len() > 0 && b.len() > 0 && c.len() > 0 {
        if a[0] == b[0] && b[0] == c[0] {
            lemma_bytes_trans(a.drop_first(), b.drop_first(), c.drop_first());
        }
    }
}

/// A component is determined by its kind and its bytes.
proof fn lemma_part_ext(a: Part, b: Part)
    requires
        part_rank(a) == part_rank(b),
        part_bytes(a) == part_bytes(b),
    ensures
        a == b,
{
}

proof fn lemma_part_total(a: Part, b: Part)
    ensures
        part_le(a, b) || part_le(b, a),
{
    lemma_bytes_total(part_bytes(a), part_bytes(b));
}

proof fn lemma_part_antisym(a: Part, b: Part)
    requires
        part_le(a, b),
        part_le(b, a),
    ensures
        a == b,
{
    lemma_bytes_antisym(part_bytes(a), part_bytes(b));
    lemma_part_ext(a, b);
}

proof fn lemma_part_trans(a: Part, b: Part, c: Part)
    requires
        part_le(a, b),
        part_le(b, c),
    ensures
        part_le(a, c),
{
    if part_rank(a) == part_rank(b) && part_rank(b) == part_rank(c) {
        lemma_bytes_trans(part_bytes(a), part_bytes(b), part_bytes(c));
    }
}

/// Any two paths are comparable.
pub proof fn lemma_path_total(a: Seq<Part>, b: Seq<Part>)
    ensures
        path_le(a, b) || path_le(b, a),
    decreases a.len(),
{
    if a.len() > 0 && b.len() > 0 {
        lemma_path_total(a.drop_first(), b.drop_first());
        lemma_part_total(a[0], b[0]);
    }
}

/// Paths that precede each other are the same path.
pub proof fn lemma_path_antisym(a: Seq<Part>, b: Seq<Part>)
    requires
        path_le(a, b),
        path_le(b, a),
    ensures
        a == b,
    decreases a.len(),
{
    if a.len() > 0 && b.len() > 0 {
        if a[0] == b[0] {
            lemma_path_antisym(a.drop_first(), b.drop_first());
            assert(a =~= seq![a[0]] + a.drop_first());
            assert(b =~= seq![b[0]] + b.drop_first());
        } else {
            lemma_part_antisym(a[0], b[0]);
        }
    }
    assert(a =~= b);
}

/// The path order is transitive.
pub proof fn lemma_path_trans(a: Seq<Part>, b: Seq<Part>, c: Seq<Part>)
    requires
        path_le(a, b),
        path_le(b, c),
    ensures
        path_le(a, c),
    decreases a.len(),
{
    if a.len() > 0 && b.len() > 0 && c.len() > 0 {
        if a[0] == b[0] && b[0] == c[0] {
            lemma_path_trans(a.drop_first(), b.drop_first(), c.drop_first());
        } else if a[0] != b[0] && b[0] != c[0] {
            lemma_part_trans(a[0], b[0], c[0]);
            if a[0] == c[0] {
                lemma_part_antisym(a[0], b[0]);
            }
        }
    }
}

/// Whether two byte strings are equal.
pub fn bytes_eq(a: &Vec<u8>, b: &Vec<u8>) -> (r: bool)
    ensures
        r == (a@ == b@),
{
    if a.len() != b.len() {
        return false;
    }
    let mut i: usize = 0;
    while i < a.len()
        invariant
            i <= a.len(),
            a.len() == b.len(),
            forall|j: int| 0 <= j < i ==> a@[j] == b@[j],
        decreases a.len() - i,
    {
        if a[i] != b[i] {
            return false;
        }
        i += 1;
    }
    assert(a@ =~= b@);
    true
}

/// Copies a byte string.
pub fn bytes_copy(a: &Vec<u8>) -> (r: Vec<u8>)
    ensures
        r@ == a@,
{
    let mut out: Vec<u8> = Vec::new();
    let mut i: usize = 0;
    while i < a.len()
        invariant
            i <= a.len(),
            out@ =~= a@.take(i as int),
        decreases a.len() - i,
    {
        out.push(a[i]);
        i += 1;
    }
    out
}

pub(crate) fn bytes_precede(a: &[u8], b: &[u8]) -> (r: bool)
    ensures
        r == bytes_le(a@, b@),
{
    let mut i: usize = 0;
    assert(a@.skip(0) =~= a@);
    assert(b@.skip(0) =~= b@);
    while i < a.len() && i < b.len()
        invariant
            i <= a.len(),
            i <= b.len(),
            bytes_le(a@, b@) == bytes_le(a@.skip(i as int), b@.skip(i as int)),
        decreases a.len() - i,
    {
        assert(a@.skip(i as int).drop_first() =~= a@.skip(i + 1));
        assert(b@.skip(i as int).drop_first() =~= b@.skip(i + 1));
        if a[i] < b[i] {
            return true;
        }
        if a[i] > b[i] {
            return false;
        }
        i += 1;
    }
    i == a.len()
}

impl Clone for PathPart {
    fn clone(&self) -> (r: Self)
        ensures
            r@ == self@,
    {
        match self {
            PathPart::Prefix(b) => PathPart::Prefix(bytes_copy(b)),
            PathPart::RootDir => PathPart::RootDir,
            PathPart::CurDir => PathPart::CurDir,
            PathPart::ParentDir => PathPart::ParentDir,
            PathPart::Normal(b) => PathPart::Normal(bytes_copy(b)),
        }
    }
}

impl PathPart {
    /// Whether the two components are the same.
    pub fn same(&self, other: &PathPart) -> (r: bool)
        ensures
            r == (self@ == other@),
    {
        match (self, other) {
            (PathPart::Prefix(a), PathPart::Prefix(b)) => bytes_eq(a, b),
            (PathPart::RootDir, PathPart::RootDir) => true,
            (PathPart::CurDir, PathPart::CurDir) => true,
            (PathPart::ParentDir, PathPart::ParentDir) => true,
            (PathPart::Normal(a), PathPart::Normal(b)) => bytes_eq(a, b),
            _ => false,
        }
    }

    fn rank(&self) -> (r: u8)
        ensures
            r as int == part_rank(self@),
    {
        match self {
            PathPart::Prefix(_) => 0,
            PathPart::RootDir => 1,
            PathPart::CurDir => 2,
            PathPart::ParentDir => 3,
            PathPart::Normal(_) => 4,
        }
    }

    fn precedes(&self, other: &PathPart) -> (r: bool)
        ensures
            r == part_le(self@, other@),
    {
        let a: u8 = self.rank();
        let b: u8 = other.rank();
        if a != b {
            return a < b;
        }
        match (self, other) {
            (PathPart::Prefix(x), PathPart::Prefix(y)) => bytes_precede(x.as_slice(), y.as_slice()),
            (PathPart::Normal(x), PathPart::Normal(y)) => bytes_precede(x.as_slice(), y.as_slice()),
            _ => {
                proof {
                    lemma_bytes_refl(part_bytes(self@));
                }
                true
            },
        }
    }
}

impl Clone for FilePath {
    fn clone(&self) -> (r: Self)
        ensures
            r@ == self@,
    {
        self.prefix(self.parts.len())
    }
}

impl FilePath {
    /// The path with the given components.
    pub fn new(parts: Vec<PathPart>) -> (r: FilePath)
        ensures
            r@ == crate::sort::views(parts@),
    {
        FilePath { parts }
    }

    /// The components, first to last.
    pub fn parts(&self) -> (r: &Vec<PathPart>)
        ensures
            crate::sort::views(r@) == self@,
    {
        &self.parts
    }

    /// How many components the path has.
    pub fn len(&self) -> (n: usize)
        ensures
            n == self@.len(),
    {
        self.parts.len()
    }

    /// The path with one more component.
    pub fn child(self, part: PathPart) -> (r: FilePath)
        ensures
            r@ == self@.push(part@),
    {
        let ghost was = self@;
        let mut parts = self.parts;
        parts.push(part);
        let r = FilePath { parts };
        assert(r@ =~= was.push(part@));
        r
    }

    /// The path made of the first `n` components.
    pub fn prefix(&self, n: usize) -> (r: FilePath)
        requires
            n <= self@.len(),
        ensures
            r@ == self@.take(n as int),
    {
        let mut out: Vec<PathPart> = Vec::new();
        let mut i: usize = 0;
        while i < n
            invariant
                i <= n <= self.parts.len(),
                out.len() == i,
                forall|j: int| 0 <= j < i ==> #[trigger] out@[j]@ == self.parts@[j]@,
            decreases n - i,
        {
            out.push(self.parts[i].clone());
            i += 1;
        }
        let r = FilePath { parts: out };
        assert(r@ =~= self@.take(n as int));
        r
    }

    /// The directory that holds this path.
    pub fn parent(&self) -> (r: Option<FilePath>)
        ensures
            (match r {
                Some(p) => parent_of(self@) == Some(p@),
                None => parent_of(self@) is None,
            }),
    {
        let n: usize = self.parts.len();
        if n == 0 {
            return None;
        }
        match &self.parts[n - 1] {
            PathPart::Prefix(_) => None,
            PathPart::RootDir => None,
            _ => {
                let p = self.prefix(n - 1);
                assert(p@ =~= self@.drop_last());
                Some(p)
            },
        }
    }

    /// Whether the two paths are the same path.
    pub fn same(&self, other: &FilePath) -> (r: bool)
        ensures
            r == (self@ == other@),
    {
        let n: usize = self.parts.len();
        if n != other.parts.len() {
            assert(self@.len() != other@.len());
            return false;
        }
        // Sibling paths differ only at the end, so compare from the back.
        let mut i: usize = n;
        while i > 0
            invariant
                i <= n,
                n == self.parts.len(),
                n == other.parts.len(),
                forall|j: int| i <= j < n ==> self@[j] == other@[j],
            decreases i,
        {
            i -= 1;
            if !self.parts[i].same(&other.parts[i]) {
                assert(self@[i as int] != other@[i as int]);
                return false;
            }
        }
        assert(self@ =~= other@);
        true
    }

    /// Whether this path is the directory that holds `other`.
    pub fn is_parent_of(&self, other: &FilePath) -> (r: bool)
        ensures
            r == (parent_of(other@) == Some(self@)),
    {
        let n: usize = self.parts.len();
        if other.parts.len() == 0 || other.parts.len() - 1 != n {
            assert(other@.len() > 0 ==> other@.drop_last().len() != self@.len());
            return false;
        }
        match &other.parts[n] {
            PathPart::Prefix(_) => false,
            PathPart::RootDir => false,
            _ => {
                let mut i: usize = n;
                while i > 0
                    invariant
                        i <= n,
                        n == self.parts.len(),
                        n + 1 == other.parts.len(),
                        forall|j: int| i <= j < n ==> self@[j] == other@[j],
                    decreases i,
                {
                    i -= 1;
                    if !self.parts[i].same(&other.parts[i]) {
                        assert(self@[i as int] != other@.drop_last()[i as int]);
                        return false;
                    }
                }
                assert(self@ =~= other@.drop_last());
                true
            },
        }
    }

    /// Whether this path comes before `other`, or is the same, in path order.
    pub fn precedes(&self, other: &FilePath) -> (r: bool)
        ensures
            r == path_le(self@, other@),
    {
        let mut i: usize = 0;
        assert(self@.skip(0) =~= self@);
        assert(other@.skip(0) =~= other@);
        while i < self.parts.len() && i < other.parts.len()
            invariant
                i <= self.parts.len(),
                i <= other.parts.len(),
                path_le(self@, other@) == path_le(self@.skip(i as int), other@.skip(i as int)),
            decreases self.parts.len() - i,
        {
            assert(self@.skip(i as int).drop_first() =~= self@.skip(i + 1));
            assert(other@.skip(i as int).drop_first() =~= other@.skip(i + 1));
            if !self.parts[i].same(&other.parts[i]) {
                return self.parts[i].precedes(&other.parts[i]);
            }
            i += 1;
        }
        i == self.parts.len()
    }

    /// Whether the path begins with all of `base`'s components.
    pub fn starts_with(&self, base: &FilePath) -> (r: bool)
        ensures
            r == base@.is_prefix_of(self@),
    {
        let n: usize = base.parts.len();
        if n > self.parts.len() {
            return false;
        }
        let mut i: usize = 0;
        while i < n
            invariant
                i <= n,
                n == base.parts.len(),
                n <= self.parts.len(),
                forall|j: int| 0 <= j < i ==> self@[j] == base@[j],
            decreases n - i,
        {
            if !self.parts[i].same(&base.parts[i]) {
                assert(self@.subrange(0, n as int)[i as int] != base@[i as int]);
                return false;
            }
            i += 1;
        }
        assert(base@ =~= self@.subrange(0, n as int));
        true
    }
}

} // verus!
