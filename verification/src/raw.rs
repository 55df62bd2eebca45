//! Paths as the bytes that the operating system takes.
use vstd::prelude::*;

use crate::path::{bytes_copy, FilePath, Part, PathPart};

verus! {

/// How paths are spelled, as a mathematical value.
pub struct Spelling {
    /// What stands between components.
    pub sep: Seq<u8>,
    /// The path that somebody wrote.
    pub given: Seq<Part>,
    /// How they wrote it.
    pub raw: Seq<u8>,
}

/// How paths are spelled: their components are separated by `sep`, and the path that
/// somebody gave is spelled as they wrote it, also where it is the beginning of another.
#[derive(Debug)]
pub struct RawStyle {
    sep: Vec<u8>,
    given: FilePath,
    raw: Vec<u8>,
}

impl View for RawStyle {
    type V = Spelling;

    closed spec fn view(&self) -> Spelling {
        Spelling { sep: self.sep@, given: self.given@, raw: self.raw@ }
    }
}

/// The bytes of a component.
pub open spec fn part_raw(p: Part, sep: Seq<u8>) -> Seq<u8> {
    match p {
        Part::Prefix(b) => b,
        Part::RootDir => sep,
        Part::CurDir => seq![0x2eu8],
        Part::ParentDir => seq![0x2eu8, 0x2eu8],
        Part::Normal(b) => b,
    }
}

/// The bytes of each component of a path.
pub open spec fn parts_raw(p: Seq<Part>, spelling: Spelling) -> Seq<Seq<u8>> {
    Seq::new(p.len(), |i: int| part_raw(p[i], spelling.sep))
}

/// The bytes of a path.
pub open spec fn path_raw(p: Seq<Part>, spelling: Spelling) -> Seq<u8> {
    crate::shown::spelled(
        p,
        parts_raw(p, spelling),
        spelling.given,
        spelling.raw,
        spelling.sep,
    )
}

/// Whether `bytes` end with `end`.
fn bytes_end_with(bytes: &Vec<u8>, end: &Vec<u8>) -> (r: bool)
    ensures
        r == end@.is_suffix_of(bytes@),
{
    let n: usize = bytes.len();
    let m: usize = end.len();
    if m > n {
        return false;
    }
    let mut i: usize = 0;
    while i < m
        invariant
            i <= m <= n,
            n == bytes@.len(),
            m == end@.len(),
            forall|j: int| 0 <= j < i ==> bytes@[n - m + j] == end@[j],
        decreases m - i,
    {
        if bytes[n - m + i] != end[i] {
            assert(bytes@.subrange(n - m, n as int)[i as int] != end@[i as int]);
            return false;
        }
        i += 1;
    }
    assert(end@ =~= bytes@.subrange(n - m, n as int));
    true
}

/// Puts `more` behind `bytes`.
fn push_bytes(bytes: &mut Vec<u8>, more: &Vec<u8>)
    ensures
        final(bytes)@ == old(bytes)@ + more@,
{
    let mut i: usize = 0;
    assert(bytes@ =~= old(bytes)@ + more@.take(0));
    while i < more.len()
        invariant
            i <= more.len(),
            bytes@ == old(bytes)@ + more@.take(i as int),
        decreases more.len() - i,
    {
        bytes.push(more[i]);
        i += 1;
        assert(bytes@ =~= old(bytes)@ + more@.take(i as int));
    }
    assert(more@.take(i as int) =~= more@);
}

/// The bytes of a component.
fn raw_of(p: &PathPart, sep: &Vec<u8>) -> (r: Vec<u8>)
    ensures
        r@ == part_raw(p@, sep@),
{
    match p {
        PathPart::Prefix(b) => bytes_copy(b),
        PathPart::RootDir => bytes_copy(sep),
        PathPart::CurDir => vec![0x2eu8],
        PathPart::ParentDir => vec![0x2eu8, 0x2eu8],
        PathPart::Normal(b) => bytes_copy(b),
    }
}

impl RawStyle {
    /// Paths where `given` is spelled as `raw`.
    pub fn of(sep: &Vec<u8>, given: &FilePath, raw: &Vec<u8>) -> (r: RawStyle)
        ensures
            r@ == (Spelling { sep: sep@, given: given@, raw: raw@ }),
    {
        RawStyle { sep: bytes_copy(sep), given: given.clone(), raw: bytes_copy(raw) }
    }
}

impl FilePath {
    /// The bytes of each component.
    pub fn raw_parts(&self, style: &RawStyle) -> (r: Vec<Vec<u8>>)
        ensures
            crate::sort::views(r@) == parts_raw(self@, style@),
    {
        let parts = self.parts();
        let mut out: Vec<Vec<u8>> = Vec::new();
        let mut i: usize = 0;
        while i < parts.len()
            invariant
                i <= parts.len(),
                crate::sort::views(parts@) == self@,
                out@.len() == i,
                forall|j: int| 0 <= j < i ==> (#[trigger] out@[j])@ == part_raw(self@[j], style@.sep),
            decreases parts.len() - i,
        {
            assert(self@[i as int] == parts@[i as int]@);
            out.push(raw_of(&parts[i], &style.sep));
            i += 1;
        }
        assert(crate::sort::views(out@) =~= parts_raw(self@, style@));
        out
    }

    /// The bytes of the components from the `k`-th on, put together.
    fn join_raw(&self, k: usize, raws: &Vec<Vec<u8>>, sep: &Vec<u8>) -> (r: Vec<u8>)
        requires
            k <= self@.len(),
            raws@.len() == self@.len(),
        ensures
            r@ == crate::shown::joined(
                self@.skip(k as int),
                crate::sort::views(raws@).skip(k as int),
                sep@,
            ),
    {
        let n: usize = self.len();
        let ghost all = crate::sort::views(raws@).skip(k as int);
        let ghost rest = self@.skip(k as int);
        let mut out: Vec<u8> = Vec::new();
        let mut i: usize = k;
        assert(out@ =~= crate::shown::joined(rest.take(0), all, sep@));
        while i < n
            invariant
                k <= i <= n,
                n == self@.len(),
                raws@.len() == n,
                all == crate::sort::views(raws@).skip(k as int),
                rest == self@.skip(k as int),
                out@ == crate::shown::joined(rest.take(i - k), all, sep@),
            decreases n - i,
        {
            proof {
                let more = rest.take(i - k + 1);
                assert(more.drop_last() =~= rest.take(i - k));
                assert(more[i - k] == self@[i as int]);
                assert(all[i - k] == raws@[i as int]@);
                if i > k {
                    assert(more[i - k - 1] == self@[i - 1]);
                }
            }
            if i > k && self.apart(i) {
                push_bytes(&mut out, sep);
            }
            push_bytes(&mut out, &raws[i]);
            i += 1;
        }
        assert(rest.take(i - k) =~= rest);
        out
    }

    /// The bytes of the path.
    pub fn raw(&self, style: &RawStyle) -> (r: Vec<u8>)
        ensures
            r@ == path_raw(self@, style@),
    {
        let raws = self.raw_parts(style);
        assert(raws@.len() == crate::sort::views(raws@).len());
        let n: usize = style.given.len();
        if n == 0 || !self.starts_with(&style.given) {
            let r = self.join_raw(0, &raws, &style.sep);
            assert(self@.skip(0) =~= self@);
            assert(crate::sort::views(raws@).skip(0) =~= crate::sort::views(raws@));
            return r;
        }
        let mut out = bytes_copy(&style.raw);
        if self.len() > n {
            if self.apart(n) && !bytes_end_with(&style.raw, &style.sep) {
                push_bytes(&mut out, &style.sep);
            }
            let rest = self.join_raw(n, &raws, &style.sep);
            push_bytes(&mut out, &rest);
        }
        out
    }
}

} // verus!
