//! How paths are written, and which of them are left out.
use vstd::prelude::*;

use crate::path::Part;
use crate::raw::Spelling;
use crate::shown::Style;
use crate::trail::{SightingRec, TrailRec};
use crate::walk::EntryRec;

verus! {

/// Only the texts of a path's own components matter.
proof fn lemma_joined_same<T>(p: Seq<Part>, a: Seq<Seq<T>>, b: Seq<Seq<T>>, sep: Seq<T>)
    requires
        forall|i: int| 0 <= i < p.len() ==> #[trigger] a[i] == b[i],
    ensures
        crate::shown::joined(p, a, sep) == crate::shown::joined(p, b, sep),
    decreases p.len(),
{
    if p.len() > 0 {
        lemma_joined_same(p.drop_last(), a, b, sep);
        assert(a[p.len() - 1] == b[p.len() - 1]);
    }
}

proof fn lemma_joined_push<T>(p: Seq<Part>, texts: Seq<Seq<T>>, sep: Seq<T>, x: Part, t: Seq<T>)
    requires
        texts.len() == p.len(),
    ensures
        crate::shown::joined(p.push(x), texts.push(t), sep) == if p.len() > 0
            && crate::shown::separated(p.last(), x) {
            crate::shown::joined(p, texts, sep) + sep + t
        } else {
            crate::shown::joined(p, texts, sep) + t
        },
{
    assert(p.push(x).drop_last() =~= p);
    assert forall|i: int| 0 <= i < p.len() implies #[trigger] texts.push(t)[i] == texts[i] by {}
    lemma_joined_same(p, texts.push(t), texts, sep);
}

/// A path is written component by component: one more component stands behind the others, with a
/// separator before it, but for what follows a root or a drive, for a root itself, and where
/// what somebody wrote ends in a separator already.
pub proof fn law_paths_are_written_component_by_component<T>(
    p: Seq<Part>,
    texts: Seq<Seq<T>>,
    given: Seq<Part>,
    start: Seq<T>,
    sep: Seq<T>,
    x: Part,
    t: Seq<T>,
)
    requires
        texts.len() == p.len() > 0,
        given.is_prefix_of(p),
    ensures
        ({
            let before = crate::shown::spelled(p, texts, given, start, sep);
            let after = crate::shown::spelled(p.push(x), texts.push(t), given, start, sep);
            let together = p.last() is RootDir || p.last() is Prefix || x is RootDir || (p == given
                && sep.is_suffix_of(start));
            &&& together ==> after == before + t
            &&& !together ==> after == before + sep + t
        }),
{
    let n = given.len() as int;
    let q = p.push(x);
    assert(given =~= q.take(n)) by {
        assert(given =~= p.take(n));
    }
    assert(p.len() == n ==> p =~= given);
    if n == 0 {
        lemma_joined_push(p, texts, sep, x, t);
    } else if p.len() == n {
        let rest = Seq::<Part>::empty();
        assert(q.skip(n) =~= rest.push(x));
        assert(texts.push(t).skip(n) =~= Seq::<Seq<T>>::empty().push(t));
        lemma_joined_push(rest, Seq::<Seq<T>>::empty(), sep, x, t);
        assert(crate::shown::joined(q.skip(n), texts.push(t).skip(n), sep) =~= t);
        assert(q[n - 1] == p.last() && q[n] == x);
    } else {
        assert(q.skip(n) =~= p.skip(n).push(x));
        assert(texts.push(t).skip(n) =~= texts.skip(n).push(t));
        assert(p.skip(n).last() == p.last());
        lemma_joined_push(p.skip(n), texts.skip(n), sep, x, t);
        let tail = crate::shown::joined(p.skip(n), texts.skip(n), sep);
        assert(q[n - 1] == p[n - 1] && q[n] == p[n]);
        assert(start + sep + (tail + sep + t) =~= start + sep + tail + sep + t);
        assert(start + sep + (tail + t) =~= start + sep + tail + t);
        assert(start + (tail + sep + t) =~= start + tail + sep + t);
        assert(start + (tail + t) =~= start + tail + t);
    }
}

/// A path starts with its first component or, where it lies at or below one that somebody
/// wrote, with what they wrote. What they wrote does not matter anywhere else.
pub proof fn law_paths_start_as_they_were_given<T>(
    p: Seq<Part>,
    texts: Seq<Seq<T>>,
    given: Seq<Part>,
    start: Seq<T>,
    sep: Seq<T>,
)
    requires
        texts.len() == p.len(),
    ensures
        given.len() == 0 && p.len() == 0 ==> crate::shown::spelled(
            p,
            texts,
            given,
            start,
            sep,
        ).len() == 0,
        given.len() == 0 && p.len() == 1 ==> crate::shown::spelled(p, texts, given, start, sep)
            == texts[0],
        given.len() > 0 && p == given ==> crate::shown::spelled(p, texts, given, start, sep)
            == start,
        !given.is_prefix_of(p) ==> crate::shown::spelled(p, texts, given, start, sep)
            == crate::shown::spelled(p, texts, Seq::empty(), Seq::empty(), sep),
{
    if p.len() == 1 {
        reveal_with_fuel(crate::shown::joined, 2);
        assert(crate::shown::joined(p, texts, sep) =~= texts[0]);
    }
}

/// A name is written as it is, `.` and `..` are written that way, and a root is written as the
/// separator.
pub proof fn law_components_are_written_as_they_are(
    p: Seq<Part>,
    style: Style,
    spelling: Spelling,
    i: int,
)
    requires
        0 <= i < p.len(),
    ensures
        crate::shown::path_text(p, style) == crate::shown::spelled(
            p,
            crate::shown::part_texts(p, style.sep),
            style.given,
            style.text,
            style.sep,
        ),
        crate::raw::path_raw(p, spelling) == crate::shown::spelled(
            p,
            crate::raw::parts_raw(p, spelling),
            spelling.given,
            spelling.raw,
            spelling.sep,
        ),
        crate::shown::part_texts(p, style.sep).len() == p.len(),
        crate::raw::parts_raw(p, spelling).len() == p.len(),
        ({
            let text = crate::shown::part_texts(p, style.sep)[i];
            let raw = crate::raw::parts_raw(p, spelling)[i];
            &&& p[i] is RootDir ==> text == style.sep && raw == spelling.sep
            &&& p[i] is CurDir ==> text == "."@ && raw == seq![0x2eu8]
            &&& p[i] is ParentDir ==> text == ".."@ && raw == seq![0x2eu8, 0x2eu8]
            &&& p[i] is Normal ==> raw == p[i]->Normal_0 && (vstd::utf8::valid_utf8(
                p[i]->Normal_0,
            ) ==> text == vstd::utf8::decode_utf8(p[i]->Normal_0))
            &&& p[i] is Prefix ==> raw == p[i]->Prefix_0 && (vstd::utf8::valid_utf8(
                p[i]->Prefix_0,
            ) ==> text == vstd::utf8::decode_utf8(p[i]->Prefix_0))
        }),
{
}

/// Everything that a walk meets is an entry of its own kind. A directory that could not be
/// listed is one more entry that could not be read, and what could not be read at all counts
/// for the directory that it is in.
pub proof fn law_everything_met_is_an_entry(t: TrailRec, seen: SightingRec)
    ensures
        seen is Dir && seen->listed ==> t.entries(seen) == seq![
            EntryRec::Dir { path: seen->Dir_path, depth: seen->Dir_depth },
        ],
        seen is Dir && !seen->listed ==> t.entries(seen) == seq![
            EntryRec::Dir { path: seen->Dir_path, depth: seen->Dir_depth },
            EntryRec::Unreadable { dir: seen->Dir_path },
        ],
        seen is File ==> t.entries(seen) == seq![
            EntryRec::File { path: seen->File_path, size: seen->size },
        ],
        seen is Other ==> t.entries(seen) == seq![EntryRec::Other],
        seen is Failed && 0 < seen->Failed_depth <= t.dirs.len() ==> t.entries(seen) == seq![
            EntryRec::Unreadable { dir: t.dirs[seen->Failed_depth - 1] },
        ],
        seen is Failed && !(0 < seen->Failed_depth <= t.dirs.len()) ==> t.entries(seen) == seq![
            EntryRec::Unreadable { dir: t.root },
        ],
        t.after(seen).root == t.root,
        !(seen is Dir) ==> t.after(seen) == t,
        seen is Dir && seen->Dir_depth <= t.dirs.len() ==> t.after(seen).dirs == t.dirs.take(
            seen->Dir_depth as int,
        ).push(seen->Dir_path),
{
    if seen is Dir && seen->Dir_depth == t.dirs.len() {
        assert(t.dirs.take(seen->Dir_depth as int) =~= t.dirs);
    }
}

/// What a name or an extension names: the text that is spelled like the name, or the texts that
/// end with what stands behind the `*`.
pub open spec fn names_it(pattern: Seq<char>, text: Seq<u8>) -> bool {
    if pattern[0] == '*' {
        vstd::utf8::encode_utf8(pattern.skip(1)).is_suffix_of(text)
    } else {
        text == vstd::utf8::encode_utf8(pattern)
    }
}

/// Names and extensions leave out what they name and nothing else: a path that is spelled like
/// a name or ends with an extension, and a path that has such a component.
pub proof fn law_names_and_extensions_leave_out_what_they_name(
    patterns: Seq<Seq<char>>,
    path: Seq<u8>,
    components: Seq<Seq<u8>>,
)
    requires
        forall|i: int|
            0 <= i < patterns.len() ==> crate::glob::name_pattern(#[trigger] patterns[i])
                || crate::glob::extension_pattern(patterns[i]),
    ensures
        crate::glob::excludes(patterns, path, components) <==> {
            ||| exists|i: int| 0 <= i < patterns.len() && names_it(#[trigger] patterns[i], path)
            ||| exists|i: int, k: int|
                0 <= i < patterns.len() && 0 <= k < components.len() && names_it(
                    #[trigger] patterns[i],
                    #[trigger] components[k],
                )
        },
{
    if crate::glob::excludes(patterns, path, components) {
        if crate::glob::some_matches(patterns, path) {
            let i = choose|i: int|
                0 <= i < patterns.len() && crate::glob::pattern_matches(
                    #[trigger] patterns[i],
                    path,
                );
            lemma_simple_match(patterns[i], path);
        } else {
            let k = choose|k: int|
                0 <= k < components.len() && crate::glob::some_matches(
                    patterns,
                    #[trigger] components[k],
                );
            let i = choose|i: int|
                0 <= i < patterns.len() && crate::glob::pattern_matches(
                    #[trigger] patterns[i],
                    components[k],
                );
            lemma_simple_match(patterns[i], components[k]);
        }
    }
    if exists|i: int| 0 <= i < patterns.len() && names_it(#[trigger] patterns[i], path) {
        let i = choose|i: int| 0 <= i < patterns.len() && names_it(#[trigger] patterns[i], path);
        lemma_simple_match(patterns[i], path);
        assert(crate::glob::some_matches(patterns, path));
    }
    if exists|i: int, k: int|
        0 <= i < patterns.len() && 0 <= k < components.len() && names_it(
            #[trigger] patterns[i],
            #[trigger] components[k],
        ) {
        let (i, k) = choose|i: int, k: int|
            0 <= i < patterns.len() && 0 <= k < components.len() && names_it(
                #[trigger] patterns[i],
                #[trigger] components[k],
            );
        lemma_simple_match(patterns[i], components[k]);
        assert(crate::glob::some_matches(patterns, components[k]));
    }
}

proof fn lemma_simple_match(pattern: Seq<char>, text: Seq<u8>)
    requires
        crate::glob::name_pattern(pattern) || crate::glob::extension_pattern(pattern),
    ensures
        crate::glob::pattern_matches(pattern, text) == names_it(pattern, text),
{
    if crate::glob::name_pattern(pattern) {
        assert(!crate::glob::is_special(pattern[0]));
    }
}

/// A name is a pattern without a special character, and an extension is `*.` with a name without
/// a dot or a slash behind it.
pub proof fn law_names_and_extensions_are_told_apart(pattern: Seq<char>, rest: Seq<char>)
    requires
        pattern.len() > 0,
        rest.len() > 0,
    ensures
        crate::glob::name_pattern(pattern) <==> !pattern.contains('?') && !pattern.contains('*')
            && !pattern.contains('[') && !pattern.contains('{') && !pattern.contains('}')
            && !pattern.contains('\\'),
        crate::glob::extension_pattern(seq!['*', '.'] + rest) <==> crate::glob::name_pattern(rest)
            && !rest.contains('.') && !rest.contains('/'),
        pattern.len() < 3 || pattern[0] != '*' || pattern[1] != '.'
            ==> !crate::glob::extension_pattern(pattern),
{
    lemma_name(pattern);
    let whole = seq!['*', '.'] + rest;
    if crate::glob::extension_pattern(whole) {
        assert forall|i: int| 0 <= i < rest.len() implies !crate::glob::is_special(
            #[trigger] rest[i],
        ) && rest[i] != '.' && rest[i] != '/' by {
            assert(whole[i + 2] == rest[i]);
        }
    }
    if crate::glob::name_pattern(rest) && !rest.contains('.') && !rest.contains('/') {
        assert forall|i: int| 2 <= i < whole.len() implies !crate::glob::is_special(
            #[trigger] whole[i],
        ) && whole[i] != '.' && whole[i] != '/' by {
            assert(whole[i] == rest[i - 2]);
            assert(rest.contains(rest[i - 2]));
        }
    }
}

proof fn lemma_name(pattern: Seq<char>)
    requires
        pattern.len() > 0,
    ensures
        crate::glob::name_pattern(pattern) <==> !pattern.contains('?') && !pattern.contains('*')
            && !pattern.contains('[') && !pattern.contains('{') && !pattern.contains('}')
            && !pattern.contains('\\'),
{
    if !crate::glob::name_pattern(pattern) {
        let i = choose|i: int|
            0 <= i < pattern.len() && crate::glob::is_special(#[trigger] pattern[i]);
        assert(pattern.contains(pattern[i]));
    }
}

/// The patterns that are kept are those that are globs, in their order, and those that are
/// reported are the others. Names and extensions are globs.
pub proof fn law_every_pattern_is_kept_or_reported(
    patterns: Seq<Seq<char>>,
    flags: Seq<bool>,
    i: int,
)
    requires
        crate::glob::judged(patterns, flags),
        0 <= i < patterns.len(),
    ensures
        crate::glob::flagged(patterns, flags).len() + crate::glob::flagged(
            patterns,
            crate::glob::opposite(flags),
        ).len() == patterns.len(),
        crate::glob::name_pattern(patterns[i]) || crate::glob::extension_pattern(patterns[i])
            ==> flags[i],
        !patterns[i].contains('\\') ==> flags[i] == crate::glob::glob_is_valid(patterns[i]),
        ({
            let kept = crate::glob::flagged(patterns, flags);
            let at = flags.take(i).filter(|flag: bool| flag).len();
            flags[i] ==> at < kept.len() && kept[at as int] == patterns[i]
        }),
        ({
            let reported = crate::glob::flagged(patterns, crate::glob::opposite(flags));
            let at = flags.take(i).filter(|flag: bool| !flag).len();
            !flags[i] ==> at < reported.len() && reported[at as int] == patterns[i]
        }),
{
    lemma_flagged(patterns, flags, i);
    let opposite = crate::glob::opposite(flags);
    lemma_flagged(patterns, opposite, i);
    lemma_opposite(flags.take(i));
    assert(crate::glob::opposite(flags.take(i)) =~= opposite.take(i));
    lemma_opposite(flags);
    lemma_halves(flags);
    assert(opposite[i] == !flags[i]);
    assert(crate::glob::judged_one(patterns[i], flags[i]));
}

proof fn lemma_flagged(patterns: Seq<Seq<char>>, flags: Seq<bool>, i: int)
    requires
        flags.len() == patterns.len(),
        0 <= i < patterns.len(),
    ensures
        ({
            let kept = crate::glob::flagged(patterns, flags);
            let at = flags.take(i).filter(|flag: bool| flag).len();
            &&& kept.len() == flags.filter(|flag: bool| flag).len()
            &&& flags[i] ==> at < kept.len() && kept[at as int] == patterns[i]
        }),
    decreases patterns.len(),
{
    reveal(Seq::filter);
    let n = patterns.len() - 1;
    lemma_flagged_len(patterns.drop_last(), flags.drop_last());
    if i == n {
        assert(flags.take(i) =~= flags.drop_last());
    } else {
        lemma_flagged(patterns.drop_last(), flags.drop_last(), i);
        assert(flags.drop_last().take(i) =~= flags.take(i));
    }
}

proof fn lemma_flagged_len(patterns: Seq<Seq<char>>, flags: Seq<bool>)
    requires
        flags.len() == patterns.len(),
    ensures
        crate::glob::flagged(patterns, flags).len() == flags.filter(|flag: bool| flag).len(),
    decreases patterns.len(),
{
    reveal(Seq::filter);
    if patterns.len() > 0 {
        lemma_flagged_len(patterns.drop_last(), flags.drop_last());
    }
}

proof fn lemma_opposite(flags: Seq<bool>)
    ensures
        crate::glob::opposite(flags).filter(|flag: bool| flag).len() == flags.filter(
            |flag: bool| !flag,
        ).len(),
    decreases flags.len(),
{
    reveal(Seq::filter);
    if flags.len() > 0 {
        lemma_opposite(flags.drop_last());
        assert(crate::glob::opposite(flags).drop_last() =~= crate::glob::opposite(
            flags.drop_last(),
        ));
    }
}

proof fn lemma_halves(flags: Seq<bool>)
    ensures
        flags.filter(|flag: bool| flag).len() + flags.filter(|flag: bool| !flag).len()
            == flags.len(),
    decreases flags.len(),
{
    reveal(Seq::filter);
    if flags.len() > 0 {
        lemma_halves(flags.drop_last());
    }
}

/// A walk that jumps further down than one level goes on from where it is.
pub proof fn law_a_trail_keeps_what_is_above(t: TrailRec, path: Seq<Part>, depth: int)
    requires
        0 <= depth,
    ensures
        t.entered(path, depth).root == t.root,
        depth <= t.dirs.len() ==> t.entered(path, depth).dirs == t.dirs.take(depth).push(path),
        depth > t.dirs.len() ==> t.entered(path, depth).dirs == t.dirs.push(path),
{
    assert(depth == t.dirs.len() ==> t.dirs.take(depth) =~= t.dirs);
}

/// A set of patterns has them all, or none where they could not be compiled. Names and
/// extensions always can.
pub proof fn law_a_set_has_all_patterns_or_none(set: Seq<Seq<char>>, patterns: Seq<Seq<char>>)
    requires
        crate::glob::is_set_of(set, patterns),
    ensures
        set == patterns || set.len() == 0,
        (forall|i: int|
            0 <= i < patterns.len() ==> crate::glob::name_pattern(#[trigger] patterns[i])
                || crate::glob::extension_pattern(patterns[i])) ==> set == patterns,
{
}

/// Only texts with a backslash are not plain.
pub proof fn law_only_backslashes_are_not_plain(
    pattern: Seq<char>,
    text: Seq<u8>,
    path: Seq<Part>,
    spelling: Spelling,
)
    ensures
        crate::glob::plain_pattern(pattern) <==> forall|i: int|
            0 <= i < pattern.len() ==> #[trigger] pattern[i] != '\\',
        crate::glob::plain_text(text) <==> forall|i: int|
            0 <= i < text.len() ==> #[trigger] text[i] != 0x5c,
        crate::glob::plain_path(path, spelling) <==> {
            &&& !crate::raw::path_raw(path, spelling).contains(0x5c)
            &&& forall|i: int|
                0 <= i < path.len() ==> !(#[trigger] crate::raw::parts_raw(
                    path,
                    spelling,
                )[i]).contains(0x5c)
        },
{
    let raws = crate::raw::parts_raw(path, spelling);
    assert forall|i: int| 0 <= i < path.len() implies #[trigger] raws[i] == crate::raw::part_raw(
        path[i],
        spelling.sep,
    ) by {}
    if crate::glob::plain_path(path, spelling) {
        assert forall|i: int| 0 <= i < path.len() implies !(#[trigger] raws[i]).contains(0x5c) by {
            assert(crate::glob::plain_text(crate::raw::part_raw(path[i], spelling.sep)));
        }
    }
    if forall|i: int| 0 <= i < path.len() ==> !(#[trigger] raws[i]).contains(0x5c) {
        assert forall|i: int| 0 <= i < path.len() implies crate::glob::plain_text(
            crate::raw::part_raw(#[trigger] path[i], spelling.sep),
        ) by {
            assert(!raws[i].contains(0x5c));
        }
    }
}

/// A path is left out by how it is spelled or by how one of its components is.
pub proof fn law_paths_are_left_out_by_their_spelling(
    patterns: Seq<Seq<char>>,
    path: Seq<Part>,
    spelling: Spelling,
)
    ensures
        crate::glob::excludes_path(patterns, path, spelling) <==> {
            ||| crate::glob::some_matches(patterns, crate::raw::path_raw(path, spelling))
            ||| exists|i: int|
                0 <= i < path.len() && crate::glob::some_matches(
                    patterns,
                    #[trigger] crate::raw::parts_raw(path, spelling)[i],
                )
        },
{
}

/// Some pattern matches a text exactly if one of them does, a name or an extension by what it
/// names and any other as a glob.
pub proof fn law_patterns_match_one_by_one(patterns: Seq<Seq<char>>, text: Seq<u8>)
    ensures
        crate::glob::some_matches(patterns, text) <==> exists|i: int|
            0 <= i < patterns.len() && if crate::glob::name_pattern(#[trigger] patterns[i])
                || crate::glob::extension_pattern(patterns[i]) {
                names_it(patterns[i], text)
            } else {
                crate::glob::glob_matches(patterns[i], text)
            },
        crate::glob::simple_hit(patterns, text) <==> exists|i: int|
            0 <= i < patterns.len() && (crate::glob::name_pattern(#[trigger] patterns[i])
                || crate::glob::extension_pattern(patterns[i])) && names_it(patterns[i], text),
{
    assert forall|i: int| 0 <= i < patterns.len() && (crate::glob::name_pattern(
        #[trigger] patterns[i],
    ) || crate::glob::extension_pattern(patterns[i])) implies crate::glob::simply_matches(
        patterns[i],
        text,
    ) == names_it(patterns[i], text) by {
        lemma_simple_match(patterns[i], text);
    }
}

} // verus!
