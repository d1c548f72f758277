//! Paths of files as text, with `/` between their parts.
use crate::text::chars_of;
use crate::text::concat;
use crate::text::concat3;
use crate::text::piece;
use vstd::prelude::*;

verus! {

/// A path that starts at the root.
pub open spec fn absolute(path: Seq<char>) -> bool {
    path.len() > 0 && path[0] == '/'
}

/// Whether a path starts at the root.
pub fn is_absolute(path: &str) -> (yes: bool)
    ensures
        yes == absolute(path@),
{
    let chars = chars_of(path);
    chars.len() > 0 && chars[0] == '/'
}

/// A path below another.
pub open spec fn joined(path: Seq<char>, part: Seq<char>) -> Seq<char> {
    if absolute(part) {
        part
    } else if path.len() == 0 || path.last() == '/' {
        path + part
    } else {
        path + "/"@ + part
    }
}

/// A path below another.
pub fn join(path: &str, part: &str) -> (whole: String)
    ensures
        whole@ == joined(path@, part@),
{
    let chars = chars_of(path);
    if is_absolute(part) {
        crate::text::owned(part)
    } else if chars.len() == 0 || chars[chars.len() - 1] == '/' {
        concat(path, part)
    } else {
        concat3(path, "/", part)
    }
}

/// Where the last part of a path starts: after its last `/`.
pub open spec fn name_start(path: Seq<char>) -> nat
    decreases path.len(),
{
    if path.len() == 0 || path.last() == '/' {
        path.len()
    } else {
        name_start(path.drop_last())
    }
}

/// How much of a name stands before its last point. A point at the start does not count.
pub open spec fn stem_length(name: Seq<char>) -> Option<nat>
    decreases name.len(),
{
    if name.len() <= 1 {
        None
    } else if name.last() == '.' {
        Some((name.len() - 1) as nat)
    } else {
        stem_length(name.drop_last())
    }
}

/// A path up to its last part: without the separators, and the parts that are a single point, that
/// follow it.
pub open spec fn up_to_last(path: Seq<char>) -> Seq<char>
    decreases path.len(),
{
    if path.len() > 0 && (path.last() == '/' || (path.last() == '.' && path.len() > 1
        && path[path.len() - 2] == '/')) {
        up_to_last(path.drop_last())
    } else {
        path
    }
}

/// Where the stem of the last part of a path ends. The root, `.` and `..` have none.
pub open spec fn stem_end(path: Seq<char>) -> Option<nat> {
    let base = up_to_last(path);
    let start = name_start(base);
    let name = base.skip(start as int);
    if name.len() == 0 || name == "."@ || name == ".."@ {
        None
    } else {
        match stem_length(name) {
            Some(length) => Some(start + length),
            None => Some(base.len()),
        }
    }
}

/// How long the extension of a path is.
pub open spec fn extension_length(path: Seq<char>) -> nat {
    let length = up_to_last(path).len();
    match stem_end(path) {
        Some(end) if end < length => (length - end - 1) as nat,
        _ => 0,
    }
}

/// A path with something else behind its stem; the path itself where it has no stem.
pub open spec fn with_suffix(path: Seq<char>, extension: Seq<char>) -> Seq<char> {
    match stem_end(path) {
        Some(end) => if extension.len() == 0 {
            up_to_last(path).take(end as int)
        } else {
            up_to_last(path).take(end as int) + "."@ + extension
        },
        None => path,
    }
}

/// A path with another extension, or with none where that is empty. As many characters as its
/// extension has are taken off first; where `..` is left, as of `..b`, it stays.
pub open spec fn with_extension(path: Seq<char>, extension: Seq<char>) -> Seq<char> {
    with_suffix(path.take(path.len() - extension_length(path)), extension)
}

proof fn lemma_stem(name: Seq<char>, n: int)
    requires
        1 <= n < name.len(),
        name[n] == '.',
        forall|i: int| n < i < name.len() ==> #[trigger] name[i] != '.',
    ensures
        stem_length(name) == Some(n as nat),
    decreases name.len(),
{
    if n < name.len() - 1 {
        assert(name[name.len() - 1] != '.');
        lemma_stem(name.drop_last(), n);
    }
}

proof fn lemma_no_stem(name: Seq<char>)
    requires
        forall|i: int| 1 <= i < name.len() ==> #[trigger] name[i] != '.',
    ensures
        stem_length(name) is None,
    decreases name.len(),
{
    if name.len() > 1 {
        assert(name[name.len() - 1] != '.');
        lemma_no_stem(name.drop_last());
    }
}

proof fn lemma_name_start(path: Seq<char>, n: int)
    requires
        0 <= n <= path.len(),
        n > 0 ==> path[n - 1] == '/',
        forall|i: int| n <= i < path.len() ==> #[trigger] path[i] != '/',
    ensures
        name_start(path) == n,
    decreases path.len(),
{
    if n < path.len() {
        assert(path[path.len() - 1] != '/');
        lemma_name_start(path.drop_last(), n);
    }
}

/// The last part of a path.
struct Last {
    /// The path up to it.
    base: Vec<char>,
    /// Where its stem ends.
    stem: Option<usize>,
}

fn last_part(all: &Vec<char>) -> (last: Last)
    ensures
        last.base@ == up_to_last(all@),
        last.base@.len() <= all@.len(),
        match last.stem {
            Some(end) => end <= last.base@.len() && stem_end(all@) == Some(end as nat),
            None => stem_end(all@) is None,
        },
{
    let mut length: usize = all.len();
    assert(all@.take(length as int) =~= all@);
    while length > 0 && (all[length - 1] == '/' || (length > 1 && all[length - 1] == '.'
        && all[length - 2] == '/'))
        invariant
            length <= all@.len(),
            up_to_last(all@) == up_to_last(all@.take(length as int)),
        decreases length,
    {
        assert(all@.take(length as int).drop_last() =~= all@.take(length - 1));
        length = length - 1;
    }
    let text = piece(all, 0, length);
    assert(text@ =~= all@.take(length as int));
    let chars = chars_of(text.as_str());
    let mut start: usize = chars.len();
    while start > 0 && chars[start - 1] != '/'
        invariant
            start <= chars@.len(),
            forall|i: int| start <= i < chars@.len() ==> #[trigger] chars@[i] != '/',
        decreases start,
    {
        start = start - 1;
    }
    proof {
        lemma_name_start(chars@, start as int);
    }
    let ghost name = chars@.skip(start as int);
    let count: usize = chars.len() - start;
    proof {
        reveal_strlit(".");
        reveal_strlit("..");
        if name == "."@ {
            assert(name[0] == '.');
        }
        if name == ".."@ {
            assert(name[0] == '.' && name[1] == '.');
        }
        if count == 1 && chars@[start as int] == '.' {
            assert(name =~= "."@);
        }
        if count == 2 && chars@[start as int] == '.' && chars@[start + 1] == '.' {
            assert(name =~= ".."@);
        }
    }
    if count == 0 || (count == 1 && chars[start] == '.') || (count == 2 && chars[start] == '.'
        && chars[start + 1] == '.') {
        return Last { base: chars, stem: None };
    }
    let mut dot: usize = chars.len();
    while dot > start + 1 && chars[dot - 1] != '.'
        invariant
            start < dot <= chars@.len(),
            forall|i: int| dot <= i < chars@.len() ==> #[trigger] chars@[i] != '.',
        decreases dot,
    {
        dot = dot - 1;
    }
    let end: usize = if dot > start + 1 {
        dot - 1
    } else {
        chars.len()
    };
    proof {
        if dot > start + 1 {
            assert forall|i: int| end - start < i < name.len() implies #[trigger] name[i] != '.' by {
                assert(name[i] == chars@[start + i]);
            }
            assert(name[end - start] == chars@[end as int]);
            lemma_stem(name, end - start);
        } else {
            assert forall|i: int| 1 <= i < name.len() implies #[trigger] name[i] != '.' by {
                assert(name[i] == chars@[start + i]);
            }
            lemma_no_stem(name);
        }
    }
    Last { base: chars, stem: Some(end) }
}

/// A path with another extension.
pub fn replace_extension(path: &str, extension: &str) -> (changed: String)
    ensures
        changed@ == with_extension(path@, extension@),
{
    let chars = chars_of(path);
    let last = last_part(&chars);
    let length: usize = match last.stem {
        Some(end) => if end < last.base.len() {
            last.base.len() - end - 1
        } else {
            0
        },
        None => 0,
    };
    let short = piece(&chars, 0, chars.len() - length);
    assert(short@ =~= path@.take(path@.len() - extension_length(path@)));
    let rest = chars_of(short.as_str());
    let Last { base, stem } = last_part(&rest);
    match stem {
        Some(end) => {
            let before = piece(&base, 0, end);
            assert(before@ =~= base@.take(end as int));
            if chars_of(extension).len() == 0 {
                before
            } else {
                concat3(before.as_str(), ".", extension)
            }
        },
        None => short,
    }
}

proof fn lemma_name_behind_slash(front: Seq<char>, name: Seq<char>)
    requires
        front.len() == 0 || front.last() == '/',
        !name.contains('/'),
    ensures
        name_start(front + name) == front.len(),
    decreases name.len(),
{
    let path = front + name;
    if name.len() == 0 {
        assert(path =~= front);
    } else {
        assert(path.last() == name.last());
        assert(name.contains(name[name.len() - 1]));
        let rest = name.drop_last();
        assert forall|i: int| 0 <= i < rest.len() implies rest[i] != '/' by {
            assert(name.contains(name[i]));
        }
        assert(path.drop_last() =~= front + rest);
        lemma_name_behind_slash(front, rest);
    }
}

proof fn lemma_stem_length(stem: Seq<char>, extension: Seq<char>)
    requires
        stem.len() > 0,
        !extension.contains('.'),
    ensures
        stem_length(stem + seq!['.'] + extension) == Some(stem.len()),
    decreases extension.len(),
{
    let name = stem + seq!['.'] + extension;
    if extension.len() == 0 {
        assert(name.last() == '.');
    } else {
        assert(name.last() == extension.last());
        assert(extension.contains(extension[extension.len() - 1]));
        let rest = extension.drop_last();
        assert forall|i: int| 0 <= i < rest.len() implies rest[i] != '.' by {
            assert(extension.contains(extension[i]));
        }
        assert(name.drop_last() =~= stem + seq!['.'] + rest);
        lemma_stem_length(stem, rest);
    }
}

proof fn lemma_name_without_point(name: Seq<char>)
    requires
        !name.contains('.'),
    ensures
        stem_length(name) is None,
    decreases name.len(),
{
    if name.len() > 1 {
        assert(name.contains(name[name.len() - 1]));
        let rest = name.drop_last();
        assert forall|i: int| 0 <= i < rest.len() implies rest[i] != '.' by {
            assert(name.contains(name[i]));
        }
        lemma_name_without_point(rest);
    }
}

proof fn lemma_last_part(front: Seq<char>, stem: Seq<char>, tail: Seq<char>)
    requires
        front.len() == 0 || front.last() == '/',
        stem.len() > 0,
        !stem.contains('/'),
        !stem.contains('.'),
        !tail.contains('/'),
        tail.len() == 0 || exists|extension: Seq<char>|
            tail == #[trigger] (seq!['.'] + extension) && !extension.contains('.'),
    ensures
        up_to_last(front + stem + tail) == front + stem + tail,
        stem_end(front + stem + tail) == Some(front.len() + stem.len()),
{
    reveal_strlit(".");
    reveal_strlit("..");
    let path = front + stem + tail;
    let name = stem + tail;
    assert(path =~= front + name);
    assert(stem.contains(stem[stem.len() - 1]));
    assert(stem.contains(stem[0]));
    if tail.len() > 0 {
        assert(path.last() == tail[tail.len() - 1]);
        assert(tail.contains(tail[tail.len() - 1]));
        let extension = choose|extension: Seq<char>|
            tail == #[trigger] (seq!['.'] + extension) && !extension.contains('.');
        if tail.len() == 1 {
            assert(path[path.len() - 2] == stem[stem.len() - 1]);
        } else {
            assert(path.last() == extension[extension.len() - 1]);
            assert(extension.contains(extension[extension.len() - 1]));
        }
        assert(name =~= stem + seq!['.'] + extension);
        lemma_stem_length(stem, extension);
    } else {
        assert(path.last() == stem[stem.len() - 1]);
        assert(name =~= stem);
        lemma_name_without_point(name);
    }
    assert(up_to_last(path) == path);
    assert forall|i: int| 0 <= i < name.len() implies name[i] != '/' by {
        if i < stem.len() {
            assert(stem.contains(stem[i]));
        } else {
            assert(tail.contains(tail[i - stem.len()]));
        }
    }
    lemma_name_behind_slash(front, name);
    assert(path.skip(front.len() as int) =~= name);
    assert(name[0] == stem[0]);
    assert("."@[0] == '.' && ".."@[0] == '.');
}

/// A path gets another extension in place of the one that it has, or behind its name where it has
/// none.
pub proof fn extensions_are_replaced(
    front: Seq<char>,
    stem: Seq<char>,
    old_extension: Seq<char>,
    extension: Seq<char>,
)
    requires
        front.len() == 0 || front.last() == '/',
        stem.len() > 0,
        !stem.contains('/'),
        !stem.contains('.'),
        !old_extension.contains('/'),
        !old_extension.contains('.'),
        extension.len() > 0,
    ensures
        with_extension(front + stem + (seq!['.'] + old_extension), extension) == front + stem
            + seq!['.'] + extension,
        with_extension(front + stem, extension) == front + stem + seq!['.'] + extension,
{
    reveal_strlit(".");
    assert("."@ =~= seq!['.']);
    let none = Seq::<char>::empty();
    let base = front + stem;
    // A path with an extension.
    let tail = seq!['.'] + old_extension;
    let path = base + tail;
    assert forall|i: int| 0 <= i < tail.len() implies tail[i] != '/' by {
        if i > 0 {
            assert(old_extension.contains(old_extension[i - 1]));
        }
    }
    lemma_last_part(front, stem, tail);
    assert(extension_length(path) == old_extension.len());
    let point = seq!['.'] + none;
    let cut = path.take(path.len() - old_extension.len());
    assert(cut =~= base + point);
    assert forall|i: int| 0 <= i < point.len() implies point[i] != '/' by {}
    assert(!none.contains('.'));
    lemma_last_part(front, stem, point);
    assert(cut.take(base.len() as int) =~= base);
    assert(with_suffix(cut, extension) == base + "."@ + extension);
    // A path without one.
    assert(base + none =~= base);
    lemma_last_part(front, stem, none);
    assert(extension_length(base) == 0);
    assert(base.take(base.len() as int) =~= base);
    assert(with_suffix(base, extension) == base + "."@ + extension);
}

/// A path is continued behind a slash, which is not doubled; an absolute part stands for itself.
pub proof fn parts_are_put_behind_a_slash(path: Seq<char>, part: Seq<char>)
    ensures
        part.len() > 0 && part[0] == '/' ==> joined(path, part) == part,
        (part.len() == 0 || part[0] != '/') && path.len() > 0 && path.last() != '/' ==> joined(
            path,
            part,
        ) == path + seq!['/'] + part,
        (part.len() == 0 || part[0] != '/') && path.len() > 0 && path.last() == '/' ==> joined(
            path,
            part,
        ) == path + part,
        (part.len() == 0 || part[0] != '/') && path.len() == 0 ==> joined(path, part) == part,
        absolute(path) <==> path.len() > 0 && path[0] == '/',
{
    reveal_strlit("/");
    assert("/"@ =~= seq!['/']);
    assert(Seq::<char>::empty() + part =~= part);
    if path.len() == 0 {
        assert(path + part =~= part);
    }
}

} // verus!
