//! Object paths: how a path splits into components, a file stem and an extension.

use crate::text::same_text;
use vstd::prelude::*;

verus! {

/// The pieces between the slashes of a path, empty ones counted. There is always at least one.
pub open spec fn pieces(path: Seq<char>) -> Seq<Seq<char>>
    decreases path.len(),
{
    if path.len() == 0 {
        seq![seq![]]
    } else {
        let before = pieces(path.drop_last());
        if path.last() == '/' {
            before.push(seq![])
        } else {
            before.drop_last().push(before.last().push(path.last()))
        }
    }
}

/// Whether the piece at `index` is a component of its path: it is not empty, and it is not a `.`
/// unless the path begins with it.
pub open spec fn is_component(piece: Seq<char>, index: int) -> bool {
    piece.len() > 0 && (piece != seq!['.'] || index == 0)
}

/// The components among the first `n` pieces.
pub open spec fn components_among(pieces: Seq<Seq<char>>, n: nat) -> Seq<Seq<char>>
    decreases n,
{
    if n == 0 {
        seq![]
    } else {
        let before = components_among(pieces, (n - 1) as nat);
        if is_component(pieces[n - 1], n - 1) {
            before.push(pieces[n - 1])
        } else {
            before
        }
    }
}

/// The components of a path: the root `/` of an absolute path, then its pieces.
pub open spec fn components(path: Seq<char>) -> Seq<Seq<char>> {
    let named = components_among(pieces(path), pieces(path).len());
    if path.len() > 0 && path[0] == '/' {
        seq![seq!['/']] + named
    } else {
        named
    }
}

/// The last component, if it names a file.
pub open spec fn file_name(path: Seq<char>) -> Option<Seq<char>> {
    let all = components(path);
    if all.len() == 0 || all.last() == seq!['/'] || all.last() == seq!['.'] || all.last() == seq![
        '.',
        '.',
    ] {
        None
    } else {
        Some(all.last())
    }
}

/// Where the last dot of a file name stands.
pub open spec fn last_dot(name: Seq<char>) -> Option<int>
    decreases name.len(),
{
    if name.len() == 0 {
        None
    } else if name.last() == '.' {
        Some(name.len() - 1)
    } else {
        last_dot(name.drop_last())
    }
}

/// The stem and the extension of a file name that has an extension. A dot in front of the whole
/// name starts no extension.
pub open spec fn stem_and_extension(name: Seq<char>) -> Option<(Seq<char>, Seq<char>)> {
    match last_dot(name) {
        Some(dot) => if dot > 0 {
            Some((name.take(dot), name.skip(dot + 1)))
        } else {
            None
        },
        None => None,
    }
}

/// A path with a relative path put behind it.
pub open spec fn joined(path: Seq<char>, tail: Seq<char>) -> Seq<char> {
    if path.len() == 0 || path.last() == '/' {
        path + tail
    } else {
        path.push('/') + tail
    }
}

/// The texts of a list.
pub open spec fn texts(list: Seq<String>) -> Seq<Seq<char>> {
    Seq::new(list.len(), |i: int| list[i]@)
}

fn split_pieces(path: &str) -> (split: Vec<String>)
    ensures
        texts(split@) == pieces(path@),
        split@.len() > 0,
{
    let len: usize = path.unicode_len();
    let mut split: Vec<String> = Vec::new();
    let mut start: usize = 0;
    let mut i: usize = 0;
    assert(path@.take(0) =~= Seq::<char>::empty());
    assert(texts(split@).push(path@.subrange(0, 0)) =~= pieces(path@.take(0)));
    while i < len
        invariant
            len == path@.len(),
            start <= i <= len,
            texts(split@).push(path@.subrange(start as int, i as int)) == pieces(
                path@.take(i as int),
            ),
        decreases len - i,
    {
        let ghost before = pieces(path@.take(i as int));
        assert(path@.take(i + 1).drop_last() =~= path@.take(i as int));
        assert(before.drop_last() =~= texts(split@));
        assert(before.last() == path@.subrange(start as int, i as int));
        if path.get_char(i) == '/' {
            let ghost old_texts = texts(split@);
            split.push(path.substring_char(start, i).to_owned());
            start = i + 1;
            assert(texts(split@) =~= before);
            assert(path@.subrange(start as int, i + 1) =~= Seq::<char>::empty());
        } else {
            assert(path@.subrange(start as int, i + 1) =~= path@.subrange(
                start as int,
                i as int,
            ).push(path@[i as int]));
        }
        i = i + 1;
    }
    assert(path@.take(len as int) =~= path@);
    let ghost all = texts(split@).push(path@.subrange(start as int, len as int));
    split.push(path.substring_char(start, len).to_owned());
    assert(texts(split@) =~= all);
    split
}

/// Splits a path into its components.
pub fn path_components(path: &str) -> (parts: Vec<String>)
    ensures
        texts(parts@) == components(path@),
{
    proof {
        reveal_strlit(".");
        reveal_strlit("/");
    }
    let split = split_pieces(path);
    let mut parts: Vec<String> = Vec::new();
    let absolute = path.unicode_len() > 0 && path.get_char(0) == '/';
    let ghost root = if absolute {
        seq![seq!['/']]
    } else {
        Seq::<Seq<char>>::empty()
    };
    if absolute {
        parts.push("/".to_owned());
    }
    assert("/"@ =~= seq!['/']);
    assert("."@ =~= seq!['.']);
    assert(texts(parts@) =~= root + components_among(texts(split@), 0));
    let mut i: usize = 0;
    while i < split.len()
        invariant
            i <= split.len(),
            "."@ == seq!['.'],
            texts(parts@) == root + components_among(texts(split@), i as nat),
        decreases split.len() - i,
    {
        let piece = split[i].as_str();
        let ghost before = texts(parts@);
        assert(texts(split@)[i as int] == piece@);
        if piece.unicode_len() > 0 && (!same_text(piece, ".") || i == 0) {
            parts.push(piece.to_owned());
            assert(texts(parts@) =~= before.push(piece@));
            assert(texts(parts@) =~= root + components_among(texts(split@), (i + 1) as nat));
        }
        i = i + 1;
    }
    assert(texts(parts@) =~= components(path@));
    parts
}

/// The file name of a path.
pub fn path_file_name(path: &str) -> (name: Option<String>)
    ensures
        match name {
            Some(name) => file_name(path@) == Some(name@),
            None => file_name(path@) is None,
        },
{
    proof {
        reveal_strlit(".");
        reveal_strlit("..");
        reveal_strlit("/");
    }
    assert("/"@ =~= seq!['/']);
    assert("."@ =~= seq!['.']);
    assert(".."@ =~= seq!['.', '.']);
    let mut parts = path_components(path);
    assert(parts@.len() == texts(parts@).len());
    if parts.len() == 0 {
        return None;
    }
    let last: usize = parts.len() - 1;
    assert(texts(parts@)[last as int] == parts@[last as int]@);
    let name = parts[last].clone();
    if same_text(name.as_str(), "/") || same_text(name.as_str(), ".") || same_text(
        name.as_str(),
        "..",
    ) {
        None
    } else {
        Some(name)
    }
}

/// Splits a file name at its last dot.
pub fn split_extension(name: &str) -> (split: Option<(String, String)>)
    ensures
        match split {
            Some((stem, extension)) => stem_and_extension(name@) == Some((stem@, extension@)),
            None => stem_and_extension(name@) is None,
        },
{
    let len: usize = name.unicode_len();
    let mut i: usize = len;
    assert(name@.take(len as int) =~= name@);
    while i > 0
        invariant
            i <= len,
            len == name@.len(),
            last_dot(name@) == last_dot(name@.take(i as int)),
        decreases i,
    {
        assert(name@.take(i as int).drop_last() =~= name@.take(i - 1));
        i = i - 1;
        if name.get_char(i) == '.' {
            if i == 0 {
                return None;
            }
            let stem = name.substring_char(0, i).to_owned();
            let extension = name.substring_char(i + 1, len).to_owned();
            assert(stem@ =~= name@.take(i as int));
            assert(extension@ =~= name@.skip(i + 1));
            return Some((stem, extension));
        }
    }
    None
}

/// Puts a relative path behind a path.
pub fn path_join(path: &str, tail: &str) -> (whole: String)
    ensures
        whole@ == joined(path@, tail@),
{
    proof {
        reveal_strlit("/");
    }
    let len: usize = path.unicode_len();
    let mut whole = path.to_owned();
    if len > 0 && path.get_char(len - 1) != '/' {
        whole.append("/");
        assert(whole@ =~= path@.push('/'));
    }
    whole.append(tail);
    whole
}

/// A tail without slashes is the one more piece that it adds behind a slash.
proof fn lemma_pieces_of_joined(path: Seq<char>, tail: Seq<char>)
    requires
        forall|i: int| 0 <= i < tail.len() ==> tail[i] != '/',
    ensures
        pieces(path.push('/') + tail) == pieces(path).push(tail),
    decreases tail.len(),
{
    if tail.len() == 0 {
        assert(path.push('/') + tail =~= path.push('/'));
        assert(path.push('/').drop_last() =~= path);
        assert(tail =~= seq![]);
    } else {
        let shorter = tail.drop_last();
        lemma_pieces_of_joined(path, shorter);
        let whole = path.push('/') + tail;
        assert(whole.drop_last() =~= path.push('/') + shorter);
        assert(whole.last() == tail.last());
        assert(shorter.push(tail.last()) =~= tail);
        assert(pieces(path).push(shorter).drop_last() =~= pieces(path));
    }
}

proof fn lemma_pieces_nonempty(path: Seq<char>)
    ensures
        pieces(path).len() > 0,
    decreases path.len(),
{
    if path.len() > 0 {
        lemma_pieces_nonempty(path.drop_last());
    }
}

proof fn lemma_components_among_prefix(a: Seq<Seq<char>>, b: Seq<Seq<char>>, n: nat)
    requires
        n <= a.len(),
        n <= b.len(),
        forall|i: int| 0 <= i < n ==> a[i] == b[i],
    ensures
        components_among(a, n) == components_among(b, n),
    decreases n,
{
    if n > 0 {
        lemma_components_among_prefix(a, b, (n - 1) as nat);
    }
}

/// Putting one file name behind a path adds one component, which is the new path's file name.
pub proof fn joined_adds_a_component(path: Seq<char>, name: Seq<char>)
    requires
        path.len() > 0,
        path.last() != '/',
        name.len() > 0,
        name != seq!['.'],
        forall|i: int| 0 <= i < name.len() ==> name[i] != '/',
    ensures
        components(joined(path, name)) == components(path).push(name),
        name != seq!['.', '.'] ==> file_name(joined(path, name)) == Some(name),
{
    let whole = path.push('/') + name;
    lemma_pieces_of_joined(path, name);
    lemma_pieces_nonempty(path);
    let n = pieces(path).len();
    assert(pieces(whole)[n as int] == name);
    lemma_components_among_prefix(pieces(whole), pieces(path), n);
    assert(components_among(pieces(whole), n + 1) == components_among(pieces(path), n).push(name));
    assert(whole[0] == path[0]);
    assert(components(whole) =~= components(path).push(name));
    assert(name[0] != '/');
    assert(name != seq!['/']) by {
        if name == seq!['/'] {
            assert(name[0] == '/');
        }
    }
}

/// A name with a single dot inside splits at that dot.
pub proof fn extension_splits_off(stem: Seq<char>, extension: Seq<char>)
    requires
        stem.len() > 0,
        forall|i: int| 0 <= i < extension.len() ==> extension[i] != '.',
    ensures
        stem_and_extension(stem.push('.') + extension) == Some((stem, extension)),
{
    lemma_last_dot(stem, extension);
    let name = stem.push('.') + extension;
    assert(name.take(stem.len() as int) =~= stem);
    assert(name.skip(stem.len() as int + 1) =~= extension);
}

proof fn lemma_last_dot(stem: Seq<char>, extension: Seq<char>)
    requires
        forall|i: int| 0 <= i < extension.len() ==> extension[i] != '.',
    ensures
        last_dot(stem.push('.') + extension) == Some(stem.len() as int),
    decreases extension.len(),
{
    let name = stem.push('.') + extension;
    if extension.len() == 0 {
        assert(name =~= stem.push('.'));
    } else {
        lemma_last_dot(stem, extension.drop_last());
        assert(name.drop_last() =~= stem.push('.') + extension.drop_last());
    }
}

/// A text without slashes is its own single piece.
pub proof fn plain_name_is_one_component(name: Seq<char>)
    requires
        name.len() > 0,
        forall|i: int| 0 <= i < name.len() ==> name[i] != '/',
    ensures
        components(name) == seq![name],
{
    lemma_pieces_of_plain(name);
    assert(components_among(pieces(name), 0) =~= seq![]);
    assert(components_among(pieces(name), 1) =~= seq![name]);
}

proof fn lemma_pieces_of_plain(name: Seq<char>)
    requires
        forall|i: int| 0 <= i < name.len() ==> name[i] != '/',
    ensures
        pieces(name) == seq![name],
    decreases name.len(),
{
    if name.len() == 0 {
        assert(name =~= seq![]);
    } else {
        lemma_pieces_of_plain(name.drop_last());
        assert(name.drop_last().push(name.last()) =~= name);
        assert(seq![name.drop_last()].drop_last().push(name) =~= seq![name]);
    }
}

/// Pieces put together again, with a slash between each two.
pub open spec fn glued(pieces: Seq<Seq<char>>) -> Seq<char>
    decreases pieces.len(),
{
    if pieces.len() == 0 {
        seq![]
    } else if pieces.len() == 1 {
        pieces[0]
    } else {
        glued(pieces.drop_last()).push('/') + pieces.last()
    }
}

/// The pieces of a path are what stands between its slashes: put together they are the path, and none
/// of them has a slash.
pub proof fn pieces_make_up_the_path(path: Seq<char>)
    ensures
        pieces(path).len() > 0,
        glued(pieces(path)) == path,
        forall|i: int, j: int|
            0 <= i < pieces(path).len() && 0 <= j < pieces(path)[i].len() ==> #[trigger] pieces(
                path,
            )[i][j] != '/',
    decreases path.len(),
{
    let all = pieces(path);
    if path.len() == 0 {
        assert(glued(all) =~= path);
    } else {
        let before = pieces(path.drop_last());
        pieces_make_up_the_path(path.drop_last());
        if path.last() == '/' {
            assert(all.drop_last() =~= before);
            assert(glued(all) =~= path);
            assert forall|i: int, j: int|
                0 <= i < all.len() && 0 <= j < all[i].len() implies #[trigger] all[i][j] != '/' by {
                if i < before.len() {
                    assert(all[i] == before[i]);
                    assert(before[i][j] != '/');
                }
            }
        } else {
            let grown = before.last().push(path.last());
            assert(all.drop_last() =~= before.drop_last());
            if all.len() == 1 {
                assert(glued(all) == grown);
                assert(glued(before) == before[0]);
                assert(glued(all) =~= path);
            } else {
                assert(glued(all) =~= glued(before).push(path.last()));
                assert(glued(all) =~= path);
            }
            assert forall|i: int, j: int|
                0 <= i < all.len() && 0 <= j < all[i].len() implies #[trigger] all[i][j] != '/' by {
                if i < before.len() - 1 {
                    assert(all[i] == before[i]);
                    assert(before[i][j] != '/');
                } else if j < before.last().len() {
                    assert(before[before.len() - 1][j] != '/');
                }
            }
        }
    }
}

/// The components of a path are its pieces in order, without the empty ones and without any single dot
/// behind the front. A path from the root has the root as its first component.
pub proof fn components_are_the_named_pieces(all: Seq<Seq<char>>, n: nat, path: Seq<char>)
    requires
        n < all.len(),
    ensures
        components_among(all, 0).len() == 0,
        all[n as int].len() == 0 ==> components_among(all, n + 1) == components_among(all, n),
        n > 0 && all[n as int] == seq!['.'] ==> components_among(all, n + 1) == components_among(
            all,
            n,
        ),
        all[n as int].len() > 0 && (n == 0 || all[n as int] != seq!['.']) ==> components_among(
            all,
            n + 1,
        ) == components_among(all, n).push(all[n as int]),
        path.len() > 0 && path[0] == '/' ==> components(path).len() > 0 && components(path)[0]
            == seq!['/'] && components(path).skip(1) == components_among(
            pieces(path),
            pieces(path).len(),
        ),
        path.len() > 0 && path[0] != '/' ==> components(path) == components_among(
            pieces(path),
            pieces(path).len(),
        ),
{
    if path.len() > 0 && path[0] == '/' {
        assert(components(path).skip(1) =~= components_among(pieces(path), pieces(path).len()));
    }
}

/// A path ends with a file name exactly if it has components, and its last one is neither the root nor a
/// step to the same or the parent directory. It is then that component.
pub proof fn file_names_are_the_last_component(path: Seq<char>)
    ensures
        components(path).len() == 0 ==> file_name(path) is None,
        components(path).len() > 0 ==> ({
            let last = components(path).last();
            &&& file_name(path) is Some ==> file_name(path)->0 == last
            &&& last == seq!['/'] ==> file_name(path) is None
            &&& last == seq!['.'] ==> file_name(path) is None
            &&& last == seq!['.', '.'] ==> file_name(path) is None
            &&& last != seq!['/'] && last != seq!['.'] && last != seq!['.', '.'] ==> file_name(path)
                is Some
        }),
{
}

/// The last dot of a name has no dot behind it, and is found exactly if there is one.
pub proof fn no_dot_follows_the_last(name: Seq<char>)
    ensures
        last_dot(name) is None ==> forall|i: int| 0 <= i < name.len() ==> #[trigger] name[i] != '.',
        last_dot(name) matches Some(dot) ==> 0 <= dot < name.len() && name[dot] == '.' && forall|
            i: int,
        |
            dot < i < name.len() ==> #[trigger] name[i] != '.',
    decreases name.len(),
{
    if name.len() > 0 && name.last() != '.' {
        no_dot_follows_the_last(name.drop_last());
        assert forall|i: int|
            0 <= i < name.len() - 1 implies #[trigger] name[i] == name.drop_last()[i] by {}
    }
}

/// A name has an extension exactly if it has a dot behind its first character. It splits at the last
/// dot, and loses nothing but that dot.
pub proof fn names_split_at_the_last_dot(name: Seq<char>)
    ensures
        stem_and_extension(name) is None <==> forall|i: int|
            0 < i < name.len() ==> #[trigger] name[i] != '.',
        stem_and_extension(name) matches Some((stem, extension)) ==> stem.len() > 0 && stem.push('.')
            + extension == name && !extension.contains('.'),
{
    no_dot_follows_the_last(name);
    if let Some((stem, extension)) = stem_and_extension(name) {
        let dot = last_dot(name)->0;
        assert(stem.push('.') + extension =~= name);
        assert forall|i: int| 0 <= i < extension.len() implies #[trigger] extension[i] != '.' by {
            assert(extension[i] == name[dot + 1 + i]);
        }
    }
}

/// A joined path is the one path and then the other, with a slash between them unless the first ends
/// with one or is empty.
pub proof fn joined_paths_have_one_slash_between(path: Seq<char>, tail: Seq<char>)
    ensures
        joined(seq![], tail) == tail,
        joined(path.push('/'), tail) == path + seq!['/'] + tail,
        path.len() > 0 && path.last() != '/' ==> joined(path, tail) == path + seq!['/'] + tail,
{
    assert(joined(seq![], tail) =~= tail);
    assert(path.push('/') =~= path + seq!['/']);
}

/// Texts are taken one by one.
pub proof fn texts_are_taken_one_by_one(list: Seq<String>, i: int)
    ensures
        texts(list).len() == list.len(),
        0 <= i < list.len() ==> texts(list)[i] == list[i]@,
{
}

} // verus!
