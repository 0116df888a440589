//! Which files the indexer treats as images.
use vstd::prelude::*;

use crate::paths::{
    current_dir, key_view, path_has_prefix, path_key, path_key_of, path_prefix, root_marker,
};

verus! {

/// The last component of `p`; none when `p` has no components, is only a
/// prefix (such as a drive), a root or `.`, or ends in `..`.
pub open spec fn file_name(p: Seq<char>) -> Option<Seq<char>> {
    let k = path_key(p);
    if k.len() == 0 || (k.len() == 1 && path_prefix(p) is Some) || k.last() == root_marker() || k.last() == current_dir() || k.last() == seq![
        '.',
        '.',
    ] {
        None
    } else {
        Some(k.last())
    }
}

/// The position of the last `.` in `s`, or -1.
pub open spec fn last_dot(s: Seq<char>) -> int
    decreases s.len(),
{
    if s.len() == 0 {
        -1
    } else if s.last() == '.' {
        s.len() - 1
    } else {
        last_dot(s.drop_last())
    }
}

/// The text after the last `.` of the file name, when the file name has a
/// `.` that is not its first character.
pub open spec fn extension(p: Seq<char>) -> Option<Seq<char>> {
    match file_name(p) {
        Some(name) => {
            let d = last_dot(name);
            if d <= 0 {
                None
            } else {
                Some(name.subrange(d + 1, name.len() as int))
            }
        },
        None => None,
    }
}

pub open spec fn to_lower(c: char) -> char {
    if 65 <= (c as u32) <= 90 {
        ((c as u32) + 32) as char
    } else {
        c
    }
}

/// `s` with its ASCII capitals made small. (No other character lowers to a
/// letter of the image extensions, so this decides them as full Unicode
/// lowering does.)
pub open spec fn lowercase(s: Seq<char>) -> Seq<char> {
    s.map_values(|c: char| to_lower(c))
}

/// The extensions of the supported image formats: jpg, jpeg, png, webp, bmp.
pub open spec fn is_image_extension(e: Seq<char>) -> bool {
    let l = lowercase(e);
    ||| l == seq!['j', 'p', 'g']
    ||| l == seq!['j', 'p', 'e', 'g']
    ||| l == seq!['p', 'n', 'g']
    ||| l == seq!['w', 'e', 'b', 'p']
    ||| l == seq!['b', 'm', 'p']
}

/// The file at `p` has a supported image extension, in any case.
pub open spec fn is_image_path(p: Seq<char>) -> bool {
    match extension(p) {
        Some(e) => is_image_extension(e),
        None => false,
    }
}


/// The supported formats, in small letters: jpg, jpeg, png, webp and bmp.
pub open spec fn image_formats() -> Set<Seq<char>> {
    set![
        seq!['j', 'p', 'g'],
        seq!['j', 'p', 'e', 'g'],
        seq!['p', 'n', 'g'],
        seq!['w', 'e', 'b', 'p'],
        seq!['b', 'm', 'p'],
    ]
}

/// An extension is an image extension exactly when, in small letters, it is
/// one of the five supported formats; so every other extension (`tif`,
/// `gif`, `txt`, none at all, ...) is not, and a path is an image path
/// exactly when its extension is one of them.
pub proof fn lemma_image_extensions_are_the_five_formats(e: Seq<char>, p: Seq<char>)
    ensures
        is_image_extension(e) <==> image_formats().contains(lowercase(e)),
        is_image_path(p) <==> (extension(p) is Some && image_formats().contains(
            lowercase(extension(p)->0),
        )),
{
}

/// The extension test ignores case: extensions that lower to the same text
/// are both image extensions or both not.
pub proof fn lemma_extension_case_blind(e1: Seq<char>, e2: Seq<char>)
    requires
        lowercase(e1) == lowercase(e2),
    ensures
        is_image_extension(e1) == is_image_extension(e2),
{
}

fn lower_char(c: char) -> (r: char)
    ensures
        r == to_lower(c),
{
    if 'A' <= c && c <= 'Z' {
        let b = (c as u8) + 32;
        b as char
    } else {
        c
    }
}

/// Whether `name[from..]`, lowered, is `target`.
fn lowered_tail_is(name: &Vec<char>, from: usize, target: &[char]) -> (r: bool)
    requires
        from <= name@.len(),
    ensures
        r == (lowercase(name@.subrange(from as int, name@.len() as int)) == target@),
{
    let ghost tail = name@.subrange(from as int, name@.len() as int);
    if name.len() - from != target.len() {
        assert(lowercase(tail).len() != target@.len());
        return false;
    }
    let n = target.len();
    let mut i: usize = 0;
    while i < n
        invariant
            0 <= i <= n,
            n == target@.len(),
            from + n == name@.len(),
            name@.len() <= usize::MAX,
            tail == name@.subrange(from as int, name@.len() as int),
            forall|j: int| 0 <= j < i ==> to_lower(#[trigger] tail[j]) == target@[j],
        decreases n - i,
    {
        if lower_char(name[from + i]) != target[i] {
            assert(lowercase(tail)[i as int] != target@[i as int]);
            return false;
        }
        i = i + 1;
    }
    assert(lowercase(tail) =~= target@);
    true
}

/// Whether the file at `path` has a supported image extension (jpg, jpeg,
/// png, webp or bmp, in any case).
pub fn is_supported_image(path: &str) -> (r: bool)
    ensures
        r == is_image_path(path@),
{
    let key = path_key_of(path);
    let ghost k = key_view(key@);
    if key.len() == 0 {
        return false;
    }
    if key.len() == 1 && path_has_prefix(path) {
        return false;
    }
    let name = &key[key.len() - 1];
    assert(name@ == k.last());
    let is_root = name.len() == 1 && name[0] == '/';
    let is_here = name.len() == 1 && name[0] == '.';
    let is_parent = name.len() == 2 && name[0] == '.' && name[1] == '.';
    if is_root || is_here || is_parent {
        assert(name@ =~= root_marker() || name@ =~= current_dir() || name@ =~= seq!['.', '.']);
        return false;
    }
    assert(name@ != root_marker()) by {
        if name@ == root_marker() {
            assert(name@[0] == '/');
        }
    }
    assert(name@ != current_dir()) by {
        if name@ == current_dir() {
            assert(name@[0] == '.');
        }
    }
    assert(name@ != seq!['.', '.']) by {
        if name@ == seq!['.', '.'] {
            assert(name@[0] == '.' && name@[1] == '.');
        }
    }
    // The last `.` of the name.
    let mut d: usize = name.len();
    assert(name@.take(d as int) =~= name@);
    while d > 0 && name[d - 1] != '.'
        invariant
            0 <= d <= name@.len(),
            last_dot(name@) == last_dot(name@.take(d as int)),
        decreases d,
    {
        assert(name@.take(d as int).drop_last() =~= name@.take(d - 1));
        d = d - 1;
    }
    if d <= 1 {
        proof {
            if d == 1 {
                assert(name@.take(1).last() == '.');
            } else {
                assert(name@.take(0).len() == 0);
            }
        }
        return false;
    }
    assert(last_dot(name@) == d - 1) by {
        assert(name@.take(d as int).last() == '.');
    }
    let jpg = ['j', 'p', 'g'];
    let jpeg = ['j', 'p', 'e', 'g'];
    let png = ['p', 'n', 'g'];
    let webp = ['w', 'e', 'b', 'p'];
    let bmp = ['b', 'm', 'p'];
    assert(jpg@ =~= seq!['j', 'p', 'g']);
    assert(jpeg@ =~= seq!['j', 'p', 'e', 'g']);
    assert(png@ =~= seq!['p', 'n', 'g']);
    assert(webp@ =~= seq!['w', 'e', 'b', 'p']);
    assert(bmp@ =~= seq!['b', 'm', 'p']);
    lowered_tail_is(name, d, &jpg) || lowered_tail_is(name, d, &jpeg) || lowered_tail_is(
        name,
        d,
        &png,
    ) || lowered_tail_is(name, d, &webp) || lowered_tail_is(name, d, &bmp)
}

} // verus!
