//! The path model of the library, after the way Windows reads paths.
//!
//! A path may begin with a prefix: a drive (an ASCII letter and `:`, whose
//! letter is compared without regard to case), a UNC share
//! (`\\server\share`), a device (`\\.\name`), or a verbatim prefix
//! (`\\?\name`, `\\?\C:`, `\\?\UNC\server\share`). Each prefix is one key
//! component of its own. In what follows the prefix, components are
//! separated by `/` or `\` (in a verbatim path by `\` only); empty
//! components do not count, nor do `.` components outside verbatim paths,
//! except a `.` that begins a relative path. A path whose rest begins with a
//! separator is rooted. Two paths are the same when their keys (prefix, root
//! marker, then components) are equal, and a path lies under a folder when
//! the folder's key is a prefix of the path's key.
use vstd::prelude::*;

verus! {

/// A path as the library compares it: its prefix, the root marker `/` when
/// the path is rooted (or `.` when it begins with the component `.`), then
/// its components.
pub type PathKey = Seq<Seq<char>>;

/// `c` is `/` or `\`.
pub open spec fn is_separator(c: char) -> bool {
    c == '/' || c == '\\'
}

/// `c` separates components: `\` always, `/` except in a verbatim path.
pub open spec fn separates(c: char, verbatim: bool) -> bool {
    c == '\\' || (!verbatim && c == '/')
}

/// Appends the component `cur` to `done` unless it is empty, or `.` outside
/// a verbatim path.
pub open spec fn flush(done: Seq<Seq<char>>, cur: Seq<char>, verbatim: bool) -> Seq<Seq<char>> {
    if cur.len() == 0 || (!verbatim && cur == seq!['.']) {
        done
    } else {
        done.push(cur)
    }
}

/// Reading `s` from left to right: the components completed so far and the
/// component being read.
pub open spec fn scan(s: Seq<char>, verbatim: bool) -> (Seq<Seq<char>>, Seq<char>)
    decreases s.len(),
{
    if s.len() == 0 {
        (seq![], seq![])
    } else {
        let prev = scan(s.drop_last(), verbatim);
        if separates(s.last(), verbatim) {
            (flush(prev.0, prev.1, verbatim), seq![])
        } else {
            (prev.0, prev.1.push(s.last()))
        }
    }
}

/// The components of `s`, in order.
pub open spec fn components(s: Seq<char>, verbatim: bool) -> Seq<Seq<char>> {
    flush(scan(s, verbatim).0, scan(s, verbatim).1, verbatim)
}

pub open spec fn root_marker() -> Seq<char> {
    seq!['/']
}

pub open spec fn current_dir() -> Seq<char> {
    seq!['.']
}

/// `t` begins with the component `.`.
pub open spec fn starts_at_current_dir(t: Seq<char>) -> bool {
    &&& t.len() > 0
    &&& t[0] == '.'
    &&& (t.len() == 1 || is_separator(t[1]))
}

/// The key of what follows a path's prefix: the root marker when it begins
/// with a separator, else `.` when it begins with the component `.` and the
/// prefix (if any) is a drive, then its components.
pub open spec fn rest_key(t: Seq<char>, verbatim: bool, cur_dir_counts: bool) -> PathKey {
    if t.len() > 0 && is_separator(t[0]) {
        seq![root_marker()] + components(t.subrange(1, t.len() as int), verbatim)
    } else if cur_dir_counts && starts_at_current_dir(t) {
        seq![current_dir()] + components(t, verbatim)
    } else {
        components(t, verbatim)
    }
}

/// `c` is an ASCII letter.
pub open spec fn is_ascii_letter(c: char) -> bool {
    (65 <= (c as u32) <= 90) || (97 <= (c as u32) <= 122)
}

/// `c` with a small ASCII letter made capital.
pub open spec fn to_upper(c: char) -> char {
    if 97 <= (c as u32) <= 122 {
        ((c as u32) - 32) as char
    } else {
        c
    }
}

/// `s` begins with a drive: an ASCII letter, then `:`.
pub open spec fn has_drive(s: Seq<char>) -> bool {
    s.len() >= 2 && is_ascii_letter(s[0]) && s[1] == ':'
}

/// The drive of `s` as a key component: its letter in capitals, then `:`.
pub open spec fn drive_component(s: Seq<char>) -> Seq<char> {
    seq![to_upper(s[0]), ':']
}

/// The length of the text before the first separator of `t`.
pub open spec fn sep_index(t: Seq<char>, verbatim: bool) -> int
    decreases t.len(),
{
    if t.len() == 0 || separates(t[0], verbatim) {
        0
    } else {
        1 + sep_index(t.subrange(1, t.len() as int), verbatim)
    }
}

/// The text of `t` before its first separator.
pub open spec fn part(t: Seq<char>, verbatim: bool) -> Seq<char> {
    t.subrange(0, sep_index(t, verbatim))
}

/// The text of `t` after its first separator (none when it has none).
pub open spec fn after_part(t: Seq<char>, verbatim: bool) -> Seq<char> {
    let i = sep_index(t, verbatim);
    if i < t.len() {
        t.subrange(i + 1, t.len() as int)
    } else {
        seq![]
    }
}

/// `s[i]` is `c`, where a `/` counts as `\`.
pub open spec fn prefix_char(s: Seq<char>, i: int, c: char) -> bool {
    0 <= i < s.len() && (s[i] == c || (c == '\\' && s[i] == '/'))
}

/// A prefix as a key component: a tag and one text.
pub open spec fn tagged(tag: char, x: Seq<char>) -> Seq<char> {
    seq![tag, '\\'] + x
}

/// A prefix as a key component: a tag and two texts (neither holds `\`).
pub open spec fn tagged2(tag: char, x: Seq<char>, y: Seq<char>) -> Seq<char> {
    seq![tag, '\\'] + x + seq!['\\'] + y
}

/// The length of a share prefix: its server and, when there is one, its share.
pub open spec fn share_len(server: Seq<char>, share: Seq<char>) -> int {
    server.len() + if share.len() > 0 {
        1 + share.len() as int
    } else {
        0int
    }
}

/// The prefix of `s`, when it has one: its key component, its length, whether
/// the path is verbatim, and whether the prefix is a drive.
pub open spec fn path_prefix(s: Seq<char>) -> Option<(Seq<char>, int, bool, bool)> {
    if prefix_char(s, 0, '\\') && prefix_char(s, 1, '\\') {
        if prefix_char(s, 2, '?') && prefix_char(s, 3, '\\') && s[0] == '\\' && s[1] == '\\'
            && s[3] == '\\' {
            let t = s.subrange(4, s.len() as int);
            if prefix_char(s, 4, 'U') && prefix_char(s, 5, 'N') && prefix_char(s, 6, 'C')
                && prefix_char(s, 7, '\\') {
                // \\?\UNC\server\share
                let u = s.subrange(8, s.len() as int);
                let server = part(u, true);
                let share = part(after_part(u, true), true);
                Some((tagged2('V', server, share), 8 + share_len(server, share), true, false))
            } else if t.len() >= 2 && is_ascii_letter(t[0]) && t[1] == ':' && (t.len() == 2
                || t[2] == '\\') {
                // \\?\C:
                Some((seq!['D', '\\', to_upper(t[0])], 6, true, false))
            } else {
                // \\?\name
                let x = part(t, true);
                Some((tagged('v', x), 4 + x.len() as int, true, false))
            }
        } else if prefix_char(s, 2, '.') && prefix_char(s, 3, '\\') {
            // \\.\name
            let x = part(s.subrange(4, s.len() as int), false);
            Some((tagged('N', x), 4 + x.len() as int, false, false))
        } else {
            // \\server\share
            let t = s.subrange(2, s.len() as int);
            let server = part(t, false);
            let share = part(after_part(t, false), false);
            if server.len() > 0 && share.len() > 0 {
                Some((tagged2('U', server, share), 2 + share_len(server, share), false, false))
            } else {
                None
            }
        }
    } else if has_drive(s) {
        Some((drive_component(s), 2, false, true))
    } else {
        None
    }
}

/// The key of a path: its prefix, if it has one, then the key of the rest.
pub open spec fn path_key(s: Seq<char>) -> PathKey {
    match path_prefix(s) {
        Some((c, n, verbatim, drive)) => seq![c] + rest_key(
            s.subrange(n, s.len() as int),
            verbatim,
            drive,
        ),
        None => rest_key(s, false, true),
    }
}

/// `base` is a prefix of `k`.
pub open spec fn key_prefix(base: PathKey, k: PathKey) -> bool {
    &&& base.len() <= k.len()
    &&& forall|i: int| 0 <= i < base.len() ==> #[trigger] base[i] == k[i]
}

/// A key is a prefix of another exactly when it is the other's first
/// components, taken in full: all of them, at every position.
pub proof fn lemma_key_prefix_is_initial_segment(base: PathKey, k: PathKey)
    ensures
        key_prefix(base, k) <==> (base.len() <= k.len() && k.subrange(0, base.len() as int) == base),
        key_prefix(base, k) ==> forall|i: int| 0 <= i < base.len() ==> #[trigger] k[i] == base[i],
        (base.len() <= k.len() && exists|i: int| 0 <= i < base.len() && #[trigger] k[i] != base[i])
            ==> !key_prefix(base, k),
{
    if base.len() <= k.len() && k.subrange(0, base.len() as int) == base {
        assert forall|i: int| 0 <= i < base.len() implies #[trigger] base[i] == k[i] by {
            assert(k.subrange(0, base.len() as int)[i] == k[i]);
        }
    }
    if key_prefix(base, k) {
        assert(k.subrange(0, base.len() as int) =~= base);
    }
}

/// A path lies under a folder exactly when the path's key begins with the
/// whole of the folder's key.
pub proof fn lemma_starts_with_whole_folder(p: Seq<char>, folder: Seq<char>)
    ensures
        path_starts_with(p, folder) <==> (path_key(folder).len() <= path_key(p).len() && path_key(
            p,
        ).subrange(0, path_key(folder).len() as int) == path_key(folder)),
{
    lemma_key_prefix_is_initial_segment(path_key(folder), path_key(p));
}

/// The path `p` lies under (or is) the folder `base`.
pub open spec fn path_starts_with(p: Seq<char>, base: Seq<char>) -> bool {
    key_prefix(path_key(base), path_key(p))
}

/// The two strings name the same path.
pub open spec fn same_path(a: Seq<char>, b: Seq<char>) -> bool {
    path_key(a) == path_key(b)
}

/// The view of an executable key.
pub open spec fn key_view(k: Seq<Vec<char>>) -> PathKey {
    k.map_values(|c: Vec<char>| c@)
}

/// `sep_index` is the position of the first separator of `t`, or its length.
proof fn lemma_sep_index(t: Seq<char>, verbatim: bool, i: int)
    requires
        0 <= i <= t.len(),
        forall|j: int| 0 <= j < i ==> !separates(#[trigger] t[j], verbatim),
        i == t.len() || separates(t[i], verbatim),
    ensures
        sep_index(t, verbatim) == i,
    decreases i,
{
    if i > 0 {
        let u = t.subrange(1, t.len() as int);
        assert forall|j: int| 0 <= j < i - 1 implies !separates(#[trigger] u[j], verbatim) by {
            assert(u[j] == t[j + 1]);
        }
        if i < t.len() {
            assert(u[i - 1] == t[i]);
        }
        assert(!separates(t[0], verbatim));
        lemma_sep_index(u, verbatim, i - 1);
    }
}

/// The characters of `s`.
pub fn chars_of(s: &str) -> (v: Vec<char>)
    ensures
        v@ == s@,
{
    let mut v: Vec<char> = Vec::new();
    for c in it: s.chars()
        invariant
            v@ == it.seq().take(it.index() as int),
    {
        v.push(c);
    }
    v
}

/// Whether `c` is `/` or `\`.
pub fn separator(c: char) -> (r: bool)
    ensures
        r == is_separator(c),
{
    c == '/' || c == '\\'
}

/// Whether `c` separates components.
fn separates_exec(c: char, verbatim: bool) -> (r: bool)
    ensures
        r == separates(c, verbatim),
{
    c == '\\' || (!verbatim && c == '/')
}

fn flush_component(done: &mut Vec<Vec<char>>, cur: Vec<char>, verbatim: bool)
    ensures
        key_view(final(done)@) == flush(key_view(old(done)@), cur@, verbatim),
{
    let ghost cv = cur@;
    let skip = cur.len() == 0 || (!verbatim && cur.len() == 1 && cur[0] == '.');
    if skip {
        assert(cur@.len() == 0 || cur@ =~= seq!['.']);
    } else {
        assert(verbatim || cv != seq!['.']) by {
            if cv == seq!['.'] {
                assert(cv[0] == '.');
            }
        }
        done.push(cur);
        assert(key_view(done@) =~= key_view(old(done)@).push(cv));
    }
}

/// `c` with a small ASCII letter made capital.
fn upper_char(c: char) -> (r: char)
    ensures
        r == to_upper(c),
{
    let v = c as u32;
    if 97 <= v && v <= 122 {
        let b = (v as u8) - 32;
        b as char
    } else {
        c
    }
}

/// Whether `c` is an ASCII letter.
fn ascii_letter(c: char) -> (r: bool)
    ensures
        r == is_ascii_letter(c),
{
    let v = c as u32;
    (65 <= v && v <= 90) || (97 <= v && v <= 122)
}

/// Whether `chars[i]` is `c`, where a `/` counts as `\`.
fn prefix_char_at(chars: &Vec<char>, i: usize, c: char) -> (r: bool)
    ensures
        r == prefix_char(chars@, i as int, c),
{
    i < chars.len() && (chars[i] == c || (c == '\\' && chars[i] == '/'))
}

/// The end of the text of `chars` from `from` up to its next separator.
fn part_end(chars: &Vec<char>, from: usize, verbatim: bool) -> (r: usize)
    requires
        from <= chars@.len(),
    ensures
        r == from + sep_index(chars@.subrange(from as int, chars@.len() as int), verbatim),
        from <= r <= chars@.len(),
{
    let n = chars.len();
    let mut i = from;
    while i < n && !separates_exec(chars[i], verbatim)
        invariant
            from <= i <= n,
            n == chars@.len(),
            forall|j: int| from <= j < i ==> !separates(#[trigger] chars@[j], verbatim),
        decreases n - i,
    {
        i = i + 1;
    }
    proof {
        let t = chars@.subrange(from as int, n as int);
        assert forall|j: int| 0 <= j < i - from implies !separates(#[trigger] t[j], verbatim) by {
            assert(t[j] == chars@[from + j]);
        }
        if i < n {
            assert(t[i - from] == chars@[i as int]);
        }
        lemma_sep_index(t, verbatim, i - from);
    }
    i
}

/// The characters of `chars` from `a` up to `b`.
fn copy_range(chars: &Vec<char>, a: usize, b: usize) -> (r: Vec<char>)
    requires
        a <= b <= chars@.len(),
    ensures
        r@ == chars@.subrange(a as int, b as int),
{
    let mut r: Vec<char> = Vec::new();
    let mut i = a;
    while i < b
        invariant
            a <= i <= b,
            b <= chars@.len(),
            r@ == chars@.subrange(a as int, i as int),
        decreases b - i,
    {
        r.push(chars[i]);
        assert(r@ =~= chars@.subrange(a as int, i + 1));
        i = i + 1;
    }
    r
}

/// `tag`, `\`, then `chars[a..b]`.
fn tagged_of(tag: char, chars: &Vec<char>, a: usize, b: usize) -> (r: Vec<char>)
    requires
        a <= b <= chars@.len(),
    ensures
        r@ == tagged(tag, chars@.subrange(a as int, b as int)),
{
    let mut r: Vec<char> = Vec::new();
    r.push(tag);
    r.push('\\');
    let mut x = copy_range(chars, a, b);
    let ghost r0 = r@;
    let ghost x0 = x@;
    r.append(&mut x);
    assert(r0 =~= seq![tag, '\\']);
    r
}

/// `tag`, `\`, `chars[a..b]`, `\`, then `chars[c..d]`.
fn tagged2_of(tag: char, chars: &Vec<char>, a: usize, b: usize, c: usize, d: usize) -> (r: Vec<
    char,
>)
    requires
        a <= b <= chars@.len(),
        c <= d <= chars@.len(),
    ensures
        r@ == tagged2(tag, chars@.subrange(a as int, b as int), chars@.subrange(c as int, d as int)),
{
    let mut r = tagged_of(tag, chars, a, b);
    r.push('\\');
    let mut y = copy_range(chars, c, d);
    let ghost r0 = r@;
    r.append(&mut y);
    r
}

/// The text from `e1 + 1` up to the next separator, when `e1` is before the
/// end; else the empty text at the end.
fn next_part(chars: &Vec<char>, e1: usize, verbatim: bool) -> (r: (usize, usize))
    requires
        e1 <= chars@.len(),
    ensures
        r.0 <= r.1 <= chars@.len(),
        e1 < chars@.len() ==> r.0 == e1 + 1,
        e1 >= chars@.len() ==> r.0 == r.1,
        ({
            let rest = if e1 < chars@.len() {
                chars@.subrange(e1 + 1, chars@.len() as int)
            } else {
                seq![]
            };
            chars@.subrange(r.0 as int, r.1 as int) == part(rest, verbatim)
        }),
{
    let n = chars.len();
    if e1 < n {
        let a = e1 + 1;
        let e = part_end(chars, a, verbatim);
        assert(chars@.subrange(a as int, e as int) =~= part(
            chars@.subrange(a as int, n as int),
            verbatim,
        ));
        (a, e)
    } else {
        assert(chars@.subrange(n as int, n as int) =~= part(seq![], verbatim));
        (n, n)
    }
}

/// The prefix of the path `chars`, as `path_prefix` gives it.
fn prefix_of(chars: &Vec<char>) -> (r: Option<(Vec<char>, usize, bool, bool)>)
    ensures
        match r {
            Some((c, n, v, d)) => path_prefix(chars@) == Some((c@, n as int, v, d)) && n
                <= chars@.len(),
            None => path_prefix(chars@) is None,
        },
{
    let ghost s = chars@;
    let len = chars.len();
    if prefix_char_at(chars, 0, '\\') && prefix_char_at(chars, 1, '\\') {
        if prefix_char_at(chars, 2, '?') && prefix_char_at(chars, 3, '\\') && chars[0] == '\\'
            && chars[1] == '\\' && chars[3] == '\\' {
            if prefix_char_at(chars, 4, 'U') && prefix_char_at(chars, 5, 'N') && prefix_char_at(
                chars,
                6,
                'C',
            ) && prefix_char_at(chars, 7, '\\') {
                let e1 = part_end(chars, 8, true);
                let (a2, e2) = next_part(chars, e1, true);
                let comp = tagged2_of('V', chars, 8, e1, a2, e2);
                let n = if e2 > a2 {
                    e2
                } else {
                    e1
                };
                proof {
                    let u = s.subrange(8, s.len() as int);
                    assert(s.subrange(8, e1 as int) =~= part(u, true));
                    if e1 < len {
                        assert(after_part(u, true) =~= s.subrange(e1 + 1, s.len() as int));
                    } else {
                        assert(after_part(u, true) =~= Seq::<char>::empty());
                    }
                }
                return Some((comp, n, true, false));
            } else if len >= 6 && ascii_letter(chars[4]) && chars[5] == ':' && (len == 6
                || chars[6] == '\\') {
                let mut comp: Vec<char> = Vec::new();
                comp.push('D');
                comp.push('\\');
                comp.push(upper_char(chars[4]));
                assert(comp@ =~= seq!['D', '\\', to_upper(s[4])]);
                return Some((comp, 6, true, false));
            } else {
                let e = part_end(chars, 4, true);
                let comp = tagged_of('v', chars, 4, e);
                assert(s.subrange(4, e as int) =~= part(s.subrange(4, s.len() as int), true));
                return Some((comp, e, true, false));
            }
        } else if prefix_char_at(chars, 2, '.') && prefix_char_at(chars, 3, '\\') {
            let e = part_end(chars, 4, false);
            let comp = tagged_of('N', chars, 4, e);
            assert(s.subrange(4, e as int) =~= part(s.subrange(4, s.len() as int), false));
            return Some((comp, e, false, false));
        } else {
            let e1 = part_end(chars, 2, false);
            let (a2, e2) = next_part(chars, e1, false);
            proof {
                let t = s.subrange(2, s.len() as int);
                assert(s.subrange(2, e1 as int) =~= part(t, false));
                if e1 < len {
                    assert(after_part(t, false) =~= s.subrange(e1 + 1, s.len() as int));
                } else {
                    assert(after_part(t, false) =~= Seq::<char>::empty());
                }
            }
            if e1 > 2 && e2 > a2 {
                let comp = tagged2_of('U', chars, 2, e1, a2, e2);
                return Some((comp, e2, false, false));
            } else {
                return None;
            }
        }
    } else if len >= 2 && ascii_letter(chars[0]) && chars[1] == ':' {
        let mut comp: Vec<char> = Vec::new();
        comp.push(upper_char(chars[0]));
        comp.push(':');
        assert(comp@ =~= drive_component(s));
        return Some((comp, 2, false, true));
    } else {
        return None;
    }
}

/// Whether the path `path` has a prefix.
pub fn path_has_prefix(path: &str) -> (r: bool)
    ensures
        r == (path_prefix(path@) is Some),
{
    let chars = chars_of(path);
    prefix_of(&chars).is_some()
}

/// The key of `path`.
pub fn path_key_of(path: &str) -> (key: Vec<Vec<char>>)
    ensures
        key_view(key@) == path_key(path@),
{
    let chars = chars_of(path);
    let n = chars.len();
    match prefix_of(&chars) {
        Some((c, m, verbatim, drive)) => {
            let ghost cv = c@;
            let mut key: Vec<Vec<char>> = Vec::new();
            key.push(c);
            let mut tail = rest_key_of(&chars, m, verbatim, drive);
            let ghost k0 = key_view(key@);
            let ghost t0 = key_view(tail@);
            key.append(&mut tail);
            assert(key_view(key@) =~= k0 + t0);
            assert(k0 =~= seq![cv]);
            key
        },
        None => {
            assert(chars@.subrange(0, n as int) =~= chars@);
            rest_key_of(&chars, 0, false, true)
        },
    }
}

/// The key of the part of the path `chars` from `start` on, as `rest_key`
/// gives it.
fn rest_key_of(chars: &Vec<char>, start: usize, verbatim: bool, cur_dir_counts: bool) -> (key: Vec<
    Vec<char>,
>)
    requires
        start <= chars@.len(),
    ensures
        key_view(key@) == rest_key(
            chars@.subrange(start as int, chars@.len() as int),
            verbatim,
            cur_dir_counts,
        ),
{
    let n = chars.len();
    let ghost t = chars@.subrange(start as int, n as int);
    let mut done: Vec<Vec<char>> = Vec::new();
    let rooted = start < n && separator(chars[start]);
    let here = !rooted && cur_dir_counts && start < n && chars[start] == '.' && (start + 1 == n
        || separator(chars[start + 1]));
    let b = if rooted {
        start + 1
    } else {
        start
    };
    if rooted || here {
        let mut marker: Vec<char> = Vec::new();
        marker.push(if rooted {
            '/'
        } else {
            '.'
        });
        done.push(marker);
    }
    let ghost head = key_view(done@);
    assert(head =~= (if rooted {
        seq![root_marker()]
    } else if here {
        seq![current_dir()]
    } else {
        Seq::<Seq<char>>::empty()
    }));
    let ghost body = chars@.subrange(b as int, n as int);
    assert(body.take(0) =~= Seq::<char>::empty());
    let mut cur: Vec<char> = Vec::new();
    let mut i: usize = b;
    while i < n
        invariant
            b <= i <= n,
            n == chars@.len(),
            body == chars@.subrange(b as int, n as int),
            key_view(done@) == head + scan(body.take(i - b), verbatim).0,
            cur@ == scan(body.take(i - b), verbatim).1,
        decreases n - i,
    {
        let c = chars[i];
        assert(body.take(i - b + 1).drop_last() =~= body.take(i - b));
        assert(body.take(i - b + 1).last() == c);
        let ghost before = scan(body.take(i - b), verbatim);
        if separates_exec(c, verbatim) {
            flush_component(&mut done, cur, verbatim);
            cur = Vec::new();
            assert(key_view(done@) =~= head + flush(before.0, before.1, verbatim)) by {
                if before.1.len() == 0 || (!verbatim && before.1 == seq!['.']) {
                } else {
                    assert(head + before.0.push(before.1) =~= (head + before.0).push(before.1));
                }
            }
        } else {
            cur.push(c);
        }
        i = i + 1;
    }
    assert(body.take(n - b) =~= body);
    let ghost last = scan(body, verbatim);
    flush_component(&mut done, cur, verbatim);
    assert(key_view(done@) =~= head + components(body, verbatim)) by {
        if last.1.len() == 0 || (!verbatim && last.1 == seq!['.']) {
        } else {
            assert(head + last.0.push(last.1) =~= (head + last.0).push(last.1));
        }
    }
    proof {
        if rooted {
            assert(t[0] == chars@[start as int]);
            assert(t.subrange(1, t.len() as int) =~= body);
        } else {
            assert(body =~= t);
            if start < n {
                assert(t[0] == chars@[start as int]);
                if start + 1 < n {
                    assert(t[1] == chars@[start + 1]);
                }
            }
        }
    }
    done
}

/// Whether two character sequences are equal.
pub fn chars_equal(a: &Vec<char>, b: &Vec<char>) -> (r: bool)
    ensures
        r == (a@ == b@),
{
    if a.len() != b.len() {
        return false;
    }
    let n = a.len();
    let mut i: usize = 0;
    while i < n
        invariant
            0 <= i <= n,
            n == a@.len(),
            n == b@.len(),
            forall|j: int| 0 <= j < i ==> a@[j] == b@[j],
        decreases n - i,
    {
        if a[i] != b[i] {
            return false;
        }
        i = i + 1;
    }
    assert(a@ =~= b@);
    true
}

/// Whether `base` is a prefix of `k`.
pub fn key_has_prefix(k: &Vec<Vec<char>>, base: &Vec<Vec<char>>) -> (r: bool)
    ensures
        r == key_prefix(key_view(base@), key_view(k@)),
{
    if base.len() > k.len() {
        return false;
    }
    let n = base.len();
    let mut i: usize = 0;
    while i < n
        invariant
            0 <= i <= n,
            n == base@.len(),
            n <= k@.len(),
            forall|j: int| 0 <= j < i ==> #[trigger] key_view(base@)[j] == key_view(k@)[j],
        decreases n - i,
    {
        if !chars_equal(&base[i], &k[i]) {
            assert(key_view(base@)[i as int] != key_view(k@)[i as int]);
            return false;
        }
        i = i + 1;
    }
    true
}

/// Whether two keys are equal.
pub fn keys_equal(a: &Vec<Vec<char>>, b: &Vec<Vec<char>>) -> (r: bool)
    ensures
        r == (key_view(a@) == key_view(b@)),
{
    if a.len() != b.len() {
        assert(key_view(a@).len() != key_view(b@).len());
        return false;
    }
    let r = key_has_prefix(a, b);
    if r {
        assert(key_view(a@) =~= key_view(b@));
    }
    r
}

} // verus!
