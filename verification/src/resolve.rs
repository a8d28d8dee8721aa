use vstd::prelude::*;

use crate::chars::str_eq;

verus! {

/// Index of the last occurrence of a character, or -1 when it never occurs.
pub open spec fn last_index_of(s: Seq<char>, c: char) -> int
    decreases s.len(),
{
    if s.len() == 0 {
        -1
    } else if s.last() == c {
        s.len() - 1
    } else {
        last_index_of(s.drop_last(), c)
    }
}

proof fn last_index_of_bounds(s: Seq<char>, c: char)
    ensures
        -1 <= last_index_of(s, c) < s.len(),
    decreases s.len(),
{
    if s.len() > 0 && s.last() != c {
        last_index_of_bounds(s.drop_last(), c);
    }
}

proof fn last_index_of_found(s: Seq<char>, c: char, k: int)
    requires
        0 <= k < s.len(),
        s[k] == c,
        forall|j: int| k < j < s.len() ==> s[j] != c,
    ensures
        last_index_of(s, c) == k,
    decreases s.len(),
{
    if k == s.len() - 1 {
    } else {
        assert(s.last() != c);
        let s0 = s.drop_last();
        assert(forall|j: int| 0 <= j < s0.len() ==> #[trigger] s0[j] == s[j]);
        last_index_of_found(s0, c, k);
    }
}

proof fn last_index_of_none(s: Seq<char>, c: char)
    requires
        forall|j: int| 0 <= j < s.len() ==> s[j] != c,
    ensures
        last_index_of(s, c) == -1,
    decreases s.len(),
{
    if s.len() > 0 {
        let s0 = s.drop_last();
        assert(forall|j: int| 0 <= j < s0.len() ==> #[trigger] s0[j] == s[j]);
        last_index_of_none(s0, c);
    }
}

/// Find the last occurrence of a character in a string slice.
fn last_index_of_char(s: &str, c: char) -> (r: Option<usize>)
    ensures
        match r {
            Some(k) => k < s@.len() && last_index_of(s@, c) == k,
            None => last_index_of(s@, c) == -1,
        },
{
    let n = s.unicode_len();
    let mut found: Option<usize> = None;
    let mut i: usize = 0;
    while i < n
        invariant
            i <= n,
            n == s@.len(),
            match found {
                Some(k) => k < i && s@[k as int] == c && forall|j: int| k < j < i ==> s@[j] != c,
                None => forall|j: int| 0 <= j < i ==> s@[j] != c,
            },
        decreases n - i,
    {
        if s.get_char(i) == c {
            found = Some(i);
        }
        i = i + 1;
    }
    proof {
        match found {
            Some(k) => last_index_of_found(s@, c, k as int),
            None => last_index_of_none(s@, c),
        }
    }
    found
}

/// The final path component: what stands after the last slash.
pub open spec fn file_name_of(path: Seq<char>) -> Seq<char> {
    path.skip(last_index_of(path, '/') + 1)
}

/// The extension of the final path component: what stands after its last
/// dot, provided that dot neither leads the component nor is missing.
pub open spec fn ext_of(path: Seq<char>) -> Option<Seq<char>> {
    let f = file_name_of(path);
    let d = last_index_of(f, '.');
    if d <= 0 {
        None
    } else {
        Some(f.skip(d + 1))
    }
}

/// Extract the extension of a path, as `ext_of` defines it.
pub fn extension_of(path: &str) -> (r: Option<&str>)
    ensures
        match r {
            Some(e) => ext_of(path@) == Some(e@),
            None => ext_of(path@) == None::<Seq<char>>,
        },
{
    let n = path.unicode_len();
    let fstart: usize = match last_index_of_char(path, '/') {
        Some(k) => k + 1,
        None => 0,
    };
    let f = path.substring_char(fstart, n);
    proof {
        assert(f@ =~= file_name_of(path@));
    }
    let flen = f.unicode_len();
    match last_index_of_char(f, '.') {
        Some(d) => {
            if d > 0 {
                Some(f.substring_char(d + 1, flen))
            } else {
                None
            }
        },
        None => None,
    }
}

/// What the filesystem says of an input path: a regular file, some other
/// node, or nothing at all (a connection string, say).
#[derive(Debug, PartialEq, Eq, Clone, Copy)]
pub enum PathMeta {
    RegularFile,
    OtherNode,
    NoMetadata,
}

/// How an input path is to be read: mount it as a zip and open it through
/// the driver; try it as a CSV count document first and fall back to the
/// driver; or hand it straight to the driver.
#[derive(Debug, PartialEq, Eq, Clone, Copy)]
pub enum SourceKind {
    ZipMount,
    CsvThenDriver,
    DirectOpen,
}

pub open spec fn zip_ext() -> Seq<char> {
    seq!['z', 'i', 'p']
}

/// The resolution policy. A regular file routes by its extension: `zip` to
/// the zip mount, any other present extension through the CSV attempt, no
/// extension straight to the driver. Anything that is not a regular file —
/// a directory, a special node, a path without metadata — goes straight to
/// the driver.
pub open spec fn spec_classify(path: Seq<char>, meta: PathMeta) -> SourceKind {
    match meta {
        PathMeta::RegularFile => match ext_of(path) {
            Some(e) => if e == zip_ext() {
                SourceKind::ZipMount
            } else {
                SourceKind::CsvThenDriver
            },
            None => SourceKind::DirectOpen,
        },
        PathMeta::OtherNode => SourceKind::DirectOpen,
        PathMeta::NoMetadata => SourceKind::DirectOpen,
    }
}

/// Decide how a path is to be read, given what the filesystem said of it.
pub fn classify_source(path: &str, meta: &PathMeta) -> (k: SourceKind)
    ensures
        k == spec_classify(path@, *meta),
{
    match meta {
        PathMeta::RegularFile => match extension_of(path) {
            Some(e) => {
                proof {
                    reveal_strlit("zip");
                    assert("zip"@ =~= zip_ext());
                }
                if str_eq(e, "zip") {
                    SourceKind::ZipMount
                } else {
                    SourceKind::CsvThenDriver
                }
            },
            None => SourceKind::DirectOpen,
        },
        PathMeta::OtherNode => SourceKind::DirectOpen,
        PathMeta::NoMetadata => SourceKind::DirectOpen,
    }
}

/// The virtual path under which the zip layer exposes a zip file: the
/// `/vsizip/` prefix put ahead of the path, with a single joining slash.
pub open spec fn vsizip_of(path: Seq<char>) -> Seq<char> {
    if path.len() > 0 && path[0] == '/' {
        seq!['/', 'v', 's', 'i', 'z', 'i', 'p'] + path
    } else {
        seq!['/', 'v', 's', 'i', 'z', 'i', 'p', '/'] + path
    }
}

/// Build the zip-layer path for a zip file.
pub fn zip_mount_path(path: &str) -> (r: String)
    ensures
        r@ == vsizip_of(path@),
{
    let n = path.unicode_len();
    let mut s: String = if n > 0 && path.get_char(0) == '/' {
        let p = String::from_str("/vsizip");
        proof {
            reveal_strlit("/vsizip");
            assert(p@ =~= seq!['/', 'v', 's', 'i', 'z', 'i', 'p']);
        }
        p
    } else {
        let p = String::from_str("/vsizip/");
        proof {
            reveal_strlit("/vsizip/");
            assert(p@ =~= seq!['/', 'v', 's', 'i', 'z', 'i', 'p', '/']);
        }
        p
    };
    s.append(path);
    s
}

/// A path that names a regular file and ends in `.zip` is never routed
/// through the CSV attempt: it goes to the zip mount, or straight to the
/// driver in the corner where the dot leads the file name and so counts as
/// no extension.
pub proof fn lemma_zip_never_csv(path: Seq<char>)
    requires
        path.len() >= 4,
        path.skip(path.len() - 4) == seq!['.', 'z', 'i', 'p'],
    ensures
        spec_classify(path, PathMeta::RegularFile) != SourceKind::CsvThenDriver,
        file_name_of(path).len() > 4 ==> spec_classify(path, PathMeta::RegularFile)
            == SourceKind::ZipMount,
{
    let n = path.len() as int;
    let tail = path.skip(n - 4);
    assert(forall|j: int| 0 <= j < 4 ==> #[trigger] tail[j] == path[n - 4 + j]);
    assert(path[n - 4] == '.');
    assert(path[n - 3] == 'z');
    assert(path[n - 2] == 'i');
    assert(path[n - 1] == 'p');
    let sl = last_index_of(path, '/');
    assert(-1 <= sl < n - 4) by {
        last_index_of_bounds(path, '/');
        if sl >= n - 4 {
            last_slash_props(path);
        }
    }
    let f = file_name_of(path);
    assert(forall|j: int| 0 <= j < f.len() ==> #[trigger] f[j] == path[sl + 1 + j]);
    assert(f.len() == n - sl - 1 >= 4);
    let fl = f.len() as int;
    assert(f[fl - 4] == '.');
    assert(f[fl - 3] == 'z');
    assert(f[fl - 2] == 'i');
    assert(f[fl - 1] == 'p');
    last_index_of_found(f, '.', fl - 4);
    if fl - 4 > 0 {
        let e = f.skip(fl - 3);
        assert(e =~= zip_ext());
    }
}

/// The last slash of a path ending in `.zip` stands before that suffix.
proof fn last_slash_props(path: Seq<char>)
    requires
        last_index_of(path, '/') >= 0,
    ensures
        path[last_index_of(path, '/')] == '/',
    decreases path.len(),
{
    if path.len() > 0 && path.last() != '/' {
        let s0 = path.drop_last();
        assert(forall|j: int| 0 <= j < s0.len() ==> #[trigger] s0[j] == path[j]);
        last_index_of_bounds(s0, '/');
        last_slash_props(s0);
    }
}

} // verus!
