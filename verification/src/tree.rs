//! The items of a directory tree, and the names that they get in a
//! manifest.

use vstd::prelude::*;
use vstd::string::StringExecFns;

verus! {

/// What stands at a path.
#[derive(Debug, Clone, Copy, PartialEq, Eq, Structural)]
pub enum ItemKind {
    /// A directory.
    Dir,
    /// A regular file.
    File,
    /// Anything else, such as a symbolic link.
    Other,
}

/// One item of a directory tree: its path as the walk met it, what stands
/// there, and the bytes of a file.
#[derive(Debug, Clone, PartialEq, Eq)]
pub struct TreeItem {
    pub path: String,
    pub kind: ItemKind,
    pub content: Vec<u8>,
}

/// What an item says.
pub struct ItemView {
    pub path: Seq<char>,
    pub kind: ItemKind,
    pub content: Seq<u8>,
}

impl View for TreeItem {
    type V = ItemView;

    open spec fn view(&self) -> ItemView {
        ItemView { path: self.path@, kind: self.kind, content: self.content@ }
    }
}

/// What the items say, in order.
pub open spec fn item_views(items: Seq<TreeItem>) -> Seq<ItemView> {
    items.map_values(|t: TreeItem| t@)
}

/// The name of the header file, `.header`.
pub open spec fn header_name() -> Seq<char> {
    seq!['.', 'h', 'e', 'a', 'd', 'e', 'r']
}

/// Whether a character parts the components of a path.
pub open spec fn is_separator(c: char) -> bool {
    c == '/' || c == '\\'
}

/// The path without a leading `./` or `.\\`.
pub open spec fn strip_dot(path: Seq<char>) -> Seq<char> {
    if path.len() >= 2 && path[0] == '.' && is_separator(path[1]) {
        path.subrange(2, path.len() as int)
    } else {
        path
    }
}

/// The path with `/` in place of every `\\`.
pub open spec fn slashed(path: Seq<char>) -> Seq<char> {
    path.map_values(
        |c: char|
            if c == '\\' {
                '/'
            } else {
                c
            },
    )
}

/// The name that a path gets in a manifest: relative to the root, with `/`
/// between its components.
pub open spec fn entry_name(path: Seq<char>) -> Seq<char> {
    slashed(strip_dot(path))
}

/// Whether the last component of a path is the name of the header file.
pub open spec fn is_header_path(path: Seq<char>) -> bool {
    let name = entry_name(path);
    let n = header_name().len();
    &&& name.len() >= n
    &&& name.subrange(name.len() - n, name.len() as int) == header_name()
    &&& (name.len() == n || name[name.len() - n - 1] == '/')
}

/// The name that a path gets in a manifest.
pub fn manifest_name(path: &str) -> (name: String)
    ensures
        name@ == entry_name(path@),
{
    let n = path.unicode_len();
    let start: usize = if n >= 2 && path.get_char(0) == '.' && (path.get_char(1) == '/'
        || path.get_char(1) == '\\') {
        2
    } else {
        0
    };
    let ghost body = strip_dot(path@);
    let mut name = String::new();
    let mut from: usize = start;
    let mut i: usize = start;
    proof {
        reveal_strlit("/");
        assert(path@.subrange(start as int, n as int) =~= body);
        assert(name@ =~= slashed(path@.subrange(start as int, from as int)));
    }
    while i < n
        invariant
            start <= from <= i <= n,
            n == path@.len(),
            name@ == slashed(path@.subrange(start as int, from as int)),
            forall|k: int| from <= k < i ==> path@[k] != '\\',
        decreases n - i,
    {
        if path.get_char(i) == '\\' {
            name.append(path.substring_char(from, i));
            name.append("/");
            proof {
                reveal_strlit("/");
                assert(name@ =~= slashed(path@.subrange(start as int, i + 1)));
            }
            from = i + 1;
        }
        i += 1;
    }
    name.append(path.substring_char(from, n));
    assert(name@ =~= slashed(path@.subrange(start as int, n as int)));
    name
}

/// Whether the last component of a manifest name is the name of the header
/// file.
pub fn names_header(name: &str) -> (b: bool)
    ensures
        b == ({
            let n = header_name().len();
            &&& name@.len() >= n
            &&& name@.subrange(name@.len() - n, name@.len() as int) == header_name()
            &&& (name@.len() == n || name@[name@.len() - n - 1] == '/')
        }),
{
    proof {
        reveal_strlit(".header");
    }
    let want = ".header";
    assert(want@ =~= header_name());
    let len = name.unicode_len();
    if len < 7 {
        return false;
    }
    let base = len - 7;
    let mut k: usize = 0;
    while k < 7
        invariant
            k <= 7,
            base + 7 == len,
            len == name@.len(),
            want@ == header_name(),
            forall|j: int| 0 <= j < k ==> name@[base + j] == header_name()[j],
        decreases 7 - k,
    {
        if name.get_char(base + k) != want.get_char(k) {
            assert(name@.subrange(base as int, len as int)[k as int] != header_name()[k as int]);
            return false;
        }
        k += 1;
    }
    assert(name@.subrange(base as int, len as int) =~= header_name());
    base == 0 || name.get_char(base - 1) == '/'
}

} // verus!
