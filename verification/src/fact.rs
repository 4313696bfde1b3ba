//! What a walk records about one regular file.
//!
//! A fact holds the file's path, its size in bytes and its extension. The
//! extension is taken from the file name, the text after the last `/` of the
//! path: it is what follows the last `.` of the name, unless the name has no
//! `.`, has its only `.` in front, or is `..`. Extensions are stored in lower
//! case, so that `A.TXT` and `b.txt` fall into one group; files without an
//! extension fall into the group labelled `(none)`.

use vstd::prelude::*;

verus! {

/// The greatest index at which `c` occurs in `s`, or -1 if it does not occur.
pub open spec fn last_index(s: Seq<char>, c: char) -> int
    decreases s.len(),
{
    if s.len() == 0 {
        -1
    } else if s.last() == c {
        s.len() - 1
    } else {
        last_index(s.drop_last(), c)
    }
}

/// The file name of a path: the text after its last `/`, or all of it.
pub open spec fn file_name(path: Seq<char>) -> Seq<char> {
    path.skip(last_index(path, '/') + 1)
}

/// The extension of a path as written, without the dot.
pub open spec fn extension_of(path: Seq<char>) -> Option<Seq<char>> {
    let name = file_name(path);
    let dot = last_index(name, '.');
    if dot <= 0 || name == seq!['.', '.'] {
        None
    } else {
        Some(name.skip(dot + 1))
    }
}

/// The lower-case form of a text under the Unicode case mapping.
pub uninterp spec fn lowercase(text: Seq<char>) -> Seq<char>;

/// The extension under which a path is grouped: its extension in lower case.
pub open spec fn normalized_extension(path: Seq<char>) -> Option<Seq<char>> {
    match extension_of(path) {
        Some(ext) => Some(lowercase(ext)),
        None => None,
    }
}

/// The label of the group of files without an extension, `(none)`.
pub open spec fn no_extension_label() -> Seq<char> {
    seq!['(', 'n', 'o', 'n', 'e', ')']
}

/// The mathematical content of a `FileFact`.
pub struct Fact {
    pub path: Seq<char>,
    pub size: u64,
    pub extension: Option<Seq<char>>,
}

impl Fact {
    /// The fact that a walk records for a regular file at `path` of `size`
    /// bytes.
    pub open spec fn of(path: Seq<char>, size: u64) -> Fact {
        Fact { path, size, extension: normalized_extension(path) }
    }

    /// The label of the extension group this fact belongs to.
    pub open spec fn label(self) -> Seq<char> {
        match self.extension {
            Some(ext) => ext,
            None => no_extension_label(),
        }
    }
}

/// One regular file met during a walk.
#[derive(Debug)]
pub struct FileFact {
    path: String,
    size: u64,
    extension: Option<String>,
}

impl View for FileFact {
    type V = Fact;

    closed spec fn view(&self) -> Fact {
        Fact {
            path: self.path@,
            size: self.size,
            extension: match self.extension {
                Some(ext) => Some(ext@),
                None => None,
            },
        }
    }
}

/// `last_index` is the position of the last occurrence: the character is
/// there, and nowhere after.
pub proof fn lemma_last_index(s: Seq<char>, c: char)
    ensures
        -1 <= last_index(s, c) < s.len(),
        last_index(s, c) >= 0 ==> s[last_index(s, c)] == c,
        forall|j: int| last_index(s, c) < j < s.len() ==> s[j] != c,
    decreases s.len(),
{
    if s.len() > 0 && s.last() != c {
        lemma_last_index(s.drop_last(), c);
        assert forall|j: int| last_index(s, c) < j < s.len() implies s[j] != c by {
            if j < s.len() - 1 {
                assert(s.drop_last()[j] == s[j]);
            }
        }
    }
}

/// A path whose file name holds no `.` has no extension, and so its fact
/// belongs to the group labelled `(none)`.
pub proof fn lemma_no_dot_no_extension(path: Seq<char>, size: u64)
    requires
        !file_name(path).contains('.'),
    ensures
        extension_of(path) is None,
        Fact::of(path, size).label() == no_extension_label(),
{
    let name = file_name(path);
    lemma_last_index(name, '.');
    if last_index(name, '.') >= 0 {
        assert(name.contains(name[last_index(name, '.')]));
    }
}

/// `str::to_lowercase` of the standard library. Its result is named
/// `lowercase` and nothing more is claimed of it: the mapping is a function
/// of the text alone, and is fixed by the Unicode tables.
#[verifier::external_body]
fn to_lowercase(text: &str) -> (lower: String)
    ensures
        lower@ == lowercase(text@),
{
    text.to_lowercase()
}

fn last_position(text: &str, c: char) -> (found: Option<usize>)
    ensures
        match found {
            Some(i) => i == last_index(text@, c),
            None => last_index(text@, c) == -1,
        },
{
    let mut found: Option<usize> = None;
    let mut i: usize = 0;
    let n: usize = text.unicode_len();
    for x in it: text.chars()
        invariant
            i == it.index(),
            it.seq() == text@,
            n == text@.len(),
            match found {
                Some(k) => k == last_index(text@.take(i as int), c),
                None => last_index(text@.take(i as int), c) == -1,
            },
    {
        assert(text@.take(i + 1).drop_last() =~= text@.take(i as int));
        if x == c {
            found = Some(i);
        }
        i = i + 1;
    }
    assert(text@.take(i as int) =~= text@);
    found
}

/// The extension of a path as written, without the dot; `None` when the
/// file name has none.
pub fn path_extension(path: &str) -> (ext: Option<String>)
    ensures
        match ext {
            Some(e) => extension_of(path@) == Some(e@),
            None => extension_of(path@) is None,
        },
{
    let n: usize = path.unicode_len();
    proof {
        lemma_last_index(path@, '/');
    }
    let start: usize = match last_position(path, '/') {
        Some(i) => i + 1,
        None => 0,
    };
    let name = path.substring_char(start, n);
    let len: usize = n - start;
    assert(name@ =~= file_name(path@));
    proof {
        lemma_last_index(name@, '.');
    }
    match last_position(name, '.') {
        None => None,
        Some(dot) => {
            if dot == 0 {
                None
            } else if len == 2 && name.get_char(0) == '.' {
                assert(name@ =~= seq!['.', '.']);
                None
            } else {
                assert(name@ != seq!['.', '.']) by {
                    if name@ == seq!['.', '.'] {
                        assert(name@.len() == 2);
                        assert(name@[0] == '.');
                    }
                }
                let ext = name.substring_char(dot + 1, len);
                assert(ext@ =~= name@.skip(dot + 1));
                Some(String::from_str(ext))
            }
        },
    }
}

impl FileFact {
    /// Records a regular file at `path` of `size` bytes. The extension is
    /// read off the path and lower-cased.
    pub fn new(path: String, size: u64) -> (fact: FileFact)
        ensures
            fact@ == Fact::of(path@, size),
    {
        let extension = match path_extension(path.as_str()) {
            Some(ext) => Some(to_lowercase(ext.as_str())),
            None => None,
        };
        FileFact { path, size, extension }
    }

    /// The path of the file.
    pub fn path(&self) -> (path: &str)
        ensures
            path@ == self@.path,
    {
        self.path.as_str()
    }

    /// The size of the file in bytes.
    pub fn size(&self) -> (size: u64)
        ensures
            size == self@.size,
    {
        self.size
    }

    /// The extension in lower case, or `None` where the file name has none.
    pub fn extension(&self) -> (ext: Option<&str>)
        ensures
            match ext {
                Some(e) => self@.extension == Some(e@),
                None => self@.extension is None,
            },
    {
        match &self.extension {
            Some(ext) => Some(ext.as_str()),
            None => None,
        }
    }

    /// The label of the extension group the file belongs to: its extension,
    /// or `(none)`.
    pub fn label(&self) -> (label: String)
        ensures
            label@ == self@.label(),
    {
        match &self.extension {
            Some(ext) => ext.clone(),
            None => {
                proof {
                    reveal_strlit("(none)");
                }
                let label = String::from_str("(none)");
                assert(label@ =~= no_extension_label());
                label
            },
        }
    }

    /// Gives up the fact for its path and size.
    pub fn into_parts(self) -> (parts: (String, u64))
        ensures
            parts.0@ == self@.path,
            parts.1 == self@.size,
    {
        (self.path, self.size)
    }
}

} // verus!
