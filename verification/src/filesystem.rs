//! Paths, folder listings and file contents: all that can be said of them
//! without touching a disk.

use crate::text::chars_of;
use vstd::prelude::*;
use vstd::string::StringExecFns;

verus! {

// ---------------------------------------------------------------------------
// Paths.
// ---------------------------------------------------------------------------

/// A path that every platform takes apart in the same way: at `/` alone.
pub open spec fn portable(path: Seq<char>) -> bool {
    &&& forall|i: int| #![trigger path[i]] 0 <= i < path.len() ==> path[i] != '\\' && path[i] != ':'
    &&& !(path.len() >= 2 && path[0] == '/' && path[1] == '/')
}

/// A portable path without empty components, without `.` behind a `/`, and
/// without a `/` at its end.
pub open spec fn plain(path: Seq<char>) -> bool {
    &&& portable(path)
    &&& forall|i: int|
        #![trigger path[i]]
        0 <= i < path.len() && path[i] == '/' ==> {
            &&& i + 1 < path.len()
            &&& path[i + 1] != '/'
            &&& path[i + 1] == '.' ==> i + 2 < path.len() && path[i + 2] != '/'
        }
}

/// The path without what does not count at its end: `/`, and `.` behind a `/`.
pub open spec fn stripped(path: Seq<char>) -> Seq<char>
    decreases path.len(),
{
    if path.len() >= 1 && path.last() == '/' {
        stripped(path.drop_last())
    } else if path.len() >= 2 && path.last() == '.' && path[path.len() - 2] == '/' {
        stripped(path.take(path.len() - 2))
    } else {
        path
    }
}

/// Where the last component starts: behind the last `/`.
pub open spec fn name_start(path: Seq<char>) -> nat
    decreases path.len(),
{
    if path.len() == 0 || path.last() == '/' {
        path.len()
    } else {
        name_start(path.drop_last())
    }
}

/// A component that names something: not empty, and neither `.` nor `..`.
pub open spec fn is_name(component: Seq<char>) -> bool {
    component.len() > 0 && component != seq!['.'] && component != seq!['.', '.']
}

/// The file name of a path: its last component, if that names something.
pub open spec fn file_name_of(path: Seq<char>) -> Option<Seq<char>> {
    let core = stripped(path);
    let name = core.skip(name_start(core) as int);
    if is_name(name) {
        Some(name)
    } else {
        None
    }
}

/// Where the extension of a file name is split off: at its last `.`, unless
/// the name starts there; else at its end.
pub open spec fn stem_end(name: Seq<char>) -> int {
    let dot = last_dot(name);
    if dot > 0 {
        dot
    } else {
        name.len() as int
    }
}

/// The position of the last `.`, or -1.
pub open spec fn last_dot(name: Seq<char>) -> int
    decreases name.len(),
{
    if name.len() == 0 {
        -1
    } else if name.last() == '.' {
        name.len() - 1
    } else {
        last_dot(name.drop_last())
    }
}

/// The extension of a file name: what follows the dot where it is split.
pub open spec fn extension_of(name: Seq<char>) -> Option<Seq<char>> {
    if stem_end(name) < name.len() {
        Some(name.skip(stem_end(name) + 1))
    } else {
        None
    }
}

/// The stem of a file name: the name without its extension.
pub open spec fn stem_of(name: Seq<char>) -> Seq<char> {
    name.take(stem_end(name))
}

/// The extension of a path: that of its file name.
pub open spec fn path_extension_of(path: Seq<char>) -> Option<Seq<char>> {
    match file_name_of(path) {
        Some(name) => extension_of(name),
        None => None,
    }
}

/// The stem of a path: that of its file name.
pub open spec fn path_stem_of(path: Seq<char>) -> Option<Seq<char>> {
    match file_name_of(path) {
        Some(name) => Some(stem_of(name)),
        None => None,
    }
}

/// A plain path without its last component: empty where there is only one,
/// and nothing for the empty path.
pub open spec fn parent_of(path: Seq<char>) -> Option<Seq<char>> {
    let start = name_start(path) as int;
    if path.len() == 0 {
        None
    } else if start <= 1 {
        Some(path.take(start))
    } else {
        Some(path.take(start - 1))
    }
}

/// A plain path with another extension, or without one where that is empty. A
/// path without a file name stays as it is.
pub open spec fn extension_replaced(path: Seq<char>, extension: Seq<char>) -> Seq<char> {
    let start = name_start(path) as int;
    let name = path.skip(start);
    if !is_name(name) {
        path
    } else if extension.len() == 0 {
        path.take(start) + stem_of(name)
    } else {
        path.take(start) + stem_of(name) + seq!['.'] + extension
    }
}

/// The text of an optional borrowed text.
pub open spec fn slice_text(text: Option<&str>) -> Option<Seq<char>> {
    match text {
        Some(text) => Some(text@),
        None => None,
    }
}

/// The text of an optional string.
pub open spec fn string_text(text: Option<String>) -> Option<Seq<char>> {
    match text {
        Some(text) => Some(text@),
        None => None,
    }
}

/// `Path::extension` of std: the part of the file name behind its last dot, and
/// nothing where there is no file name, no dot, or no dot but a leading one.
/// Only for portable paths is it said what the file name is: elsewhere that
/// depends on the platform.
#[verifier::external_body]
fn path_extension(path: &str) -> (extension: Option<&str>)
    ensures
        portable(path@) ==> slice_text(extension) == path_extension_of(path@),
        extension is Some ==> !extension->0@.contains('.'),
{
    std::path::Path::new(path).extension().and_then(|part| part.to_str())
}

/// `Path::file_stem` of std: the file name without its extension, and nothing
/// where there is no file name. Only for portable paths is it said what the
/// file name is: elsewhere that depends on the platform.
#[verifier::external_body]
fn path_stem(path: &str) -> (stem: Option<&str>)
    ensures
        portable(path@) ==> slice_text(stem) == path_stem_of(path@),
        stem is Some ==> stem->0@.len() > 0,
{
    std::path::Path::new(path).file_stem().and_then(|part| part.to_str())
}

/// `Path::parent` of std: the path without its last component, and nothing for
/// the root and for the empty path. It is said of plain paths and of the root
/// what that is: elsewhere it depends on the platform, or on how much of the
/// text between two components goes.
#[verifier::external_body]
fn path_parent(path: &str) -> (parent: Option<&str>)
    ensures
        plain(path@) ==> slice_text(parent) == parent_of(path@),
        path@ == seq!['/'] ==> parent is None,
{
    std::path::Path::new(path).parent().and_then(|part| part.to_str())
}

/// `PathBuf::set_extension` of std, on the text of a path: the extension of the
/// file name is replaced, added where there was none, and taken off where the
/// new one is empty; a path without a file name stays. It panics on an
/// extension that holds a path separator. It is said of plain paths what the
/// file name is: elsewhere that depends on the platform, or on what stands
/// behind it.
#[verifier::external_body]
fn set_extension(path: String, extension: &str) -> (result: String)
    requires
        !extension@.contains('/'),
        !extension@.contains('\\'),
    ensures
        plain(path@) ==> result@ == extension_replaced(path@, extension@),
{
    let mut path = std::path::PathBuf::from(path);
    path.set_extension(extension);
    path.to_string_lossy().into_owned()
}

/// `path` is the relative path `file` put behind `folder`, with a separator
/// between them where `folder` does not end in one, or the absolute path `file`.
pub open spec fn is_joined(folder: Seq<char>, file: Seq<char>, path: Seq<char>) -> bool {
    if file[0] == '/' || folder.len() == 0 {
        path == file
    } else if folder.last() == '/' {
        path == folder + file
    } else {
        path == folder + seq!['/'] + file || path == folder + seq!['\\'] + file
    }
}

/// `Path::join` of std, on the texts of two paths: an absolute second path
/// replaces the first one, another one is put behind it. An empty first path
/// adds nothing, and one that ends in a separator gets no second one. Which
/// separator comes between the two elsewhere depends on the platform. This is
/// said of portable paths of which the second one is not empty.
#[verifier::external_body]
fn join(folder: &str, file: &str) -> (path: String)
    ensures
        portable(folder@) && portable(file@) && file@.len() > 0 ==> is_joined(
            folder@,
            file@,
            path@,
        ),
{
    std::path::Path::new(folder).join(file).to_string_lossy().into_owned()
}

/// The text with `/` for every `\`.
pub open spec fn with_slashes(text: Seq<char>) -> Seq<char> {
    Seq::new(
        text.len(),
        |i: int|
            if text[i] == '\\' {
                '/'
            } else {
                text[i]
            },
    )
}

/// Converts a file path to a file URI format. `canonical` is the canonical
/// form of the path, where the system knows one.
pub fn to_file_uri(path: &str, canonical: Option<&str>) -> (uri: String)
    ensures
        uri@ == "file:///"@ + with_slashes(
            match canonical {
                Some(text) => text@,
                None => path@,
            },
        ),
{
    let chars = match canonical {
        Some(text) => chars_of(text),
        None => chars_of(path),
    };
    let mut uri: String = "file:///".to_owned();
    let ghost wanted = with_slashes(chars@);
    let mut i: usize = 0;
    assert(uri@ =~= "file:///"@ + wanted.take(0));
    while i < chars.len()
        invariant
            wanted == with_slashes(chars@),
            i <= chars@.len(),
            uri@ == "file:///"@ + wanted.take(i as int),
        decreases chars@.len() - i,
    {
        let c = chars[i];
        if c == '\\' {
            uri.push('/');
        } else {
            uri.push(c);
        }
        i = i + 1;
        assert(uri@ =~= "file:///"@ + wanted.take(i as int));
    }
    assert(wanted.take(i as int) =~= wanted);
    uri
}

/// Extracts the file extension from a given file path.
pub fn get_file_extension(file_path: &str) -> (extension: Option<&str>)
    ensures
        portable(file_path@) ==> slice_text(extension) == path_extension_of(file_path@),
        extension is Some ==> !extension->0@.contains('.'),
{
    path_extension(file_path)
}

/// Extracts the file name without its extension from a given file path.
pub fn get_file_name_without_extension(file_path: &str) -> (stem: Option<String>)
    ensures
        portable(file_path@) ==> string_text(stem) == path_stem_of(file_path@),
        stem is Some ==> stem->0@.len() > 0,
{
    match path_stem(file_path) {
        Some(stem) => Some(stem.to_owned()),
        None => None,
    }
}

/// Replaces the file extension of the given file path with a new extension.
pub fn replace_file_extension(file_path: &str, new_extension: &str) -> (path: String)
    requires
        !new_extension@.contains('/'),
        !new_extension@.contains('\\'),
    ensures
        plain(file_path@) ==> path@ == extension_replaced(file_path@, new_extension@),
{
    replace_extension(file_path.to_owned(), new_extension)
}

/// Replaces the extension of the given path with the specified extension.
pub fn replace_extension(path: String, extension: &str) -> (new_path: String)
    requires
        !extension@.contains('/'),
        !extension@.contains('\\'),
    ensures
        plain(path@) ==> new_path@ == extension_replaced(path@, extension@),
{
    set_extension(path, extension)
}

/// The folder that a file is in.
pub fn get_file_containing_folder(file_path: &str) -> (folder: Option<String>)
    ensures
        plain(file_path@) ==> string_text(folder) == parent_of(file_path@),
        file_path@ == seq!['/'] ==> folder is None,
{
    match path_parent(file_path) {
        Some(folder) => Some(folder.to_owned()),
        None => None,
    }
}

/// The path of a file in a folder.
pub fn path_in_folder(folder: &str, file: &str) -> (path: String)
    ensures
        portable(folder@) && portable(file@) && file@.len() > 0 ==> is_joined(
            folder@,
            file@,
            path@,
        ),
{
    join(folder, file)
}

/// Where the last dot is, nothing behind it is a dot.
proof fn lemma_last_dot(name: Seq<char>)
    ensures
        -1 <= last_dot(name) < name.len(),
        last_dot(name) >= 0 ==> name[last_dot(name)] == '.',
        forall|i: int| #![trigger name[i]] last_dot(name) < i < name.len() ==> name[i] != '.',
    decreases name.len(),
{
    if name.len() > 0 && name.last() != '.' {
        lemma_last_dot(name.drop_last());
        assert forall|i: int| #![trigger name[i]] last_dot(name) < i < name.len() implies name[i]
            != '.' by {
            if i < name.len() - 1 {
                assert(name.drop_last()[i] == name[i]);
            }
        }
    }
}

/// The last dot of a text that ends in a dot and a part without dots.
proof fn lemma_dot_behind(head: Seq<char>, part: Seq<char>)
    requires
        !part.contains('.'),
    ensures
        last_dot(head + seq!['.'] + part) == head.len(),
    decreases part.len(),
{
    let name = head + seq!['.'] + part;
    if part.len() > 0 {
        assert(part.contains(part.last()));
        assert(name.last() == part.last());
        assert(name.drop_last() =~= head + seq!['.'] + part.drop_last());
        assert(!part.drop_last().contains('.')) by {
            assert forall|i: int| 0 <= i < part.drop_last().len() implies part.drop_last()[i]
                != '.' by {
                assert(part.contains(part[i]));
            }
        }
        lemma_dot_behind(head, part.drop_last());
    } else {
        assert(name =~= head.push('.'));
    }
}

/// Where the last component starts does not depend on what it is.
proof fn lemma_name_start(head: Seq<char>, name: Seq<char>)
    requires
        head.len() == 0 || head.last() == '/',
        !name.contains('/'),
    ensures
        name_start(head + name) == head.len(),
    decreases name.len(),
{
    let path = head + name;
    if name.len() > 0 {
        assert(name.contains(name.last()));
        assert(path.last() == name.last());
        assert(path.drop_last() =~= head + name.drop_last());
        assert(!name.drop_last().contains('/')) by {
            assert forall|i: int| 0 <= i < name.drop_last().len() implies name.drop_last()[i]
                != '/' by {
                assert(name.contains(name[i]));
            }
        }
        lemma_name_start(head, name.drop_last());
    } else {
        assert(path =~= head);
    }
}

/// The last component holds no `/`, and what is before it ends in one.
proof fn lemma_last_component(path: Seq<char>)
    ensures
        name_start(path) <= path.len(),
        !path.skip(name_start(path) as int).contains('/'),
        name_start(path) > 0 ==> path[name_start(path) - 1] == '/',
    decreases path.len(),
{
    if path.len() == 0 || path.last() == '/' {
        assert(path.skip(path.len() as int).len() == 0);
    } else {
        let shorter = path.drop_last();
        lemma_last_component(shorter);
        let start = name_start(path) as int;
        assert forall|i: int| 0 <= i < path.skip(start).len() implies path.skip(start)[i]
            != '/' by {
            if i < shorter.skip(start).len() {
                assert(shorter.skip(start)[i] == path.skip(start)[i]);
                assert(shorter.skip(start).contains(shorter.skip(start)[i]));
            }
        }
    }
}

/// A file name is its stem, and behind a dot its extension, if it has one.
pub proof fn law_name_split(name: Seq<char>)
    ensures
        match extension_of(name) {
            Some(extension) => name == stem_of(name) + seq!['.'] + extension && stem_of(name).len()
                > 0,
            None => name == stem_of(name),
        },
{
    lemma_last_dot(name);
    match extension_of(name) {
        Some(extension) => {
            assert(name =~= stem_of(name) + seq!['.'] + extension);
        },
        None => {
            assert(name =~= stem_of(name));
        },
    }
}

/// Replacing the extension keeps a path plain.
proof fn lemma_renamed_plain(path: Seq<char>, extension: Seq<char>)
    requires
        plain(path),
        is_name(path.skip(name_start(path) as int)),
        extension.len() > 0,
        !extension.contains('/'),
        !extension.contains('\\'),
        !extension.contains(':'),
    ensures
        plain(extension_replaced(path, extension)),
{
    lemma_last_component(path);
    let start = name_start(path) as int;
    let head = path.take(start);
    let name = path.skip(start);
    lemma_last_dot(name);
    let stem = stem_of(name);
    let result = extension_replaced(path, extension);
    assert forall|i: int| start <= i < result.len() implies #[trigger] result[i] != '/' by {
        if i < start + stem.len() {
            assert(result[i] == name[i - start]);
            assert(name.contains(name[i - start]));
        } else if i > start + stem.len() {
            assert(result[i] == extension[i - start - stem.len() - 1]);
            assert(extension.contains(extension[i - start - stem.len() - 1]));
        }
    }
    assert(stem.len() > 0);
    assert forall|i: int| #![trigger result[i]] 0 <= i < result.len() implies result[i] != '\\'
        && result[i] != ':' by {
        if i < start + stem.len() {
            assert(result[i] == path[i]);
        } else if i > start + stem.len() {
            assert(result[i] == extension[i - start - stem.len() - 1]);
            assert(extension.contains(extension[i - start - stem.len() - 1]));
        }
    }
    assert forall|i: int| #![trigger result[i]] 0 <= i < result.len() && result[i] == '/' implies {
        &&& i + 1 < result.len()
        &&& result[i + 1] != '/'
        &&& result[i + 1] == '.' ==> i + 2 < result.len() && result[i + 2] != '/'
    } by {
        assert(i < start);
        assert(result[i] == path[i]);
        if i + 1 < start {
            assert(result[i + 1] == path[i + 1]);
            if i + 2 < start {
                assert(result[i + 2] == path[i + 2]);
            } else {
                assert(result[i + 2] != '/');
            }
        } else {
            assert(result[i + 1] != '/');
            assert(result[i + 2] != '/');
        }
    }
    if result.len() >= 2 && result[0] == '/' && result[1] == '/' {
        assert(path[0] == '/');
    }
}

/// Replacing the extension keeps the start of the path, and the last component
/// is the stem with the new extension.
proof fn lemma_renamed(path: Seq<char>, extension: Seq<char>)
    requires
        is_name(path.skip(name_start(path) as int)),
        extension.len() > 0,
        !extension.contains('/'),
    ensures
        name_start(extension_replaced(path, extension)) == name_start(path),
        extension_replaced(path, extension).take(name_start(path) as int) == path.take(
            name_start(path) as int,
        ),
        extension_replaced(path, extension).skip(name_start(path) as int) == stem_of(
            path.skip(name_start(path) as int),
        ) + seq!['.'] + extension,
{
    lemma_last_component(path);
    let start = name_start(path) as int;
    let head = path.take(start);
    let name = path.skip(start);
    lemma_last_dot(name);
    let stem = stem_of(name);
    let renamed = stem + seq!['.'] + extension;
    let result = extension_replaced(path, extension);
    assert(result =~= head + renamed);
    assert forall|i: int| 0 <= i < renamed.len() implies renamed[i] != '/' by {
        if i < stem.len() {
            assert(renamed[i] == name[i]);
            assert(name.contains(name[i]));
        } else if i > stem.len() {
            assert(renamed[i] == extension[i - stem.len() - 1]);
            assert(extension.contains(extension[i - stem.len() - 1]));
        }
    }
    lemma_name_start(head, renamed);
    assert(result.take(start) =~= head);
    assert(result.skip(start) =~= renamed);
}

/// A stem with an extension without dots has that stem and that extension.
proof fn lemma_stem_and_extension(stem: Seq<char>, extension: Seq<char>)
    requires
        stem.len() > 0,
        extension.len() > 0,
        !extension.contains('.'),
    ensures
        is_name(stem + seq!['.'] + extension),
        stem_of(stem + seq!['.'] + extension) == stem,
        extension_of(stem + seq!['.'] + extension) == Some(extension),
{
    let name = stem + seq!['.'] + extension;
    lemma_dot_behind(stem, extension);
    assert(name.len() >= 3);
    assert(name.take(stem.len() as int) =~= stem);
    assert(name.skip(stem.len() + 1int) =~= extension);
}

/// Replacing the extension of a plain path by one without dots gives a path in
/// the same folder, with the same stem and that extension.
pub proof fn law_extension_replaced(path: Seq<char>, extension: Seq<char>)
    requires
        plain(path),
        file_name_of(path) is Some,
        extension.len() > 0,
        !extension.contains('.'),
        !extension.contains('/'),
        !extension.contains('\\'),
        !extension.contains(':'),
    ensures
        plain(extension_replaced(path, extension)),
        path_extension_of(extension_replaced(path, extension)) == Some(extension),
        path_stem_of(extension_replaced(path, extension)) == path_stem_of(path),
        parent_of(extension_replaced(path, extension)) == parent_of(path),
{
    let start = name_start(path) as int;
    let name = path.skip(start);
    let result = extension_replaced(path, extension);
    lemma_stripped_plain(path);
    lemma_last_component(path);
    lemma_last_dot(name);
    lemma_renamed(path, extension);
    lemma_renamed_plain(path, extension);
    lemma_stripped_plain(result);
    lemma_stem_and_extension(stem_of(name), extension);
    assert(result.len() >= start);
    if start > 1 {
        assert(result.take(start - 1) =~= result.take(start).take(start - 1));
        assert(path.take(start - 1) =~= path.take(start).take(start - 1));
    }
}

/// Of a plain path everything counts.
proof fn lemma_stripped_plain(path: Seq<char>)
    requires
        plain(path),
    ensures
        stripped(path) == path,
{
    if path.len() >= 1 {
        assert(path[path.len() - 1] != '/');
        if path.len() >= 2 && path[path.len() - 2] == '/' {
            assert(path[path.len() - 2] == '/');
        }
    }
}

// ---------------------------------------------------------------------------
// Folders.
// ---------------------------------------------------------------------------

/// Something in a folder.
pub enum Item {
    /// A file of that many bytes.
    File(u64),
    /// A folder with its name, where that is text, and what is in it.
    Folder(Option<String>, Vec<Item>),
    /// Anything else.
    Other,
}

/// A folder of that name is left out.
pub open spec fn left_out(name: Option<Seq<char>>, excluded: Set<Seq<char>>) -> bool {
    name is Some && excluded.contains(name->0)
}

/// The total size of an item, without the folders of the excluded names.
pub open spec fn item_size(item: Item, excluded: Set<Seq<char>>) -> nat
    decreases item, 0nat,
{
    match item {
        Item::File(size) => size as nat,
        Item::Folder(name, items) => if left_out(string_text(name), excluded) {
            0
        } else {
            items_size(items@, excluded, items@.len())
        },
        Item::Other => 0,
    }
}

/// The total size of the first `n` items.
pub open spec fn items_size(items: Seq<Item>, excluded: Set<Seq<char>>, n: nat) -> nat
    decreases items, n,
    when n <= items.len()
{
    if n == 0 {
        0
    } else {
        items_size(items, excluded, (n - 1) as nat) + item_size(items[n - 1], excluded)
    }
}

/// The size, where it fits.
pub open spec fn size_if_fits(size: nat) -> Option<u64> {
    if size <= u64::MAX {
        Some(size as u64)
    } else {
        None
    }
}

/// The names in a list.
pub open spec fn names_in(names: Seq<&str>) -> Set<Seq<char>> {
    Set::new(|name: Seq<char>| exists|i: int| 0 <= i < names.len() && #[trigger] names[i]@ == name)
}

/// Whether a folder of that name is left out.
pub fn should_exclude(name: Option<&str>, excluded: &[&str]) -> (yes: bool)
    ensures
        yes == left_out(slice_text(name), names_in(excluded@)),
{
    match name {
        Some(text) => {
            let wanted: String = text.to_owned();
            let mut i: usize = 0;
            while i < excluded.len()
                invariant
                    name == Some(text),
                    wanted@ == text@,
                    i <= excluded@.len(),
                    forall|j: int| #![trigger excluded@[j]] 0 <= j < i ==> excluded@[j]@ != text@,
                decreases excluded@.len() - i,
            {
                if excluded[i].to_owned() == wanted {
                    assert(excluded@[i as int]@ == text@);
                    return true;
                }
                i = i + 1;
            }
            false
        },
        None => false,
    }
}

/// Leaving out more folders never gives a larger size.
pub proof fn law_exclusion_shrinks(
    items: Seq<Item>,
    fewer: Set<Seq<char>>,
    more: Set<Seq<char>>,
    n: nat,
)
    requires
        n <= items.len(),
        fewer.subset_of(more),
    ensures
        items_size(items, more, n) <= items_size(items, fewer, n),
    decreases items, n,
{
    if n > 0 {
        law_exclusion_shrinks(items, fewer, more, (n - 1) as nat);
        match items[n - 1] {
            Item::Folder(name, inner) => {
                law_exclusion_shrinks(inner@, fewer, more, inner@.len());
            },
            _ => {},
        }
        assert(item_size(items[n - 1], more) <= item_size(items[n - 1], fewer));
    }
}

/// A part is no larger than the whole.
proof fn lemma_part_of_size(items: Seq<Item>, excluded: Set<Seq<char>>, k: nat, n: nat)
    requires
        k <= n <= items.len(),
    ensures
        items_size(items, excluded, k) <= items_size(items, excluded, n),
    decreases n - k,
{
    if k < n {
        lemma_part_of_size(items, excluded, k, (n - 1) as nat);
    }
}

/// Recursively get total size of what is in a folder, in bytes; nothing where
/// it does not fit.
pub fn folder_size(items: &Vec<Item>) -> (size: Option<u64>)
    ensures
        size == size_if_fits(items_size(items@, Set::empty(), items@.len())),
{
    let none: Vec<&str> = Vec::new();
    assert(names_in(none@) =~= Set::empty());
    walk(items, none.as_slice())
}

/// Recursively get total size of what is in a folder, in bytes, without what
/// is in folders of the excluded names; nothing where it does not fit.
pub fn folder_size_excluding(items: &Vec<Item>, excluded_names: &[&str]) -> (size: Option<u64>)
    ensures
        size == size_if_fits(items_size(items@, names_in(excluded_names@), items@.len())),
{
    walk(items, excluded_names)
}

fn walk(items: &Vec<Item>, excluded: &[&str]) -> (size: Option<u64>)
    ensures
        size == size_if_fits(items_size(items@, names_in(excluded@), items@.len())),
    decreases items,
{
    let ghost set = names_in(excluded@);
    let mut total: u64 = 0;
    let mut i: usize = 0;
    while i < items.len()
        invariant
            set == names_in(excluded@),
            i <= items@.len(),
            total == items_size(items@, set, i as nat),
        decreases items@.len() - i,
    {
        let size = match &items[i] {
            Item::File(size) => Some(*size),
            Item::Folder(name, inner) => {
                let text = match name {
                    Some(text) => Some(text.as_str()),
                    None => None,
                };
                if should_exclude(text, excluded) {
                    Some(0)
                } else {
                    walk(inner, excluded)
                }
            },
            Item::Other => Some(0),
        };
        proof {
            lemma_part_of_size(items@, set, (i + 1) as nat, items@.len());
            assert(size == size_if_fits(item_size(items@[i as int], set)));
        }
        match size {
            Some(size) => match total.checked_add(size) {
                Some(sum) => {
                    total = sum;
                },
                None => {
                    return None;
                },
            },
            None => {
                return None;
            },
        }
        i = i + 1;
    }
    Some(total)
}

/// A file has the wanted extension, given with or without its dot.
pub open spec fn has_extension(extension: Option<Seq<char>>, wanted: Seq<char>) -> bool {
    extension is Some && (extension->0 == wanted || seq!['.'] + extension->0 == wanted)
}

/// The paths of those of the first `n` entries that are files with the wanted
/// extension. An entry is a path, and whether it is a file.
pub open spec fn files_with(entries: Seq<(String, bool)>, wanted: Seq<char>, n: nat) -> Seq<
    Seq<char>,
>
    decreases n,
{
    if n == 0 {
        Seq::empty()
    } else {
        let rest = files_with(entries, wanted, (n - 1) as nat);
        let (path, is_file) = entries[n - 1];
        if is_file && has_extension(path_extension_of(path@), wanted) {
            rest.push(path@)
        } else {
            rest
        }
    }
}

/// The contents of a list of strings.
pub open spec fn contents(list: Seq<String>) -> Seq<Seq<char>> {
    Seq::new(list.len(), |i: int| list[i]@)
}

/// `path` is the path of a file among `entries`.
pub open spec fn is_listed_file(entries: Seq<(String, bool)>, path: Seq<char>) -> bool {
    exists|i: int| 0 <= i < entries.len() && entries[i].1 && #[trigger] entries[i].0@ == path
}

/// Whether an extension is the wanted one, given with or without its dot.
pub fn is_wanted_extension(extension: Option<&str>, wanted: &str) -> (yes: bool)
    ensures
        yes == has_extension(slice_text(extension), wanted@),
{
    match extension {
        Some(extension) => {
            let wanted: String = wanted.to_owned();
            let mut dotted: String = String::new();
            dotted.push('.');
            dotted.append(extension);
            assert(dotted@ =~= seq!['.'] + extension@);
            extension.to_owned() == wanted || dotted == wanted
        },
        None => false,
    }
}

/// The paths of the files in a folder that have the wanted extension, given
/// with or without its dot. Each entry is a path, and whether it is a file.
pub fn get_files_in_folder(entries: &Vec<(String, bool)>, extension_str: &str) -> (paths: Vec<
    String,
>)
    ensures
        (forall|i: int|
            #![trigger entries@[i]]
            0 <= i < entries@.len() ==> portable(entries@[i].0@)) ==> contents(paths@)
            == files_with(entries@, extension_str@, entries@.len()),
        (forall|i: int|
            #![trigger entries@[i]]
            0 <= i < entries@.len() ==> portable(entries@[i].0@)) ==> paths@.len() == files_with(
            entries@,
            extension_str@,
            entries@.len(),
        ).len() && forall|k: int|
            #![trigger paths@[k]]
            0 <= k < paths@.len() ==> paths@[k]@ == files_with(
                entries@,
                extension_str@,
                entries@.len(),
            )[k],
        forall|k: int|
            #![trigger paths@[k]]
            0 <= k < paths@.len() ==> is_listed_file(entries@, paths@[k]@),
{
    let ghost all_portable = forall|i: int|
        #![trigger entries@[i]]
        0 <= i < entries@.len() ==> portable(entries@[i].0@);
    let mut paths: Vec<String> = Vec::new();
    let mut i: usize = 0;
    assert(contents(paths@) =~= Seq::empty());
    while i < entries.len()
        invariant
            all_portable == (forall|i: int|
                #![trigger entries@[i]]
                0 <= i < entries@.len() ==> portable(entries@[i].0@)),
            i <= entries@.len(),
            all_portable ==> contents(paths@) == files_with(entries@, extension_str@, i as nat),
            forall|k: int|
                #![trigger paths@[k]]
                0 <= k < paths@.len() ==> is_listed_file(entries@, paths@[k]@),
        decreases entries@.len() - i,
    {
        let path = &entries[i].0;
        let ghost before = paths@;
        if entries[i].1 && is_wanted_extension(get_file_extension(path.as_str()), extension_str) {
            let copy = path.clone();
            paths.push(copy);
            proof {
                assert(contents(paths@) =~= contents(before).push(path@));
                assert forall|k: int| #![trigger paths@[k]] 0 <= k
                    < paths@.len() implies is_listed_file(entries@, paths@[k]@) by {
                    if k < before.len() {
                        assert(paths@[k] == before[k]);
                    } else {
                        assert(entries@[i as int].0@ == paths@[k]@);
                    }
                }
            }
        }
        i = i + 1;
    }
    assert(forall|k: int|
        #![trigger paths@[k]]
        0 <= k < paths@.len() ==> contents(paths@)[k] == paths@[k]@);
    paths
}

// ---------------------------------------------------------------------------
// Files.
// ---------------------------------------------------------------------------

/// Where the first line ends: at the first line feed, or at the end.
pub open spec fn line_end(text: Seq<char>) -> nat
    decreases text.len(),
{
    if text.len() == 0 || text[0] == '\n' {
        0
    } else {
        1 + line_end(text.drop_first())
    }
}

/// A line without the carriage return before its line feed.
pub open spec fn without_return(line: Seq<char>) -> Seq<char> {
    if line.len() > 0 && line.last() == '\r' {
        line.drop_last()
    } else {
        line
    }
}

/// The lines of a text, without their line ends. A line feed at the end of the
/// text starts no further line.
pub open spec fn lines_of(text: Seq<char>) -> Seq<Seq<char>>
    decreases text.len(),
{
    let end = line_end(text) as int;
    if text.len() == 0 {
        Seq::empty()
    } else if end >= text.len() {
        seq![text]
    } else {
        seq![without_return(text.take(end))] + lines_of(text.skip(end + 1))
    }
}

/// A line that starts with two slashes.
pub open spec fn is_comment(line: Seq<char>) -> bool {
    line.len() >= 2 && line[0] == '/' && line[1] == '/'
}

/// The lines that are no comments.
pub open spec fn no_comments(lines: Seq<Seq<char>>) -> Seq<Seq<char>>
    decreases lines.len(),
{
    if lines.len() == 0 {
        Seq::empty()
    } else if is_comment(lines[0]) {
        no_comments(lines.drop_first())
    } else {
        seq![lines[0]] + no_comments(lines.drop_first())
    }
}

/// The first line ends where the next line feed is.
proof fn lemma_line_end(text: Seq<char>, n: int)
    requires
        0 <= n <= text.len(),
        forall|i: int| #![trigger text[i]] 0 <= i < n ==> text[i] != '\n',
        n < text.len() ==> text[n] == '\n',
    ensures
        line_end(text) == n,
    decreases n,
{
    if n > 0 {
        let rest = text.drop_first();
        assert forall|i: int| #![trigger rest[i]] 0 <= i < n - 1 implies rest[i] != '\n' by {
            assert(rest[i] == text[i + 1]);
        }
        lemma_line_end(rest, n - 1);
    }
}

/// The characters `start..end` as a string.
fn part_of(chars: &Vec<char>, start: usize, end: usize) -> (part: String)
    requires
        start <= end <= chars@.len(),
    ensures
        part@ == chars@.subrange(start as int, end as int),
{
    let mut part: String = String::new();
    let mut i: usize = start;
    assert(part@ =~= chars@.subrange(start as int, start as int));
    while i < end
        invariant
            start <= i <= end <= chars@.len(),
            part@ == chars@.subrange(start as int, i as int),
        decreases end - i,
    {
        part.push(chars[i]);
        i = i + 1;
        assert(part@ =~= chars@.subrange(start as int, i as int));
    }
    part
}

/// The lines of a file's content that do not start with `//`.
pub fn read_lines_except_comment(content: &str) -> (lines: Vec<String>)
    ensures
        contents(lines@) == no_comments(lines_of(content@)),
        lines@.len() == no_comments(lines_of(content@)).len(),
        forall|i: int|
            #![trigger lines@[i]]
            0 <= i < lines@.len() ==> lines@[i]@ == no_comments(lines_of(content@))[i],
{
    let chars = chars_of(content);
    let ghost wanted = no_comments(lines_of(content@));
    let mut lines: Vec<String> = Vec::new();
    let mut start: usize = 0;
    assert(content@.skip(0) =~= content@);
    assert(contents(lines@) + no_comments(lines_of(content@.skip(0))) =~= wanted);
    while start < chars.len()
        invariant
            chars@ == content@,
            start <= chars@.len(),
            contents(lines@) + no_comments(lines_of(content@.skip(start as int))) == wanted,
        decreases chars@.len() - start,
    {
        let ghost rest = content@.skip(start as int);
        let mut end: usize = start;
        while end < chars.len() && chars[end] != '\n'
            invariant
                chars@ == content@,
                start <= end <= chars@.len(),
                forall|i: int| #![trigger chars@[i]] start <= i < end ==> chars@[i] != '\n',
            decreases chars@.len() - end,
        {
            end = end + 1;
        }
        proof {
            assert forall|i: int| #![trigger rest[i]] 0 <= i < end - start implies rest[i]
                != '\n' by {
                assert(rest[i] == chars@[start + i]);
            }
            if end < chars@.len() {
                assert(rest[end - start] == chars@[end as int]);
            }
            lemma_line_end(rest, end - start);
        }
        let mut stop: usize = end;
        if end < chars.len() && end > start && chars[end - 1] == '\r' {
            stop = end - 1;
        }
        let line = part_of(&chars, start, stop);
        let comment = stop - start >= 2 && chars[start] == '/' && chars[start + 1] == '/';
        let ghost before = lines@;
        let ghost next = if end < chars@.len() {
            end + 1
        } else {
            chars@.len() as int
        };
        proof {
            assert(line@.len() == stop - start);
            assert(comment == is_comment(line@)) by {
                if stop - start >= 2 {
                    assert(line@[0] == chars@[start as int]);
                    assert(line@[1] == chars@[start + 1]);
                }
            }
            let all = lines_of(rest);
            if end < chars@.len() {
                let taken = rest.take(end - start);
                if end > start {
                    assert(taken.last() == chars@[end - 1]);
                }
                assert(line@ =~= without_return(taken));
                assert(rest.skip(end - start + 1) =~= content@.skip(next));
                assert(all == seq![line@] + lines_of(content@.skip(next)));
                assert(all.drop_first() =~= lines_of(content@.skip(next)));
            } else {
                assert(line@ =~= rest);
                assert(all =~= seq![line@]);
                assert(content@.skip(next).len() == 0);
                assert(all.drop_first() =~= lines_of(content@.skip(next)));
            }
            assert(all[0] == line@);
        }
        if !comment {
            lines.push(line);
            assert(contents(lines@) =~= contents(before).push(line@));
        }
        proof {
            assert(contents(lines@) + no_comments(lines_of(content@.skip(next))) =~= wanted);
        }
        start = if end < chars.len() {
            end + 1
        } else {
            end
        };
    }
    assert(content@.skip(start as int).len() == 0);
    assert(contents(lines@) =~= wanted);
    assert(forall|i: int|
        #![trigger lines@[i]]
        0 <= i < lines@.len() ==> contents(lines@)[i] == lines@[i]@);
    lines
}

/// A piece of an XML document, with the local names of elements.
pub enum XmlPiece {
    /// The start of an element.
    Start(String),
    /// Character data.
    Text(String),
    /// The end of an element.
    End(String),
    /// Anything else.
    Other,
}

/// What a piece of an XML document holds.
pub enum PieceView {
    Start(Seq<char>),
    Text(Seq<char>),
    End(Seq<char>),
    Other,
}

impl View for XmlPiece {
    type V = PieceView;

    open spec fn view(&self) -> PieceView {
        match self {
            XmlPiece::Start(name) => PieceView::Start(name@),
            XmlPiece::Text(text) => PieceView::Text(text@),
            XmlPiece::End(name) => PieceView::End(name@),
            XmlPiece::Other => PieceView::Other,
        }
    }
}

/// What pieces of an XML document hold.
pub open spec fn piece_views(pieces: Seq<XmlPiece>) -> Seq<PieceView> {
    Seq::new(pieces.len(), |i: int| pieces[i]@)
}

/// The events that a document has for the reader of the `xml` crate, in their
/// order, an error included.
pub uninterp spec fn xml_events(content: Seq<u8>) -> Seq<PieceView>;

/// `xml::EventReader`, read to its end as an iterator: its events in their
/// order, of which start tags, end tags and character data are told apart. The
/// events depend on the bytes alone; what they are for given bytes is left to
/// the reader.
#[verifier::external_body]
fn read_events(content: &[u8]) -> (pieces: Vec<XmlPiece>)
    ensures
        piece_views(pieces@) == xml_events(content@),
{
    let events = xml::EventReader::new(content).into_iter();
    events.map(|event| match event {
        Ok(xml::reader::XmlEvent::StartElement { name, .. }) => XmlPiece::Start(name.local_name),
        Ok(xml::reader::XmlEvent::Characters(text)) => XmlPiece::Text(text),
        Ok(xml::reader::XmlEvent::EndElement { name }) => XmlPiece::End(name.local_name),
        _ => XmlPiece::Other,
    }).collect()
}

/// The text of an element, read on from `so_far`: a start tag of that name
/// begins it anew, character data is added to it, and an end tag of that name
/// completes it.
pub open spec fn node_text(
    pieces: Seq<PieceView>,
    target: Seq<char>,
    so_far: Seq<char>,
) -> Option<Seq<char>>
    decreases pieces.len(),
{
    if pieces.len() == 0 {
        None
    } else {
        let rest = pieces.drop_first();
        match pieces[0] {
            PieceView::Start(name) => if name == target {
                node_text(rest, target, Seq::empty())
            } else {
                node_text(rest, target, so_far)
            },
            PieceView::Text(text) => node_text(rest, target, so_far + text),
            PieceView::End(name) => if name == target {
                Some(so_far)
            } else {
                node_text(rest, target, so_far)
            },
            PieceView::Other => node_text(rest, target, so_far),
        }
    }
}

/// The text of the first element of that name that ends, from its start tag
/// on: all character data in it, also that of the elements inside.
pub fn text_of_node(pieces: &Vec<XmlPiece>, target_node: &str) -> (text: Option<String>)
    ensures
        string_text(text) == node_text(piece_views(pieces@), target_node@, Seq::empty()),
{
    let target: String = target_node.to_owned();
    let ghost all = piece_views(pieces@);
    let mut node_content: String = String::new();
    let mut i: usize = 0;
    proof {
        assert(all.skip(0) =~= all);
    }
    assert(node_content@ =~= Seq::empty());
    while i < pieces.len()
        invariant
            target@ == target_node@,
            all == piece_views(pieces@),
            i <= pieces@.len(),
            node_text(all, target@, Seq::empty()) == node_text(
                all.skip(i as int),
                target@,
                node_content@,
            ),
        decreases pieces@.len() - i,
    {
        proof {
            assert(all.skip(i as int)[0] == pieces@[i as int]@);
            assert(all.skip(i as int).drop_first() =~= all.skip(i + 1));
        }
        match &pieces[i] {
            XmlPiece::Start(name) => {
                if *name == target {
                    node_content = String::new();
                    assert(node_content@ =~= Seq::empty());
                }
            },
            XmlPiece::Text(text) => {
                node_content.append(text.as_str());
            },
            XmlPiece::End(name) => {
                if *name == target {
                    return Some(node_content);
                }
            },
            XmlPiece::Other => {},
        }
        i = i + 1;
    }
    assert(all.skip(i as int).len() == 0);
    None
}

/// The text of the first element of that name in an XML document.
pub fn read_xml_string(content: &[u8], target_node: &str) -> (text: Option<String>)
    ensures
        string_text(text) == node_text(xml_events(content@), target_node@, Seq::empty()),
{
    let pieces = read_events(content);
    text_of_node(&pieces, target_node)
}

/// Whether an output has to be made again: where there is none, and where the
/// input was modified more recently. `times` holds the modification times of
/// input and output, where there is an output.
pub fn needs_generation(times: Option<(i128, i128)>) -> (yes: bool)
    ensures
        yes == match times {
            None => true,
            Some((input, output)) => input > output,
        },
{
    match times {
        None => true,
        Some((input, output)) => input > output,
    }
}

// ---------------------------------------------------------------------------
// What holds of all of these.
// ---------------------------------------------------------------------------

/// A path becomes a URI character by character: backslashes turn into slashes,
/// all else stays.
pub proof fn law_slashes(text: Seq<char>, i: int)
    requires
        0 <= i < text.len(),
    ensures
        with_slashes(text).len() == text.len(),
        text[i] == '\\' ==> with_slashes(text)[i] == '/',
        text[i] != '\\' ==> with_slashes(text)[i] == text[i],
{
}

/// The file name is what follows the last `/`, and is there unless that is
/// empty or one of the two dotted names. A `/` behind the path, with or without
/// a `.`, does not count.
pub proof fn law_file_name(folder: Seq<char>, name: Seq<char>)
    requires
        folder.len() == 0 || folder.last() == '/',
        !name.contains('/'),
        name.len() > 0,
        folder.len() > 0 ==> name != seq!['.'],
    ensures
        file_name_of(folder + name) == if name == seq!['.'] || name == seq!['.', '.'] {
            None
        } else {
            Some(name)
        },
        file_name_of(folder + name + seq!['/']) == file_name_of(folder + name),
        file_name_of(folder + name + seq!['/', '.']) == file_name_of(folder + name),
{
    let path = folder + name;
    lemma_name_start(folder, name);
    assert(name.contains(name.last()));
    assert(path.last() == name.last());
    if path.len() >= 2 && path.last() == '.' && path[path.len() - 2] == '/' {
        if name.len() >= 2 {
            assert(name.contains(name[name.len() - 2]));
            assert(path[path.len() - 2] == name[name.len() - 2]);
        } else {
            assert(name =~= seq!['.']);
        }
    }
    assert(stripped(path) == path);
    assert(path.skip(folder.len() as int) =~= name);
    let slashed = path + seq!['/'];
    assert(slashed.drop_last() =~= path);
    assert(stripped(slashed) == path);
    let dotted = path + seq!['/', '.'];
    assert(dotted.last() == '.' && dotted[dotted.len() - 2] == '/');
    assert(dotted.take(dotted.len() - 2) =~= path);
    assert(stripped(dotted) == path);
}

/// What follows the last dot of a file name is its extension, and what is before
/// that dot its stem, as long as the stem is not empty. There is no other
/// extension: a name without a dot, or with no dot but its first character, has
/// none.
pub proof fn law_extension(name: Seq<char>, stem: Seq<char>, extension: Seq<char>)
    requires
        stem.len() > 0,
        !extension.contains('.'),
    ensures
        extension_of(stem + seq!['.'] + extension) == Some(extension),
        stem_of(stem + seq!['.'] + extension) == stem,
        !name.contains('.') ==> extension_of(name) is None && stem_of(name) == name,
        extension_of(seq!['.'] + extension) is None,
        stem_of(seq!['.'] + extension) == seq!['.'] + extension,
{
    let whole = stem + seq!['.'] + extension;
    lemma_dot_behind(stem, extension);
    assert(whole.take(stem.len() as int) =~= stem);
    assert(whole.skip(stem.len() + 1int) =~= extension);
    lemma_last_dot(name);
    if !name.contains('.') && last_dot(name) >= 0 {
        assert(name.contains(name[last_dot(name)]));
    }
    assert(name.take(name.len() as int) =~= name);
    let hidden = seq!['.'] + extension;
    lemma_dot_behind(Seq::empty(), extension);
    assert(Seq::<char>::empty() + seq!['.'] + extension =~= hidden);
    assert(hidden.take(hidden.len() as int) =~= hidden);
}

/// The extension and the stem of a path are those of its file name.
pub proof fn law_path_parts(path: Seq<char>)
    ensures
        file_name_of(path) is None ==> path_extension_of(path) is None && path_stem_of(path) is None,
        file_name_of(path) is Some ==> path_extension_of(path) == extension_of(
            file_name_of(path)->0,
        ) && path_stem_of(path) == Some(stem_of(file_name_of(path)->0)),
{
}

/// The folder of a file is what is before the `/` in front of its name: nothing
/// is left of a bare name, and the root of a file at the root.
pub proof fn law_folder(folder: Seq<char>, name: Seq<char>)
    requires
        name.len() > 0,
        !name.contains('/'),
        folder.len() > 0,
    ensures
        parent_of(folder + seq!['/'] + name) == Some(folder),
        parent_of(name) == Some(Seq::<char>::empty()),
        parent_of(seq!['/'] + name) == Some(seq!['/']),
        parent_of(Seq::empty()) is None,
{
    let head = folder + seq!['/'];
    lemma_name_start(head, name);
    assert((head + name).take(head.len() - 1) =~= folder);
    lemma_name_start(Seq::empty(), name);
    assert(Seq::<char>::empty() + name =~= name);
    assert(name.take(0) =~= Seq::empty());
    lemma_name_start(seq!['/'], name);
    assert((seq!['/'] + name).take(1) =~= seq!['/']);
}

/// Replacing the extension changes nothing but what follows the last dot of the
/// name: there the new one takes the place of the old one. Where there was none
/// a dot and the new one are added, and an empty one takes the dot away, too.
pub proof fn law_replaced_behind_the_dot(
    folder: Seq<char>,
    stem: Seq<char>,
    was: Seq<char>,
    extension: Seq<char>,
)
    requires
        folder.len() == 0 || folder.last() == '/',
        stem.len() > 0,
        !stem.contains('/'),
        !was.contains('/'),
        !was.contains('.'),
        stem != seq!['.'] || was.len() > 0,
    ensures
        extension.len() > 0 ==> extension_replaced(folder + stem + seq!['.'] + was, extension)
            == folder + stem + seq!['.'] + extension,
        extension_replaced(folder + stem + seq!['.'] + was, Seq::empty()) == folder + stem,
        extension.len() > 0 && !stem.contains('.') ==> extension_replaced(folder + stem, extension)
            == folder + stem + seq!['.'] + extension,
        !stem.contains('.') ==> extension_replaced(folder + stem, Seq::empty()) == folder + stem,
{
    let name = stem + seq!['.'] + was;
    let path = folder + stem + seq!['.'] + was;
    assert(path =~= folder + name);
    assert forall|i: int| 0 <= i < name.len() implies name[i] != '/' by {
        if i < stem.len() {
            assert(stem.contains(stem[i]));
        } else if i > stem.len() {
            assert(was.contains(was[i - stem.len() - 1]));
        }
    }
    lemma_name_start(folder, name);
    law_extension(name, stem, was);
    let start = folder.len() as int;
    assert(path.skip(start) =~= name);
    assert(path.take(start) =~= folder);
    assert(is_name(name)) by {
        if name.len() == 2 {
            if name == seq!['.', '.'] {
                assert(stem =~= seq!['.']);
            }
        }
    }
    if extension.len() > 0 {
        assert(extension_replaced(path, extension) =~= folder + stem + seq!['.'] + extension);
    }
    if !stem.contains('.') {
        lemma_name_start(folder, stem);
        law_extension(stem, stem, was);
        let bare = folder + stem;
        assert(bare.skip(start) =~= stem);
        assert(bare.take(start) =~= folder);
        assert(stem.contains(stem[0]));
        assert(is_name(stem));
        if extension.len() > 0 {
            assert(extension_replaced(bare, extension) =~= folder + stem + seq!['.'] + extension);
        }
    }
}

/// The size of a folder is that of all files in it and in the folders inside:
/// what is in two lists together is as large as both, a file counts with its
/// bytes, a folder with what is in it, unless it has one of the excluded names,
/// and anything else with nothing. It is told where it fits.
pub proof fn law_sizes_add_up(
    some: Seq<Item>,
    more: Seq<Item>,
    excluded: Set<Seq<char>>,
    bytes: u64,
    name: Option<String>,
    inner: Vec<Item>,
    size: nat,
)
    ensures
        items_size(some + more, excluded, (some + more).len()) == items_size(
            some,
            excluded,
            some.len(),
        ) + items_size(more, excluded, more.len()),
        items_size(seq![Item::File(bytes)], excluded, 1) == bytes,
        items_size(seq![Item::Other], excluded, 1) == 0,
        name is Some && excluded.contains(name->0@) ==> items_size(
            seq![Item::Folder(name, inner)],
            excluded,
            1,
        ) == 0,
        name is None || !excluded.contains(name->0@) ==> items_size(
            seq![Item::Folder(name, inner)],
            excluded,
            1,
        ) == items_size(inner@, excluded, inner@.len()),
        items_size(Seq::empty(), excluded, 0) == 0,
        size <= u64::MAX ==> size_if_fits(size) is Some && size_if_fits(size)->0 == size,
        size > u64::MAX ==> size_if_fits(size) is None,
    decreases more.len(),
{
    let all = some + more;
    lemma_one_size(Item::File(bytes), excluded);
    lemma_one_size(Item::Other, excluded);
    lemma_one_size(Item::Folder(name, inner), excluded);
    if more.len() == 0 {
        assert(all =~= some);
    } else {
        let less = more.drop_last();
        law_sizes_add_up(some, less, excluded, bytes, name, inner, size);
        lemma_same_start(some + less, all, excluded, (some + less).len());
        lemma_same_start(less, more, excluded, less.len());
        assert(all[all.len() - 1] == more[more.len() - 1]);
    }
}

/// The size of a single item.
proof fn lemma_one_size(item: Item, excluded: Set<Seq<char>>)
    ensures
        items_size(seq![item], excluded, 1) == item_size(item, excluded),
{
    assert(items_size(seq![item], excluded, 0) == 0);
}

/// Lists that start alike are equally large up to there.
proof fn lemma_same_start(a: Seq<Item>, b: Seq<Item>, excluded: Set<Seq<char>>, n: nat)
    requires
        n <= a.len() <= b.len(),
        forall|i: int| #![trigger a[i]] 0 <= i < n ==> a[i] == b[i],
    ensures
        items_size(a, excluded, n) == items_size(b, excluded, n),
    decreases n,
{
    if n > 0 {
        lemma_same_start(a, b, excluded, (n - 1) as nat);
        assert(a[n - 1] == b[n - 1]);
    }
}

/// The files that are listed are exactly those entries that are files and have
/// the wanted extension, given with or without its dot, in their order.
pub proof fn law_files_listed(entries: Seq<(String, bool)>, wanted: Seq<char>)
    ensures
        files_with(entries, wanted, entries.len()) == entries.filter(
            |entry: (String, bool)|
                entry.1 && path_extension_of(entry.0@) is Some && (path_extension_of(entry.0@)->0
                    == wanted || seq!['.'] + path_extension_of(entry.0@)->0 == wanted),
        ).map_values(|entry: (String, bool)| entry.0@),
{
    lemma_files_listed(entries, wanted, entries.len());
    assert(entries.take(entries.len() as int) =~= entries);
}

proof fn lemma_files_listed(entries: Seq<(String, bool)>, wanted: Seq<char>, n: nat)
    requires
        n <= entries.len(),
    ensures
        files_with(entries, wanted, n) == entries.take(n as int).filter(
            |entry: (String, bool)|
                entry.1 && path_extension_of(entry.0@) is Some && (path_extension_of(entry.0@)->0
                    == wanted || seq!['.'] + path_extension_of(entry.0@)->0 == wanted),
        ).map_values(|entry: (String, bool)| entry.0@),
    decreases n,
{
    let listed = |entry: (String, bool)|
        entry.1 && path_extension_of(entry.0@) is Some && (path_extension_of(entry.0@)->0 == wanted
            || seq!['.'] + path_extension_of(entry.0@)->0 == wanted);
    let path = |entry: (String, bool)| entry.0@;
    reveal(Seq::filter);
    let all = entries.take(n as int);
    if n == 0 {
        assert(all.filter(listed).map_values(path) =~= Seq::empty());
    } else {
        let less = entries.take(n - 1);
        lemma_files_listed(entries, wanted, (n - 1) as nat);
        assert(all.drop_last() =~= less);
        assert(all.last() == entries[n - 1]);
        if listed(entries[n - 1]) {
            assert(all.filter(listed) == less.filter(listed).push(entries[n - 1]));
            assert(all.filter(listed).map_values(path) =~= less.filter(listed).map_values(
                path,
            ).push(path(entries[n - 1])));
        }
    }
}

/// A text falls into lines at its line feeds: what is before the first one is
/// the first line, without a carriage return at its end, and the other lines are
/// those of what follows. What no line feed ends is a line if it is not empty.
pub proof fn law_lines(line: Seq<char>, rest: Seq<char>)
    requires
        !line.contains('\n'),
    ensures
        line.len() == 0 || line.last() != '\r' ==> lines_of(line + seq!['\n'] + rest) == seq![line]
            + lines_of(rest),
        lines_of(line + seq!['\r'] + seq!['\n'] + rest) == seq![line] + lines_of(rest),
        line.len() > 0 ==> lines_of(line) == seq![line],
        lines_of(Seq::empty()).len() == 0,
{
    let text = line + seq!['\n'] + rest;
    assert forall|i: int| #![trigger line[i]] 0 <= i < line.len() implies line[i] != '\n' by {
        assert(line.contains(line[i]));
    }
    assert forall|i: int| #![trigger text[i]] 0 <= i < line.len() implies text[i] != '\n' by {
        assert(text[i] == line[i]);
    }
    lemma_line_end(text, line.len() as int);
    assert(text.take(line.len() as int) =~= line);
    assert(text.skip(line.len() + 1int) =~= rest);
    let other = line + seq!['\r'] + seq!['\n'] + rest;
    let n = line.len() + 1int;
    assert forall|i: int| #![trigger other[i]] 0 <= i < n implies other[i] != '\n' by {
        if i < line.len() {
            assert(other[i] == line[i]);
        }
    }
    lemma_line_end(other, n);
    assert(other.take(n) =~= line + seq!['\r']);
    assert((line + seq!['\r']).drop_last() =~= line);
    assert(other.skip(n + 1) =~= rest);
    lemma_line_end(line, line.len() as int);
}

/// The lines that are kept are exactly those that do not start with `//`, in
/// their order.
pub proof fn law_comments_left_out(lines: Seq<Seq<char>>)
    ensures
        no_comments(lines) == lines.filter(
            |line: Seq<char>| !(line.len() >= 2 && line[0] == '/' && line[1] == '/'),
        ),
    decreases lines.len(),
{
    let keep = |line: Seq<char>| !(line.len() >= 2 && line[0] == '/' && line[1] == '/');
    reveal(Seq::filter);
    if lines.len() > 0 {
        let rest = lines.drop_first();
        law_comments_left_out(rest);
        rest.lemma_filter_prepend(lines[0], keep);
        assert(seq![lines[0]] + rest =~= lines);
    }
}

/// The character data among some pieces of a document, in one text.
pub open spec fn text_in(pieces: Seq<PieceView>) -> Seq<char> {
    pieces.map_values(
        |piece: PieceView|
            match piece {
                PieceView::Text(text) => text,
                _ => Seq::empty(),
            },
    ).flatten()
}

/// Nothing ends the element among the first `n` pieces.
pub open spec fn none_ends(pieces: Seq<PieceView>, target: Seq<char>, n: int) -> bool {
    forall|i: int| #![trigger pieces[i]] 0 <= i < n ==> pieces[i] != PieceView::End(target)
}

/// Nothing starts the element among the pieces from `start` up to `n`.
pub open spec fn none_starts(pieces: Seq<PieceView>, target: Seq<char>, start: int, n: int) -> bool {
    forall|i: int| #![trigger pieces[i]] start <= i < n ==> pieces[i] != PieceView::Start(target)
}

proof fn lemma_text_in(piece: PieceView, rest: Seq<PieceView>)
    ensures
        text_in(seq![piece] + rest) == (match piece {
            PieceView::Text(text) => text,
            _ => Seq::empty(),
        }) + text_in(rest),
{
    let shown = |piece: PieceView|
        match piece {
            PieceView::Text(text) => text,
            _ => Seq::<char>::empty(),
        };
    let all = (seq![piece] + rest).map_values(shown);
    assert(all.drop_first() =~= rest.map_values(shown));
    assert(all.first() == shown(piece));
}

/// The text of an element is all character data between the first end tag of
/// its name and the last start tag of its name before that; where there is no
/// start tag, all from the beginning. Without an end tag there is no text.
pub proof fn law_element_text(pieces: Seq<PieceView>, target: Seq<char>, start: int, end: int)
    requires
        0 <= end < pieces.len(),
        pieces[end] == PieceView::End(target),
        none_ends(pieces, target, end),
        -1 <= start < end,
        start >= 0 ==> pieces[start] == PieceView::Start(target),
        none_starts(pieces, target, start + 1, end),
    ensures
        node_text(pieces, target, Seq::empty()) == Some(text_in(pieces.subrange(start + 1, end))),
{
    lemma_element_text(pieces, target, Seq::empty(), start, end);
    assert(Seq::<char>::empty() + text_in(pieces.subrange(0, end)) =~= text_in(
        pieces.subrange(0, end),
    ));
}

/// A document without an end tag of that name has no text for it.
pub proof fn law_no_element_text(pieces: Seq<PieceView>, target: Seq<char>, so_far: Seq<char>)
    requires
        none_ends(pieces, target, pieces.len() as int),
    ensures
        node_text(pieces, target, so_far) is None,
    decreases pieces.len(),
{
    if pieces.len() > 0 {
        let rest = pieces.drop_first();
        assert(pieces[0] != PieceView::End(target));
        assert forall|i: int| #![trigger rest[i]] 0 <= i < rest.len() implies rest[i]
            != PieceView::End(target) by {
            assert(rest[i] == pieces[i + 1]);
        }
        match pieces[0] {
            PieceView::Start(name) => {
                law_no_element_text(rest, target, Seq::empty());
                law_no_element_text(rest, target, so_far);
            },
            PieceView::Text(text) => {
                law_no_element_text(rest, target, so_far + text);
            },
            _ => {
                law_no_element_text(rest, target, so_far);
            },
        }
    }
}

proof fn lemma_element_text(
    pieces: Seq<PieceView>,
    target: Seq<char>,
    so_far: Seq<char>,
    start: int,
    end: int,
)
    requires
        0 <= end < pieces.len(),
        pieces[end] == PieceView::End(target),
        none_ends(pieces, target, end),
        -1 <= start < end,
        start >= 0 ==> pieces[start] == PieceView::Start(target),
        none_starts(pieces, target, start + 1, end),
    ensures
        node_text(pieces, target, so_far) == Some(
            if start >= 0 {
                text_in(pieces.subrange(start + 1, end))
            } else {
                so_far + text_in(pieces.subrange(0, end))
            },
        ),
    decreases pieces.len(),
{
    let rest = pieces.drop_first();
    if end == 0 {
        assert(pieces.subrange(0, 0) =~= Seq::empty());
        assert(text_in(Seq::empty()) =~= Seq::empty()) by {
            reveal_with_fuel(Seq::<_>::flatten, 2);
        }
        assert(so_far + text_in(Seq::empty()) =~= so_far);
    } else {
        assert(pieces[0] != PieceView::End(target));
        assert(rest[end - 1] == pieces[end]);
        assert forall|i: int| #![trigger rest[i]] 0 <= i < end - 1 implies rest[i]
            != PieceView::End(target) by {
            assert(rest[i] == pieces[i + 1]);
        }
        let (next, from) = (
            match pieces[0] {
                PieceView::Start(name) => if name == target {
                    Seq::empty()
                } else {
                    so_far
                },
                PieceView::Text(text) => so_far + text,
                _ => so_far,
            },
            if start >= 1 {
                start - 1
            } else {
                -1
            },
        );
        if start >= 1 {
            assert(rest[start - 1] == pieces[start]);
        }
        assert forall|i: int| #![trigger rest[i]] from + 1 <= i < end - 1 implies rest[i]
            != PieceView::Start(target) by {
            assert(rest[i] == pieces[i + 1]);
        }
        lemma_element_text(rest, target, next, from, end - 1);
        if start >= 1 {
            assert(rest.subrange(start, end - 1) =~= pieces.subrange(start + 1, end));
        } else {
            let part = rest.subrange(0, end - 1);
            assert(part =~= pieces.subrange(1, end));
            if start == 0 {
                assert(Seq::<char>::empty() + text_in(part) =~= text_in(part));
            } else {
                assert(pieces[0] != PieceView::Start(target));
                lemma_text_in(pieces[0], part);
                assert(seq![pieces[0]] + part =~= pieces.subrange(0, end));
                assert(so_far + text_in(pieces.subrange(0, end)) =~= next + text_in(part));
            }
        }
    }
}

/// A folder is left out exactly if it has a name that is on the list.
pub proof fn law_excluded(name: Option<&str>, names: Seq<&str>)
    ensures
        left_out(slice_text(name), names_in(names)) <==> name is Some && exists|i: int|
            0 <= i < names.len() && #[trigger] names[i]@ == name->0@,
{
}

/// However many `/` and `/.` a path ends in, its file name is the same.
pub proof fn law_trailing_slash(path: Seq<char>)
    ensures
        file_name_of(path + seq!['/']) == file_name_of(path),
        file_name_of(path + seq!['/', '.']) == file_name_of(path),
{
    let (slashed, dotted) = (path + seq!['/'], path + seq!['/', '.']);
    assert(slashed.drop_last() =~= path);
    assert(dotted.last() == '.' && dotted[dotted.len() - 2] == '/');
    assert(dotted.take(dotted.len() - 2) =~= path);
}

/// A path in a folder: an absolute one stays, and so does one in a folder
/// without a name; any other is put behind the folder, with one separator between
/// the two.
pub proof fn law_joined(folder: Seq<char>, file: Seq<char>, path: Seq<char>)
    requires
        file.len() > 0,
        is_joined(folder, file, path),
    ensures
        file[0] == '/' || folder.len() == 0 ==> path == file,
        file[0] != '/' && folder.len() > 0 ==> {
            &&& path.take(folder.len() as int) == folder
            &&& path.skip(path.len() - file.len()) == file
            &&& folder.last() == '/' ==> path.len() == folder.len() + file.len()
            &&& folder.last() != '/' ==> path.len() == folder.len() + 1 + file.len()
                && (path[folder.len() as int] == '/' || path[folder.len() as int] == '\\')
        },
{
    if file[0] != '/' && folder.len() > 0 {
        assert(path.take(folder.len() as int) =~= folder);
        assert(path.skip(path.len() - file.len()) =~= file);
    }
}

/// A wanted extension may be given with or without its dot.
pub proof fn law_wanted_extension(extension: Option<Seq<char>>, wanted: Seq<char>)
    ensures
        has_extension(extension, wanted) <==> extension is Some && (wanted == extension->0
            || wanted.len() > 0 && wanted[0] == '.' && wanted.drop_first() == extension->0),
{
    if extension is Some {
        let own = extension->0;
        assert((seq!['.'] + own).drop_first() =~= own);
        if wanted.len() > 0 && wanted[0] == '.' && wanted.drop_first() == own {
            assert(wanted =~= seq!['.'] + own);
        }
    }
}

} // verus!
