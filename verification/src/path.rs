//! Paths as sequences of components, as Unix systems read them.
use crate::bytes::{
    append_bytes, are_bytes_of, byte_pieces, bytes_of, copied, from_utf8_lossy, lossy_text,
    same_bytes,
};
use crate::text::{join, lemma_views_push, option_view, pieces_come_in_order, split_on, views};
use vstd::prelude::*;
use vstd::utf8::encode_utf8;

verus! {

/// `/`, which separates components and stands for the root.
pub const SLASH: u8 = 0x2f;

/// `.`, which sets off extensions and stands for the directory itself.
pub const DOT: u8 = 0x2e;

/// A path: the bytes of its components, with `/` first if it is absolute.
#[derive(Debug, PartialEq, Eq)]
pub struct FilePath {
    pub components: Vec<Vec<u8>>,
}

/// The components of a path.
pub type PathView = Seq<Seq<u8>>;

impl View for FilePath {
    type V = PathView;

    open spec fn view(&self) -> PathView {
        views(self.components@)
    }
}

impl Clone for FilePath {
    fn clone(&self) -> (r: Self)
        ensures
            r@ == self@,
    {
        let mut components: Vec<Vec<u8>> = Vec::new();
        let mut i: usize = 0;
        while i < self.components.len()
            invariant
                i <= self.components@.len(),
                components@.len() == i,
                forall|j: int| 0 <= j < i ==> components@[j]@ == self.components@[j]@,
            decreases self.components@.len() - i,
        {
            components.push(copied(&self.components[i]));
            i = i + 1;
        }
        assert(views(components@) =~= self@);
        FilePath { components }
    }
}

/// The component that stands for the root of the file system.
pub open spec fn root_component() -> Seq<u8> {
    seq![SLASH]
}

/// The component that stands for the directory itself.
pub open spec fn here() -> Seq<u8> {
    seq![DOT]
}

/// The path starts at the root of the file system.
pub open spec fn is_absolute(p: PathView) -> bool {
    p.len() > 0 && p[0] == root_component()
}

/// The component names a file or a directory.
pub open spec fn is_plain(component: Seq<u8>) -> bool {
    component != root_component() && component != here() && component != seq![DOT, DOT]
}

/// The path without its last component; none for the root and for the empty path.
pub open spec fn parent(p: PathView) -> Option<PathView> {
    if p.len() == 0 || p.last() == root_component() {
        None
    } else {
        Some(p.drop_last())
    }
}

/// The last component, if it names a file or a directory.
pub open spec fn file_name(p: PathView) -> Option<Seq<u8>> {
    if p.len() > 0 && is_plain(p.last()) {
        Some(p.last())
    } else {
        None
    }
}

/// The last dot among the first `n` bytes of a file name.
pub open spec fn dot_before(name: Seq<u8>, n: int) -> Option<int>
    decreases n,
{
    if n <= 0 {
        None
    } else if name[n - 1] == DOT {
        Some(n - 1)
    } else {
        dot_before(name, n - 1)
    }
}

/// The place of the dot that sets off the extension: the last one, if it is not the first byte.
pub open spec fn extension_dot(name: Seq<u8>) -> Option<int> {
    match dot_before(name, name.len() as int) {
        Some(i) => if i == 0 {
            None
        } else {
            Some(i)
        },
        None => None,
    }
}

/// A file name without its extension.
pub open spec fn stem(name: Seq<u8>) -> Seq<u8> {
    match extension_dot(name) {
        Some(i) => name.take(i),
        None => name,
    }
}

/// The extension of a file name.
pub open spec fn extension(name: Seq<u8>) -> Option<Seq<u8>> {
    match extension_dot(name) {
        Some(i) => Some(name.skip(i + 1)),
        None => None,
    }
}

/// `base` is `p` itself or a directory above it.
pub open spec fn is_under(p: PathView, base: PathView) -> bool {
    base.len() <= p.len() && p.take(base.len() as int) == base
}

/// The components that bytes name.
pub open spec fn names_in(bytes: Seq<u8>) -> PathView {
    split_on(bytes, SLASH).filter(|name: Seq<u8>| name.len() > 0 && name != here())
}

/// The path that `bytes` name, seen from `p`.
pub open spec fn appended(p: PathView, bytes: Seq<u8>) -> PathView {
    if bytes.len() > 0 && bytes[0] == SLASH {
        seq![root_component()] + names_in(bytes)
    } else if p.len() == 0 && split_on(bytes, SLASH)[0] == here() {
        seq![here()] + names_in(bytes)
    } else {
        p + names_in(bytes)
    }
}

/// The path with its file name's extension replaced by `py`.
pub open spec fn with_py(p: PathView) -> PathView {
    match file_name(p) {
        Some(name) => p.drop_last().push(stem(name) + encode_utf8(".py"@)),
        None => p,
    }
}

/// The bytes that name a path.
pub open spec fn path_bytes(p: PathView) -> Seq<u8> {
    if is_absolute(p) {
        seq![SLASH] + join(p.skip(1), seq![SLASH])
    } else {
        join(p, seq![SLASH])
    }
}

/// A path as text.
pub open spec fn path_text(p: PathView) -> Seq<char> {
    lossy_text(path_bytes(p))
}

/// Directories that hold no sources of the project.
pub open spec fn is_skipped(name: Seq<u8>) -> bool {
    name == encode_utf8(".git"@) || name == encode_utf8(".venv"@) || name == encode_utf8("venv"@)
        || name == encode_utf8("__pycache__"@)
}

fn is_root(component: &Vec<u8>) -> (r: bool)
    ensures
        r == (component@ == root_component()),
{
    let same: bool = component.len() == 1 && component[0] == SLASH;
    assert(same ==> component@ =~= root_component());
    same
}

fn is_here(component: &Vec<u8>) -> (r: bool)
    ensures
        r == (component@ == here()),
{
    let same: bool = component.len() == 1 && component[0] == DOT;
    assert(same ==> component@ =~= here());
    same
}

fn is_above(component: &Vec<u8>) -> (r: bool)
    ensures
        r == (component@ == seq![DOT, DOT]),
{
    let same: bool = component.len() == 2 && component[0] == DOT && component[1] == DOT;
    assert(same ==> component@ =~= seq![DOT, DOT]);
    same
}

/// Whether two paths are the same.
pub fn same_path(a: &FilePath, b: &FilePath) -> (r: bool)
    ensures
        r == (a@ == b@),
{
    if a.components.len() != b.components.len() {
        assert(a@.len() != b@.len());
        return false;
    }
    let mut i: usize = 0;
    while i < a.components.len()
        invariant
            i <= a.components@.len(),
            a.components@.len() == b.components@.len(),
            forall|j: int| 0 <= j < i ==> a@[j] == b@[j],
        decreases a.components@.len() - i,
    {
        if !same_bytes(&a.components[i], &b.components[i]) {
            assert(a@[i as int] != b@[i as int]);
            return false;
        }
        i = i + 1;
    }
    assert(a@ =~= b@);
    true
}

/// Whether a directory of this name is left out when a project is read.
pub fn is_skipped_directory(name: &Vec<u8>) -> (r: bool)
    ensures
        r == is_skipped(name@),
{
    are_bytes_of(name, ".git") || are_bytes_of(name, ".venv") || are_bytes_of(name, "venv")
        || are_bytes_of(name, "__pycache__")
}

/// The place of the dot before a file name's extension.
pub fn extension_dot_of(name: &Vec<u8>) -> (r: Option<usize>)
    ensures
        extension_dot(name@) == (match r {
            Some(i) => Some(i as int),
            None => None,
        }),
        r matches Some(i) ==> i < name.len(),
{
    let mut n: usize = name.len();
    while n > 0
        invariant
            n <= name@.len(),
            dot_before(name@, name@.len() as int) == dot_before(name@, n as int),
        decreases n,
    {
        if name[n - 1] == DOT {
            return if n == 1 {
                None
            } else {
                Some(n - 1)
            };
        }
        n = n - 1;
    }
    None
}

fn part_of(bytes: &Vec<u8>, start: usize, end: usize) -> (r: Vec<u8>)
    requires
        start <= end <= bytes@.len(),
    ensures
        r@ == bytes@.subrange(start as int, end as int),
{
    let mut out: Vec<u8> = Vec::new();
    let mut i: usize = start;
    assert(out@ =~= bytes@.subrange(start as int, i as int));
    while i < end
        invariant
            start <= i <= end <= bytes@.len(),
            out@ == bytes@.subrange(start as int, i as int),
        decreases end - i,
    {
        out.push(bytes[i]);
        i = i + 1;
        assert(out@ =~= bytes@.subrange(start as int, i as int));
    }
    out
}

impl FilePath {
    /// The path that a text names.
    pub fn parse(text: &str) -> (r: FilePath)
        ensures
            r@ == appended(Seq::empty(), encode_utf8(text@)),
    {
        FilePath::parse_bytes(&bytes_of(text))
    }

    /// The path that bytes name.
    pub fn parse_bytes(bytes: &Vec<u8>) -> (r: FilePath)
        ensures
            r@ == appended(Seq::empty(), bytes@),
    {
        let mut path: FilePath = FilePath { components: Vec::new() };
        assert(path@ =~= Seq::<Seq<u8>>::empty());
        path.append(bytes);
        path
    }

    /// Goes on from this path to what bytes name.
    pub fn append(&mut self, bytes: &Vec<u8>)
        ensures
            final(self)@ == appended(old(self)@, bytes@),
    {
        let ghost base = self@;
        let ghost keep = |name: Seq<u8>| name.len() > 0 && name != here();
        let names: Vec<Vec<u8>> = byte_pieces(bytes, SLASH);
        let ghost all = split_on(bytes@, SLASH);
        proof {
            assert(all.take(0).filter(keep) =~= Seq::<Seq<u8>>::empty()) by {
                reveal(Seq::filter);
            }
        }
        assert(names@[0]@ == all[0]);
        let mut out: Vec<Vec<u8>> = Vec::new();
        let ghost start: PathView = if bytes@.len() > 0 && bytes@[0] == SLASH {
            seq![root_component()]
        } else if base.len() == 0 && all[0] == here() {
            seq![here()]
        } else {
            base
        };
        if bytes.len() > 0 && bytes[0] == SLASH {
            let root: Vec<u8> = vec![SLASH];
            assert(root@ =~= root_component());
            out.push(root);
            assert(views(out@) =~= start);
        } else if self.components.len() == 0 && is_here(&names[0]) {
            let dot: Vec<u8> = vec![DOT];
            assert(dot@ =~= here());
            out.push(dot);
            assert(views(out@) =~= start);
        } else {
            std::mem::swap(&mut out, &mut self.components);
            assert(views(out@) =~= start);
        }
        let mut i: usize = 0;
        assert(start =~= start + all.take(0).filter(keep));
        while i < names.len()
            invariant
                i <= names@.len(),
                all == views(names@),
                keep == (|name: Seq<u8>| name.len() > 0 && name != here()),
                views(out@) == start + all.take(i as int).filter(keep),
            decreases names@.len() - i,
        {
            let name: Vec<u8> = copied(&names[i]);
            proof {
                reveal(Seq::filter);
                assert(all.take(i + 1).drop_last() =~= all.take(i as int));
                assert(all.take(i + 1).last() == name@);
                lemma_views_push(out@, name);
            }
            if name.len() > 0 && !is_here(&name) {
                out.push(name);
            }
            assert(views(out@) =~= start + all.take(i + 1).filter(keep));
            i = i + 1;
        }
        assert(all.take(all.len() as int) =~= all);
        self.components = out;
    }

    /// The file of this name in this directory.
    pub fn child(&self, name: &str) -> (r: FilePath)
        ensures
            r@ == self@.push(encode_utf8(name@)),
    {
        let mut path: FilePath = self.clone();
        let component: Vec<u8> = bytes_of(name);
        proof {
            lemma_views_push(path.components@, component);
        }
        path.components.push(component);
        path
    }

    /// The path above this one.
    pub fn parent(&self) -> (r: Option<FilePath>)
        ensures
            option_view(r) == parent(self@),
    {
        let n: usize = self.components.len();
        if n == 0 || is_root(&self.components[n - 1]) {
            return None;
        }
        let mut path: FilePath = self.clone();
        let ghost whole = path@;
        path.components.pop();
        assert(path@ =~= whole.drop_last());
        Some(path)
    }

    /// The name of the file or directory that the path ends in.
    pub fn file_name(&self) -> (r: Option<Vec<u8>>)
        ensures
            option_view(r) == file_name(self@),
    {
        let n: usize = self.components.len();
        if n == 0 {
            return None;
        }
        let last: &Vec<u8> = &self.components[n - 1];
        if is_root(last) || is_here(last) || is_above(last) {
            None
        } else {
            Some(copied(last))
        }
    }

    /// The file name without its extension.
    pub fn file_stem(&self) -> (r: Option<Vec<u8>>)
        ensures
            option_view(r) == (match file_name(self@) {
                Some(name) => Some(stem(name)),
                None => None,
            }),
    {
        match self.file_name() {
            Some(name) => match extension_dot_of(&name) {
                Some(i) => {
                    assert(name@.subrange(0, i as int) =~= name@.take(i as int));
                    Some(part_of(&name, 0, i))
                },
                None => Some(name),
            },
            None => None,
        }
    }

    /// The extension of the file name.
    pub fn extension(&self) -> (r: Option<Vec<u8>>)
        ensures
            option_view(r) == (match file_name(self@) {
                Some(name) => extension(name),
                None => None,
            }),
    {
        match self.file_name() {
            Some(name) => match extension_dot_of(&name) {
                Some(i) => {
                    assert(name@.subrange(i + 1, name@.len() as int) =~= name@.skip(i + 1));
                    Some(part_of(&name, i + 1, name.len()))
                },
                None => None,
            },
            None => None,
        }
    }

    /// Gives the file name the extension `py`.
    pub fn set_py_extension(&mut self)
        ensures
            final(self)@ == with_py(old(self)@),
    {
        match self.file_stem() {
            Some(stem) => {
                let ghost whole = self@;
                let mut name: Vec<u8> = stem;
                append_bytes(&mut name, &bytes_of(".py"));
                self.components.pop();
                assert(self@ =~= whole.drop_last());
                proof {
                    lemma_views_push(self.components@, name);
                }
                self.components.push(name);
            },
            None => {},
        }
    }

    /// Whether the path is `base` or lies under it.
    pub fn starts_with(&self, base: &FilePath) -> (r: bool)
        ensures
            r == is_under(self@, base@),
    {
        if base.components.len() > self.components.len() {
            return false;
        }
        let mut i: usize = 0;
        while i < base.components.len()
            invariant
                i <= base.components@.len(),
                base.components@.len() <= self.components@.len(),
                forall|j: int| 0 <= j < i ==> self@[j] == base@[j],
            decreases base.components@.len() - i,
        {
            if !same_bytes(&self.components[i], &base.components[i]) {
                assert(self@.take(base@.len() as int)[i as int] != base@[i as int]);
                return false;
            }
            i = i + 1;
        }
        assert(self@.take(base@.len() as int) =~= base@);
        true
    }

    /// Whether the path starts at the root of the file system.
    pub fn is_absolute(&self) -> (r: bool)
        ensures
            r == is_absolute(self@),
    {
        self.components.len() > 0 && is_root(&self.components[0])
    }

    /// The bytes that name the path.
    pub fn bytes(&self) -> (r: Vec<u8>)
        ensures
            r@ == path_bytes(self@),
    {
        let absolute: bool = self.is_absolute();
        let first: usize = if absolute {
            1
        } else {
            0
        };
        let mut out: Vec<u8> = Vec::new();
        if absolute {
            out.push(SLASH);
        }
        let ghost head = out@;
        let ghost rest = self@.skip(first as int);
        let mut i: usize = first;
        assert(head =~= head + join(rest.take(0), seq![SLASH]));
        while i < self.components.len()
            invariant
                first <= i <= self.components@.len(),
                rest == self@.skip(first as int),
                out@ == head + join(rest.take(i - first), seq![SLASH]),
            decreases self.components@.len() - i,
        {
            let ghost n = i - first;
            let ghost before = out@;
            assert(rest.take(n + 1).drop_last() =~= rest.take(n));
            assert(rest.take(n + 1).last() == self.components@[i as int]@);
            if i > first {
                out.push(SLASH);
            }
            append_bytes(&mut out, &self.components[i]);
            assert(out@ =~= head + join(rest.take(n + 1), seq![SLASH]));
            i = i + 1;
        }
        assert(rest.take(rest.len() as int) =~= rest);
        assert(head == if absolute {
            seq![SLASH]
        } else {
            Seq::<u8>::empty()
        });
        assert(out@ =~= path_bytes(self@)) by {
            assert(self@.skip(0) =~= self@);
        }
        out
    }

    /// The path as text.
    pub fn display(&self) -> (r: String)
        ensures
            r@ == path_text(self@),
    {
        from_utf8_lossy(&self.bytes())
    }
}

proof fn lemma_last_dot_of(name: Seq<u8>, i: int, n: int)
    requires
        0 <= i < n <= name.len(),
        name[i] == DOT,
        forall|k: int| i < k < n ==> #[trigger] name[k] != DOT,
    ensures
        dot_before(name, n) == Some(i),
    decreases n,
{
    if i < n - 1 {
        assert(name[n - 1] != DOT);
        lemma_last_dot_of(name, i, n - 1);
    }
}

proof fn lemma_no_dot_of(name: Seq<u8>, n: int)
    requires
        0 <= n <= name.len(),
        forall|k: int| 0 < k < n ==> #[trigger] name[k] != DOT,
    ensures
        dot_before(name, n) matches Some(i) ==> i == 0,
    decreases n,
{
    if n > 1 {
        assert(name[n - 1] != DOT);
        lemma_no_dot_of(name, n - 1);
    } else {
        assert(dot_before(name, 0) is None);
    }
}

/// The extension of a name is what follows its last dot, and its stem what precedes it. A name
/// without a dot behind its first byte has no extension, and is its own stem.
pub proof fn names_end_in_their_extension(head: Seq<u8>, end: Seq<u8>)
    ensures
        head.len() > 0 && !end.contains(DOT) ==> extension(head + seq![DOT] + end) == Some(end)
            && stem(head + seq![DOT] + end) == head,
        (forall|k: int| 0 < k < head.len() ==> #[trigger] head[k] != DOT) ==> extension(head)
            is None && stem(head) == head,
{
    let name = head + seq![DOT] + end;
    if head.len() > 0 && !end.contains(DOT) {
        let i = head.len() as int;
        assert(name[i] == DOT);
        assert forall|k: int| i < k < name.len() implies #[trigger] name[k] != DOT by {
            assert(name[k] == end[k - i - 1]);
        }
        lemma_last_dot_of(name, i, name.len() as int);
        assert(name.skip(i + 1) =~= end);
        assert(name.take(i) =~= head);
    }
    if forall|k: int| 0 < k < head.len() ==> #[trigger] head[k] != DOT {
        lemma_no_dot_of(head, head.len() as int);
    }
}

/// A name in a directory: the directory is above it, the name is its file name, and it lies under
/// the directory and under whatever the directory lies under.
pub proof fn names_lie_in_their_directory(dir: PathView, name: Seq<u8>, base: PathView)
    ensures
        name != seq![SLASH] ==> parent(dir.push(name)) == Some(dir),
        name == seq![SLASH] ==> parent(dir.push(name)) is None,
        file_name(dir.push(name)) == (if name == seq![SLASH] || name == seq![DOT] || name == seq![
            DOT,
            DOT,
        ] {
            None
        } else {
            Some(name)
        }),
        parent(Seq::empty()) is None,
        file_name(Seq::empty()) is None,
        is_under(dir.push(name), dir),
        is_under(dir, dir),
        is_under(dir, base) ==> is_under(dir.push(name), base),
        is_under(dir, dir.push(name)) ==> false,
{
    let path = dir.push(name);
    assert(path.drop_last() =~= dir);
    assert(path.take(dir.len() as int) =~= dir);
    assert(dir.take(dir.len() as int) =~= dir);
    if is_under(dir, base) {
        assert(path.take(base.len() as int) =~= dir.take(base.len() as int));
    }
}

/// A path lies under another exactly if it starts with all of its components.
pub proof fn paths_lie_under_their_starts(p: PathView, base: PathView)
    ensures
        is_under(p, base) <==> base.len() <= p.len() && forall|i: int|
            0 <= i < base.len() ==> #[trigger] p[i] == base[i],
{
    if base.len() <= p.len() {
        let head = p.take(base.len() as int);
        if forall|i: int| 0 <= i < base.len() ==> #[trigger] p[i] == base[i] {
            assert(head =~= base);
        }
        if head == base {
            assert forall|i: int| 0 <= i < base.len() implies #[trigger] p[i] == base[i] by {
                assert(head[i] == p[i]);
            }
        }
    }
}

/// The components that bytes name are those before a slash and then those behind it. Between
/// slashes stands one component, unless there is nothing or a single dot.
pub proof fn components_stand_between_slashes(a: Seq<u8>, b: Seq<u8>)
    ensures
        names_in(a + seq![SLASH] + b) == names_in(a) + names_in(b),
        !a.contains(SLASH) ==> names_in(a) == (if a.len() == 0 || a == seq![DOT] {
            Seq::empty()
        } else {
            seq![a]
        }),
{
    let keep = |name: Seq<u8>| name.len() > 0 && name != here();
    pieces_come_in_order(a, b, SLASH);
    Seq::filter_distributes_over_add(split_on(a, SLASH), split_on(b, SLASH), keep);
    if !a.contains(SLASH) {
        let one = seq![a];
        reveal(Seq::filter);
        assert(one.drop_last() =~= Seq::<Seq<u8>>::empty());
        assert(one.drop_last().filter(keep) =~= Seq::<Seq<u8>>::empty());
        assert(one.last() == a);
        assert(one.filter(keep) =~= (if a.len() == 0 || a == seq![DOT] {
            Seq::empty()
        } else {
            seq![a]
        }));
    }
}

/// Bytes that start with a slash name a path from the root, whatever they are seen from; others go
/// on from where they are seen.
pub proof fn bytes_name_paths(p: PathView, bytes: Seq<u8>)
    ensures
        appended(p, seq![SLASH] + bytes) == seq![seq![SLASH]] + names_in(bytes),
        p.len() > 0 && (bytes.len() == 0 || bytes[0] != SLASH) ==> appended(p, bytes) == p
            + names_in(bytes),
        bytes.len() > 0 && !bytes.contains(SLASH) && bytes != seq![DOT] ==> appended(p, bytes)
            == p.push(bytes),
{
    let none = Seq::<u8>::empty();
    components_stand_between_slashes(none, bytes);
    assert(none + seq![SLASH] + bytes =~= seq![SLASH] + bytes);
    assert(names_in(none) + names_in(bytes) =~= names_in(bytes));
    if bytes.len() > 0 && !bytes.contains(SLASH) && bytes != seq![DOT] {
        components_stand_between_slashes(bytes, none);
        pieces_come_in_order(bytes, none, SLASH);
        assert(bytes[0] != SLASH) by {
            if bytes[0] == SLASH {
                assert(bytes.contains(SLASH));
            }
        }
        assert(split_on(bytes, SLASH)[0] == bytes);
        assert(p + seq![bytes] =~= p.push(bytes));
    }
}

/// A file name without a dot gets `.py` behind it; what stands behind the last dot is replaced.
pub proof fn python_files_get_their_extension(dir: PathView, head: Seq<u8>, end: Seq<u8>)
    requires
        is_plain(head),
    ensures
        !head.contains(DOT) ==> with_py(dir.push(head)) == dir.push(head + encode_utf8(".py"@)),
        head.len() > 0 && !end.contains(DOT) && is_plain(head + seq![DOT] + end) ==> with_py(
            dir.push(head + seq![DOT] + end),
        ) == dir.push(head + encode_utf8(".py"@)),
{
    names_lie_in_their_directory(dir, head, dir);
    names_lie_in_their_directory(dir, head + seq![DOT] + end, dir);
    names_end_in_their_extension(head, end);
    assert(dir.push(head).drop_last() =~= dir);
    assert(dir.push(head + seq![DOT] + end).drop_last() =~= dir);
    if !head.contains(DOT) {
        assert forall|k: int| 0 < k < head.len() implies #[trigger] head[k] != DOT by {
            if head[k] == DOT {
                assert(head.contains(DOT));
            }
        }
    }
}

/// The component is one that bytes can name: it is there, holds no slash, and is no single dot.
pub open spec fn is_named(component: Seq<u8>) -> bool {
    component.len() > 0 && !component.contains(SLASH) && component != seq![DOT]
}

proof fn lemma_names_of_joined(names: PathView)
    requires
        forall|i: int| 0 <= i < names.len() ==> is_named(#[trigger] names[i]),
    ensures
        names_in(join(names, seq![SLASH])) == names,
    decreases names.len(),
{
    let none = Seq::<u8>::empty();
    if names.len() == 0 {
        components_stand_between_slashes(none, none);
        assert(names =~= Seq::<Seq<u8>>::empty());
    } else {
        let fewer = names.drop_last();
        let last = names.last();
        assert(last == names[names.len() - 1]);
        components_stand_between_slashes(last, none);
        if names.len() == 1 {
            assert(names =~= seq![last]);
        } else {
            assert forall|i: int| 0 <= i < fewer.len() implies is_named(#[trigger] fewer[i]) by {
                assert(fewer[i] == names[i]);
            }
            lemma_names_of_joined(fewer);
            components_stand_between_slashes(join(fewer, seq![SLASH]), last);
            assert(names =~= fewer + seq![last]);
        }
    }
}

/// The bytes of a path from the root name the path again.
pub proof fn bytes_of_paths_read_back(names: PathView)
    requires
        forall|i: int| 0 <= i < names.len() ==> is_named(#[trigger] names[i]),
    ensures
        appended(Seq::empty(), path_bytes(seq![seq![SLASH]] + names)) == seq![seq![SLASH]] + names,
{
    let p = seq![seq![SLASH]] + names;
    lemma_names_of_joined(names);
    assert(p.skip(1) =~= names);
    bytes_name_paths(Seq::empty(), join(names, seq![SLASH]));
}

}
