//! The entry model: files, directories, and the filesystem aggregate root,
//! together with the mathematical model that the contracts speak of.
use vstd::prelude::*;

verus! {

use crate::path::split_segments;
use crate::path::split_path;
use crate::path::views_of;

/// A leaf entry: a named, arbitrary byte content.
#[derive(Debug)]
pub struct File {
    pub name: String,
    pub content: Vec<u8>,
}

/// A container entry. The two child vectors hold at most one entry per name;
/// they model two independent name-to-entry maps (see [`DirModel`]).
#[derive(Debug)]
pub struct Directory {
    pub name: String,
    pub files: Vec<File>,
    pub directories: Vec<Directory>,
}

/// The aggregate root: exactly one directory from which every path resolution
/// starts.
#[derive(Debug)]
pub struct FileSystem {
    pub root: Directory,
}

/// The mathematical model of a directory: its name, a map from file name to
/// file content, and a map from child directory name to child model.
pub ghost struct DirModel {
    pub name: Seq<char>,
    pub files: Map<Seq<char>, Seq<u8>>,
    pub directories: Map<Seq<char>, DirModel>,
}

/// A file's sizes stay within what a vector can hold on this machine.
pub open spec fn file_bounded(f: File) -> bool {
    &&& f.name@.len() <= usize::MAX
    &&& f.content@.len() <= usize::MAX
}

/// The file map of a directory, folded left to right: a later entry with the
/// same name would win, though well-formed directories have no such pair.
pub open spec fn files_model(files: Seq<File>, n: int) -> Map<Seq<char>, Seq<u8>>
    decreases n,
{
    if n <= 0 {
        Map::empty()
    } else {
        files_model(files, n - 1).insert(files[n - 1].name@, files[n - 1].content@)
    }
}

/// The child directory map of a directory, folded left to right.
pub open spec fn dirs_model(dirs: Seq<Directory>, n: int) -> Map<Seq<char>, DirModel>
    decreases dirs, n,
{
    if n <= 0 || dirs.len() < n {
        Map::empty()
    } else {
        dirs_model(dirs, n - 1).insert(dirs[n - 1].name@, dirs[n - 1]@)
    }
}

impl View for Directory {
    type V = DirModel;

    open spec fn view(&self) -> DirModel
        decreases self, 0int,
    {
        DirModel {
            name: self.name@,
            files: files_model(self.files@, self.files@.len() as int),
            directories: dirs_model(self.directories@, self.directories@.len() as int),
        }
    }
}

impl View for FileSystem {
    type V = DirModel;

    open spec fn view(&self) -> DirModel {
        self.root@
    }
}

impl Directory {
    /// Well-formed: names are unique within each child vector, every child is
    /// itself well-formed, and all sizes fit the machine.
    pub open spec fn wf(self) -> bool
        decreases self, 1int,
    {
        &&& self.name@.len() <= usize::MAX
        &&& self.files@.len() <= usize::MAX
        &&& self.directories@.len() <= usize::MAX
        &&& forall|i: int| 0 <= i < self.files@.len() ==> file_bounded(#[trigger] self.files@[i])
        &&& forall|i: int, j: int|
            0 <= i < j < self.files@.len() ==> self.files@[i].name@ != self.files@[j].name@
        &&& forall|i: int, j: int|
            0 <= i < j < self.directories@.len() ==> self.directories@[i].name@
                != self.directories@[j].name@
        &&& forall|i: int| 0 <= i < self.directories@.len() ==> (#[trigger] self.directories@[i]).wf()
    }
}

impl FileSystem {
    pub open spec fn wf(self) -> bool {
        self.root.wf()
    }
}

/// A path resolution failure: the first segment that was not found, and the
/// prefix of segments that had resolved before it.
#[derive(Debug)]
pub struct PathNotFound {
    pub missing_segment: String,
    pub consumed_prefix: Vec<String>,
}

/// Resolution: walking the segments of a path down from `m`. Returns the
/// directory the path addresses, or `Err(k)` where `path[k]` is the first
/// segment that is not present.
pub open spec fn model_resolve(m: DirModel, path: Seq<Seq<char>>) -> Result<DirModel, int>
    decreases path.len(),
{
    if path.len() == 0 {
        Ok(m)
    } else if m.directories.contains_key(path[0]) {
        match model_resolve(m.directories[path[0]], path.drop_first()) {
            Ok(d) => Ok(d),
            Err(k) => Err(k + 1),
        }
    } else {
        Err(0)
    }
}

/// A failed resolution always names a segment of the path: the index it
/// reports lies within the path.
pub proof fn lemma_resolve_err_bounds(m: DirModel, path: Seq<Seq<char>>)
    ensures
        match model_resolve(m, path) {
            Ok(_) => true,
            Err(k) => 0 <= k < path.len(),
        },
    decreases path.len(),
{
    if path.len() > 0 && m.directories.contains_key(path[0]) {
        lemma_resolve_err_bounds(m.directories[path[0]], path.drop_first());
    }
}

/// The tree `m` with a file of the given name and content inserted into the
/// directory addressed by `path`. Meaningful when `path` resolves.
pub open spec fn model_put_file(
    m: DirModel,
    path: Seq<Seq<char>>,
    name: Seq<char>,
    content: Seq<u8>,
) -> DirModel
    decreases path.len(),
{
    if path.len() == 0 {
        DirModel { files: m.files.insert(name, content), ..m }
    } else {
        DirModel {
            directories: m.directories.insert(
                path[0],
                model_put_file(m.directories[path[0]], path.drop_first(), name, content),
            ),
            ..m
        }
    }
}

/// The model of a directory with no children.
pub open spec fn empty_dir_model(name: Seq<char>) -> DirModel {
    DirModel {
        name: name,
        files: Map::<Seq<char>, Seq<u8>>::empty(),
        directories: Map::<Seq<char>, DirModel>::empty(),
    }
}

/// The tree `m` with an empty directory of the given name inserted into the
/// directory addressed by `path`. Meaningful when `path` resolves.
pub open spec fn model_put_dir(m: DirModel, path: Seq<Seq<char>>, name: Seq<char>) -> DirModel
    decreases path.len(),
{
    if path.len() == 0 {
        DirModel { directories: m.directories.insert(name, empty_dir_model(name)), ..m }
    } else {
        DirModel {
            directories: m.directories.insert(
                path[0],
                model_put_dir(m.directories[path[0]], path.drop_first(), name),
            ),
            ..m
        }
    }
}

/// Creating a directory under a path that resolves makes the path extended by
/// the new name resolve to an empty directory carrying that name.
pub proof fn lemma_create_directory_then_resolve(
    m: DirModel,
    path: Seq<Seq<char>>,
    name: Seq<char>,
)
    requires
        model_resolve(m, path) is Ok,
    ensures
        model_resolve(model_put_dir(m, path, name), path.push(name)) == Ok::<DirModel, int>(
            empty_dir_model(name),
        ),
    decreases path.len(),
{
    let m2 = model_put_dir(m, path, name);
    let q = path.push(name);
    if path.len() == 0 {
        assert(q[0] == name);
        assert(q.drop_first() =~= Seq::<Seq<char>>::empty());
        assert(m2.directories.contains_key(name));
        assert(m2.directories[name] == empty_dir_model(name));
        assert(model_resolve(m2.directories[name], q.drop_first()) == Ok::<DirModel, int>(
            m2.directories[name],
        ));
        assert(model_resolve(m2, q) == Ok::<DirModel, int>(empty_dir_model(name)));
    } else {
        lemma_create_directory_then_resolve(m.directories[path[0]], path.drop_first(), name);
        assert(q[0] == path[0]);
        assert(q.drop_first() =~= path.drop_first().push(name));
        assert(m2.directories.contains_key(path[0]));
        assert(m2.directories[path[0]] == model_put_dir(
            m.directories[path[0]],
            path.drop_first(),
            name,
        ));
        assert(model_resolve(m2.directories[path[0]], q.drop_first()) == Ok::<DirModel, int>(
            empty_dir_model(name),
        ));
        assert(model_resolve(m2, q) == Ok::<DirModel, int>(empty_dir_model(name)));
    }
}

/// After creating a file, resolving the same parent path finds a file map
/// holding the given content under the given name.
pub proof fn lemma_create_file_then_lookup(
    m: DirModel,
    path: Seq<Seq<char>>,
    name: Seq<char>,
    content: Seq<u8>,
)
    requires
        model_resolve(m, path) is Ok,
    ensures
        model_resolve(model_put_file(m, path, name, content), path) is Ok,
        model_resolve(model_put_file(m, path, name, content), path)->Ok_0.files.contains_key(name),
        model_resolve(model_put_file(m, path, name, content), path)->Ok_0.files[name] == content,
    decreases path.len(),
{
    if path.len() > 0 {
        lemma_create_file_then_lookup(m.directories[path[0]], path.drop_first(), name, content);
    }
}

/// Last write wins: creating the same file twice leaves exactly the tree that
/// the second creation alone would leave.
pub proof fn lemma_create_file_overwrites(
    m: DirModel,
    path: Seq<Seq<char>>,
    name: Seq<char>,
    c1: Seq<u8>,
    c2: Seq<u8>,
)
    ensures
        model_put_file(model_put_file(m, path, name, c1), path, name, c2) == model_put_file(
            m,
            path,
            name,
            c2,
        ),
    decreases path.len(),
{
    let m1 = model_put_file(m, path, name, c1);
    if path.len() == 0 {
        assert(m1.files.insert(name, c2) =~= m.files.insert(name, c2));
    } else {
        lemma_create_file_overwrites(m.directories[path[0]], path.drop_first(), name, c1, c2);
        assert(m1.directories.insert(
            path[0],
            model_put_file(m1.directories[path[0]], path.drop_first(), name, c2),
        ) =~= m.directories.insert(
            path[0],
            model_put_file(m.directories[path[0]], path.drop_first(), name, c2),
        ));
    }
}

/// Last write wins for directories: creating the same directory twice leaves
/// exactly the tree that one creation leaves, the previous subtree of that
/// name being discarded entirely.
pub proof fn lemma_create_directory_overwrites(m: DirModel, path: Seq<Seq<char>>, name: Seq<char>)
    ensures
        model_put_dir(model_put_dir(m, path, name), path, name) == model_put_dir(m, path, name),
    decreases path.len(),
{
    let m1 = model_put_dir(m, path, name);
    if path.len() == 0 {
        assert(m1.directories.insert(name, empty_dir_model(name)) =~= m.directories.insert(
            name,
            empty_dir_model(name),
        ));
    } else {
        lemma_create_directory_overwrites(m.directories[path[0]], path.drop_first(), name);
        assert(m1.directories.insert(
            path[0],
            model_put_dir(m1.directories[path[0]], path.drop_first(), name),
        ) =~= m.directories.insert(
            path[0],
            model_put_dir(m.directories[path[0]], path.drop_first(), name),
        ));
    }
}

/// Borrows the `i`-th child directory for in-place update.
fn nth_dir_mut(dirs: &mut Vec<Directory>, i: usize) -> (r: &mut Directory)
    requires
        i < old(dirs).len(),
    ensures
        *r == old(dirs)@[i as int],
        final(dirs)@ == old(dirs)@.update(i as int, *final(r)),
{
    &mut dirs[i]
}

/// Clones the first `n` segments, the prefix a failed resolution consumed.
fn clone_prefix(segs: &Vec<String>, n: usize) -> (r: Vec<String>)
    requires
        n <= segs@.len(),
    ensures
        r@ == segs@.take(n as int),
{
    let mut out: Vec<String> = Vec::new();
    let mut i: usize = 0;
    while i < n
        invariant
            i <= n <= segs@.len(),
            out@ == segs@.take(i as int),
        decreases n - i,
    {
        out.push(segs[i].clone());
        assert(out@ =~= segs@.take(i + 1));
        i += 1;
    }
    out
}

proof fn lemma_files_model_contains(s: Seq<File>, n: int, key: Seq<char>)
    requires
        0 <= n <= s.len(),
    ensures
        files_model(s, n).contains_key(key) <==> exists|i: int| 0 <= i < n && s[i].name@ == key,
    decreases n,
{
    if n > 0 {
        lemma_files_model_contains(s, n - 1, key);
        if files_model(s, n).contains_key(key) && s[n - 1].name@ != key {
            let i = choose|i: int| 0 <= i < n - 1 && s[i].name@ == key;
            assert(0 <= i < n && s[i].name@ == key);
        }
    }
}

proof fn lemma_files_model_value(s: Seq<File>, n: int, i: int)
    requires
        0 <= i < n <= s.len(),
        forall|p: int, q: int| 0 <= p < q < n ==> s[p].name@ != s[q].name@,
    ensures
        files_model(s, n).contains_key(s[i].name@),
        files_model(s, n)[s[i].name@] == s[i].content@,
    decreases n,
{
    if i < n - 1 {
        lemma_files_model_value(s, n - 1, i);
    }
}

/// Two file vectors whose entries agree name for name and byte for byte
/// denote the same file map.
pub proof fn lemma_files_model_congruence(s1: Seq<File>, s2: Seq<File>, n: int)
    requires
        0 <= n <= s1.len(),
        n <= s2.len(),
        forall|i: int|
            0 <= i < n ==> s1[i].name@ == s2[i].name@ && (#[trigger] s1[i]).content@
                == s2[i].content@,
    ensures
        files_model(s1, n) == files_model(s2, n),
    decreases n,
{
    if n > 0 {
        lemma_files_model_congruence(s1, s2, n - 1);
    }
}

proof fn lemma_files_model_update(s: Seq<File>, n: int, i: int, f: File)
    requires
        0 <= i < n <= s.len(),
        forall|p: int, q: int| 0 <= p < q < n ==> s[p].name@ != s[q].name@,
        f.name@ == s[i].name@,
    ensures
        files_model(s.update(i, f), n) == files_model(s, n).insert(f.name@, f.content@),
    decreases n,
{
    let su = s.update(i, f);
    if i == n - 1 {
        lemma_files_model_congruence(su, s, n - 1);
        assert(files_model(su, n - 1).insert(su[n - 1].name@, su[n - 1].content@) =~= files_model(
            s,
            n,
        ).insert(f.name@, f.content@));
    } else {
        lemma_files_model_update(s, n - 1, i, f);
        assert(su[n - 1].name@ == s[n - 1].name@ && su[n - 1].content@ == s[n - 1].content@);
        assert(files_model(s, n - 1).insert(f.name@, f.content@).insert(
            s[n - 1].name@,
            s[n - 1].content@,
        ) =~= files_model(s, n).insert(f.name@, f.content@));
    }
}

proof fn lemma_dirs_model_contains(s: Seq<Directory>, n: int, key: Seq<char>)
    requires
        0 <= n <= s.len(),
    ensures
        dirs_model(s, n).contains_key(key) <==> exists|i: int| 0 <= i < n && s[i].name@ == key,
    decreases n,
{
    if n > 0 {
        assert(dirs_model(s, n) == dirs_model(s, n - 1).insert(s[n - 1].name@, s[n - 1]@));
        lemma_dirs_model_contains(s, n - 1, key);
        if dirs_model(s, n).contains_key(key) && s[n - 1].name@ != key {
            let i = choose|i: int| 0 <= i < n - 1 && s[i].name@ == key;
            assert(0 <= i < n && s[i].name@ == key);
        }
    }
}

proof fn lemma_dirs_model_value(s: Seq<Directory>, n: int, i: int)
    requires
        0 <= i < n <= s.len(),
        forall|p: int, q: int| 0 <= p < q < n ==> s[p].name@ != s[q].name@,
    ensures
        dirs_model(s, n).contains_key(s[i].name@),
        dirs_model(s, n)[s[i].name@] == s[i]@,
    decreases n,
{
    assert(dirs_model(s, n) == dirs_model(s, n - 1).insert(s[n - 1].name@, s[n - 1]@));
    if i < n - 1 {
        lemma_dirs_model_value(s, n - 1, i);
    }
}

/// Two directory vectors whose entries agree in name and in model denote
/// the same child map.
pub proof fn lemma_dirs_model_congruence(s1: Seq<Directory>, s2: Seq<Directory>, n: int)
    requires
        0 <= n <= s1.len(),
        n <= s2.len(),
        forall|i: int|
            0 <= i < n ==> s1[i].name@ == s2[i].name@ && (#[trigger] s1[i])@ == s2[i]@,
    ensures
        dirs_model(s1, n) == dirs_model(s2, n),
    decreases n,
{
    if n > 0 {
        lemma_dirs_model_congruence(s1, s2, n - 1);
    }
}

proof fn lemma_dirs_model_update(s: Seq<Directory>, n: int, i: int, d: Directory)
    requires
        0 <= i < n <= s.len(),
        forall|p: int, q: int| 0 <= p < q < n ==> s[p].name@ != s[q].name@,
        d.name@ == s[i].name@,
    ensures
        dirs_model(s.update(i, d), n) == dirs_model(s, n).insert(d.name@, d@),
    decreases n,
{
    let su = s.update(i, d);
    assert(dirs_model(s, n) == dirs_model(s, n - 1).insert(s[n - 1].name@, s[n - 1]@));
    assert(dirs_model(su, n) == dirs_model(su, n - 1).insert(su[n - 1].name@, su[n - 1]@));
    if i == n - 1 {
        lemma_dirs_model_congruence(su, s, n - 1);
        assert(dirs_model(su, n - 1).insert(su[n - 1].name@, su[n - 1]@) =~= dirs_model(
            s,
            n,
        ).insert(d.name@, d@));
    } else {
        lemma_dirs_model_update(s, n - 1, i, d);
        assert(su[n - 1].name@ == s[n - 1].name@ && su[n - 1]@ == s[n - 1]@);
        assert(dirs_model(s, n - 1).insert(d.name@, d@).insert(s[n - 1].name@, s[n - 1]@)
            =~= dirs_model(s, n).insert(d.name@, d@));
    }
}

impl Directory {
    /// Constructs a directory with the given name and no children.
    pub fn new(name: &str) -> (d: Directory)
        ensures
            d.wf(),
            d@ == (DirModel {
                name: name@,
                files: Map::<Seq<char>, Seq<u8>>::empty(),
                directories: Map::<Seq<char>, DirModel>::empty(),
            }),
    {
        let _chars: usize = name.unicode_len();
        Directory { name: name.to_owned(), files: Vec::new(), directories: Vec::new() }
    }

    /// Inserts a file into the file map; an existing file with the same name
    /// is overwritten.
    pub fn add_file(&mut self, file: File)
        requires
            old(self).wf(),
            file_bounded(file),
        ensures
            final(self).wf(),
            final(self)@ == (DirModel {
                files: old(self)@.files.insert(file.name@, file.content@),
                ..old(self)@
            }),
    {
        let n = self.files.len();
        let mut i: usize = 0;
        while i < n
            invariant
                *self == *old(self),
                n == self.files@.len(),
                i <= n,
                old(self).wf(),
                file_bounded(file),
                forall|j: int| 0 <= j < i ==> (#[trigger] self.files@[j]).name@ != file.name@,
            decreases n - i,
        {
            if self.files[i].name == file.name {
                let ghost s_old = self.files@;
                proof {
                    lemma_files_model_update(s_old, n as int, i as int, file);
                }
                self.files[i] = file;
                assert(self.files@ == s_old.update(i as int, file));
                assert(forall|j: int|
                    0 <= j < n ==> (#[trigger] self.files@[j]).name@ == s_old[j].name@);
                return ;
            }
            i += 1;
        }
        proof {
            lemma_files_model_congruence(self.files@.push(file), self.files@, n as int);
        }
        self.files.push(file);
        let _total: usize = self.files.len();
        assert(forall|j: int| 0 <= j < n ==> self.files@[j] == old(self).files@[j]);
    }

    /// Inserts a child directory into the sub-directory map; an existing child
    /// with the same name is overwritten, discarding its whole subtree.
    pub fn add_directory(&mut self, dir: Directory)
        requires
            old(self).wf(),
            dir.wf(),
        ensures
            final(self).wf(),
            final(self)@ == (DirModel {
                directories: old(self)@.directories.insert(dir.name@, dir@),
                ..old(self)@
            }),
    {
        let n = self.directories.len();
        let mut i: usize = 0;
        while i < n
            invariant
                *self == *old(self),
                n == self.directories@.len(),
                i <= n,
                old(self).wf(),
                dir.wf(),
                forall|j: int| 0 <= j < i ==> (#[trigger] self.directories@[j]).name@ != dir.name@,
            decreases n - i,
        {
            if self.directories[i].name == dir.name {
                let ghost s_old = self.directories@;
                proof {
                    lemma_dirs_model_update(s_old, n as int, i as int, dir);
                }
                self.directories[i] = dir;
                assert(self.directories@ == s_old.update(i as int, dir));
                assert(forall|j: int|
                    0 <= j < n ==> (#[trigger] self.directories@[j]).name@ == s_old[j].name@);
                return ;
            }
            i += 1;
        }
        proof {
            lemma_dirs_model_congruence(self.directories@.push(dir), self.directories@, n as int);
        }
        self.directories.push(dir);
        let _total: usize = self.directories.len();
        assert(forall|j: int| 0 <= j < n ==> self.directories@[j] == old(self).directories@[j]);
    }

    /// Looks a file up by name in this directory's file map.
    pub fn get_file(&self, name: &str) -> (r: Option<&File>)
        requires
            self.wf(),
        ensures
            match r {
                Some(f) => {
                    &&& self@.files.contains_key(name@)
                    &&& f.name@ == name@
                    &&& f.content@ == self@.files[name@]
                },
                None => !self@.files.contains_key(name@),
            },
    {
        let key = name.to_owned();
        let n = self.files.len();
        let mut i: usize = 0;
        while i < n
            invariant
                self.wf(),
                key@ == name@,
                n == self.files@.len(),
                i <= n,
                forall|j: int| 0 <= j < i ==> (#[trigger] self.files@[j]).name@ != name@,
            decreases n - i,
        {
            if self.files[i].name == key {
                proof {
                    lemma_files_model_value(self.files@, n as int, i as int);
                }
                return Some(&self.files[i]);
            }
            i += 1;
        }
        proof {
            lemma_files_model_contains(self.files@, n as int, name@);
        }
        None
    }

    /// Looks a child directory up by name in this directory's sub-directory map.
    pub fn get_directory(&self, name: &str) -> (r: Option<&Directory>)
        requires
            self.wf(),
        ensures
            match r {
                Some(d) => {
                    &&& self@.directories.contains_key(name@)
                    &&& d.wf()
                    &&& d.name@ == name@
                    &&& d@ == self@.directories[name@]
                },
                None => !self@.directories.contains_key(name@),
            },
    {
        let key = name.to_owned();
        let n = self.directories.len();
        let mut i: usize = 0;
        while i < n
            invariant
                self.wf(),
                key@ == name@,
                n == self.directories@.len(),
                i <= n,
                forall|j: int| 0 <= j < i ==> (#[trigger] self.directories@[j]).name@ != name@,
            decreases n - i,
        {
            if self.directories[i].name == key {
                proof {
                    lemma_dirs_model_value(self.directories@, n as int, i as int);
                }
                return Some(&self.directories[i]);
            }
            i += 1;
        }
        proof {
            lemma_dirs_model_contains(self.directories@, n as int, name@);
        }
        None
    }

    /// Pure lookup: follows `segs[i..]` down from this directory to the
    /// directory that suffix addresses.
    fn resolve_at(&self, segs: &Vec<String>, i: usize) -> (r: Result<&Directory, PathNotFound>)
        requires
            self.wf(),
            i <= segs@.len(),
        ensures
            match r {
                Ok(d) => {
                    &&& d.wf()
                    &&& model_resolve(self@, views_of(segs@).skip(i as int)) == Ok::<
                        DirModel,
                        int,
                    >(d@)
                },
                Err(e) => {
                    match model_resolve(self@, views_of(segs@).skip(i as int)) {
                        Ok(_) => false,
                        Err(k) => {
                            &&& e.missing_segment@ == views_of(segs@)[i + k]
                            &&& e.consumed_prefix@ == segs@.take(i + k)
                        },
                    }
                },
            },
        decreases segs@.len() - i,
    {
        let ghost path = views_of(segs@).skip(i as int);
        if i == segs.len() {
            assert(path =~= Seq::<Seq<char>>::empty());
            return Ok(self);
        }
        assert(path[0] == segs@[i as int]@);
        match self.get_directory(segs[i].as_str()) {
            Some(child) => {
                let r = child.resolve_at(segs, i + 1);
                proof {
                    assert(path.drop_first() =~= views_of(segs@).skip(i + 1));
                    lemma_resolve_err_bounds(child@, path.drop_first());
                    lemma_resolve_err_bounds(self@, path);
                }
                r
            },
            None => {
                proof {
                    assert(model_resolve(self@, path) == Err::<DirModel, int>(0));
                }
                Err(
                    PathNotFound {
                        missing_segment: segs[i].clone(),
                        consumed_prefix: clone_prefix(segs, i),
                    },
                )
            },
        }
    }

    /// Walks `segs[i..]` down from this directory and inserts `file` into the
    /// directory the suffix addresses; on a missing segment the tree is left
    /// untouched.
    fn insert_file_at(&mut self, segs: &Vec<String>, i: usize, file: File) -> (r: Result<
        (),
        PathNotFound,
    >)
        requires
            old(self).wf(),
            i <= segs@.len(),
            file_bounded(file),
        ensures
            match r {
                Ok(_) => {
                    &&& model_resolve(old(self)@, views_of(segs@).skip(i as int)) is Ok
                    &&& final(self).wf()
                    &&& final(self)@ == model_put_file(
                        old(self)@,
                        views_of(segs@).skip(i as int),
                        file.name@,
                        file.content@,
                    )
                },
                Err(e) => {
                    &&& final(self)@ == old(self)@
                    &&& final(self).wf()
                    &&& match model_resolve(old(self)@, views_of(segs@).skip(i as int)) {
                        Ok(_) => false,
                        Err(k) => {
                            &&& e.missing_segment@ == views_of(segs@)[i + k]
                            &&& e.consumed_prefix@ == segs@.take(i + k)
                        },
                    }
                },
            },
        decreases segs@.len() - i,
    {
        let ghost path = views_of(segs@).skip(i as int);
        if i == segs.len() {
            assert(path =~= Seq::<Seq<char>>::empty());
            self.add_file(file);
            return Ok(());
        }
        assert(path[0] == segs@[i as int]@);
        let n = self.directories.len();
        let mut j: usize = 0;
        while j < n
            invariant
                *self == *old(self),
                old(self).wf(),
                i < segs@.len(),
                segs@.len() <= usize::MAX,
                file_bounded(file),
                path == views_of(segs@).skip(i as int),
                n == self.directories@.len(),
                j <= n,
                forall|t: int|
                    0 <= t < j ==> (#[trigger] self.directories@[t]).name@ != segs@[i as int]@,
            decreases n - j,
        {
            if self.directories[j].name == segs[i] {
                let ghost m_old = *self;
                let ghost s_old = self.directories@;
                let ghost d_old = self.directories@[j as int];
                proof {
                    lemma_dirs_model_value(s_old, n as int, j as int);
                }
                let child = nth_dir_mut(&mut self.directories, j);
                let res = child.insert_file_at(segs, i + 1, file);
                let ghost c2 = self.directories@[j as int];
                proof {
                    assert(self.directories@ == s_old.update(j as int, c2));
                    assert(path.drop_first() =~= views_of(segs@).skip(i + 1));
                }
                match res {
                    Ok(_) => {
                        proof {
                            assert(c2@ == model_put_file(
                                d_old@,
                                path.drop_first(),
                                file.name@,
                                file.content@,
                            ));
                            assert(c2.name@ == c2@.name && c2@.name == d_old@.name);
                            lemma_dirs_model_update(s_old, n as int, j as int, c2);
                            assert(forall|t: int|
                                0 <= t < n ==> (#[trigger] self.directories@[t]).name@
                                    == s_old[t].name@);
                            assert(self.wf());
                            assert(self@.directories == m_old@.directories.insert(path[0], c2@));
                            assert(self@ == model_put_file(
                                m_old@,
                                path,
                                file.name@,
                                file.content@,
                            ));
                        }
                        return Ok(());
                    },
                    Err(e) => {
                        proof {
                            lemma_resolve_err_bounds(d_old@, path.drop_first());
                            lemma_resolve_err_bounds(old(self)@, path);
                            assert(c2@ == d_old@ && c2.wf());
                            assert(c2.name@ == c2@.name && c2@.name == d_old@.name);
                            assert(forall|t: int|
                                0 <= t < n ==> (#[trigger] self.directories@[t]).name@
                                    == s_old[t].name@ && self.directories@[t]@ == s_old[t]@);
                            lemma_dirs_model_congruence(self.directories@, s_old, n as int);
                            assert(self@ == m_old@);
                            assert(self.wf());
                        }
                        return Err(e);
                    },
                }
            }
            j += 1;
        }
        proof {
            lemma_dirs_model_contains(self.directories@, n as int, path[0]);
            assert(model_resolve(old(self)@, path) == Err::<DirModel, int>(0));
        }
        let e = PathNotFound {
            missing_segment: segs[i].clone(),
            consumed_prefix: clone_prefix(segs, i),
        };
        Err(e)
    }

    /// Walks `segs[i..]` down from this directory and inserts an empty
    /// directory named `name` into the directory the suffix addresses; on a
    /// missing segment the tree is left untouched.
    fn insert_dir_at(&mut self, segs: &Vec<String>, i: usize, dir: Directory) -> (r: Result<
        (),
        PathNotFound,
    >)
        requires
            old(self).wf(),
            i <= segs@.len(),
            dir.wf(),
            dir@ == empty_dir_model(dir.name@),
        ensures
            match r {
                Ok(_) => {
                    &&& model_resolve(old(self)@, views_of(segs@).skip(i as int)) is Ok
                    &&& final(self).wf()
                    &&& final(self)@ == model_put_dir(
                        old(self)@,
                        views_of(segs@).skip(i as int),
                        dir.name@,
                    )
                },
                Err(e) => {
                    &&& final(self)@ == old(self)@
                    &&& final(self).wf()
                    &&& match model_resolve(old(self)@, views_of(segs@).skip(i as int)) {
                        Ok(_) => false,
                        Err(k) => {
                            &&& e.missing_segment@ == views_of(segs@)[i + k]
                            &&& e.consumed_prefix@ == segs@.take(i + k)
                        },
                    }
                },
            },
        decreases segs@.len() - i,
    {
        let ghost path = views_of(segs@).skip(i as int);
        if i == segs.len() {
            assert(path =~= Seq::<Seq<char>>::empty());
            self.add_directory(dir);
            return Ok(());
        }
        assert(path[0] == segs@[i as int]@);
        let n = self.directories.len();
        let mut j: usize = 0;
        while j < n
            invariant
                *self == *old(self),
                old(self).wf(),
                i < segs@.len(),
                segs@.len() <= usize::MAX,
                dir.wf(),
                dir@ == empty_dir_model(dir.name@),
                path == views_of(segs@).skip(i as int),
                n == self.directories@.len(),
                j <= n,
                forall|t: int|
                    0 <= t < j ==> (#[trigger] self.directories@[t]).name@ != segs@[i as int]@,
            decreases n - j,
        {
            if self.directories[j].name == segs[i] {
                let ghost m_old = *self;
                let ghost s_old = self.directories@;
                let ghost d_old = self.directories@[j as int];
                proof {
                    lemma_dirs_model_value(s_old, n as int, j as int);
                }
                let child = nth_dir_mut(&mut self.directories, j);
                let res = child.insert_dir_at(segs, i + 1, dir);
                let ghost c2 = self.directories@[j as int];
                proof {
                    assert(self.directories@ == s_old.update(j as int, c2));
                    assert(path.drop_first() =~= views_of(segs@).skip(i + 1));
                }
                match res {
                    Ok(_) => {
                        proof {
                            assert(c2@ == model_put_dir(d_old@, path.drop_first(), dir.name@));
                            assert(c2.name@ == c2@.name && c2@.name == d_old@.name);
                            lemma_dirs_model_update(s_old, n as int, j as int, c2);
                            assert(forall|t: int|
                                0 <= t < n ==> (#[trigger] self.directories@[t]).name@
                                    == s_old[t].name@);
                            assert(self.wf());
                            assert(self@.directories == m_old@.directories.insert(path[0], c2@));
                            assert(self@ == model_put_dir(m_old@, path, dir.name@));
                        }
                        return Ok(());
                    },
                    Err(e) => {
                        proof {
                            lemma_resolve_err_bounds(d_old@, path.drop_first());
                            lemma_resolve_err_bounds(old(self)@, path);
                            assert(c2@ == d_old@ && c2.wf());
                            assert(c2.name@ == c2@.name && c2@.name == d_old@.name);
                            assert(forall|t: int|
                                0 <= t < n ==> (#[trigger] self.directories@[t]).name@
                                    == s_old[t].name@ && self.directories@[t]@ == s_old[t]@);
                            lemma_dirs_model_congruence(self.directories@, s_old, n as int);
                            assert(self@ == m_old@);
                            assert(self.wf());
                        }
                        return Err(e);
                    },
                }
            }
            j += 1;
        }
        proof {
            lemma_dirs_model_contains(self.directories@, n as int, path[0]);
            assert(model_resolve(old(self)@, path) == Err::<DirModel, int>(0));
        }
        let e = PathNotFound {
            missing_segment: segs[i].clone(),
            consumed_prefix: clone_prefix(segs, i),
        };
        Err(e)
    }
}

impl FileSystem {
    /// Constructs a filesystem holding only an empty root directory.
    pub fn new() -> (r: FileSystem)
        ensures
            r.wf(),
            r@.name == "root"@,
            r@.files == Map::<Seq<char>, Seq<u8>>::empty(),
            r@.directories == Map::<Seq<char>, DirModel>::empty(),
    {
        FileSystem { root: Directory::new("root") }
    }

    /// Resolves a path without mutating anything: returns the directory the
    /// path addresses, or the first missing segment and the prefix of
    /// segments that had resolved before it.
    pub fn resolve(&self, path: &str) -> (r: Result<&Directory, PathNotFound>)
        requires
            self.wf(),
        ensures
            match r {
                Ok(d) => {
                    &&& d.wf()
                    &&& model_resolve(self@, split_segments(path@)) == Ok::<DirModel, int>(d@)
                },
                Err(e) => {
                    match model_resolve(self@, split_segments(path@)) {
                        Ok(_) => false,
                        Err(k) => {
                            &&& e.missing_segment@ == split_segments(path@)[k]
                            &&& views_of(e.consumed_prefix@) == split_segments(path@).take(k)
                        },
                    }
                },
            },
    {
        let segs = split_path(path);
        let r = self.root.resolve_at(&segs, 0);
        proof {
            assert(views_of(segs@).skip(0) =~= split_segments(path@));
            let gr = r;
            lemma_resolve_err_bounds(self@, split_segments(path@));
            if let Err(e) = gr {
                if let Err(k) = model_resolve(self@, split_segments(path@)) {
                    assert(views_of(e.consumed_prefix@) =~= split_segments(path@).take(k));
                }
            }
        }
        r
    }

    /// Resolves `path` and inserts a file named `name` with the given content
    /// into the directory it addresses, overwriting a file of the same name.
    /// On a missing intermediate segment the tree is left unchanged and the
    /// missing segment is reported.
    pub fn create_file(&mut self, path: &str, name: &str, content: Vec<u8>) -> (r: Result<
        (),
        PathNotFound,
    >)
        requires
            old(self).wf(),
        ensures
            r is Ok <==> model_resolve(old(self)@, split_segments(path@)) is Ok,
            match r {
                Ok(_) => {
                    &&& final(self).wf()
                    &&& final(self)@ == model_put_file(
                        old(self)@,
                        split_segments(path@),
                        name@,
                        content@,
                    )
                },
                Err(e) => {
                    &&& final(self)@ == old(self)@
                    &&& final(self).wf()
                    &&& match model_resolve(old(self)@, split_segments(path@)) {
                        Ok(_) => false,
                        Err(k) => {
                            &&& e.missing_segment@ == split_segments(path@)[k]
                            &&& views_of(e.consumed_prefix@) == split_segments(path@).take(k)
                        },
                    }
                },
            },
    {
        let _name_chars: usize = name.unicode_len();
        let _content_len: usize = content.len();
        let file = File { name: name.to_owned(), content };
        let segs = split_path(path);
        let res = self.root.insert_file_at(&segs, 0, file);
        proof {
            assert(views_of(segs@).skip(0) =~= split_segments(path@));
            let gres = res;
            lemma_resolve_err_bounds(old(self)@, split_segments(path@));
            if let Err(e) = gres {
                if let Err(k) = model_resolve(old(self)@, split_segments(path@)) {
                    assert(views_of(e.consumed_prefix@) =~= split_segments(path@).take(k));
                }
            }
        }
        res
    }

    /// Resolves `path` and inserts an empty directory named `name` into the
    /// directory it addresses, overwriting (and discarding the subtree of) a
    /// child directory of the same name. On a missing intermediate segment the
    /// tree is left unchanged and the missing segment is reported.
    pub fn create_directory(&mut self, path: &str, name: &str) -> (r: Result<(), PathNotFound>)
        requires
            old(self).wf(),
        ensures
            r is Ok <==> model_resolve(old(self)@, split_segments(path@)) is Ok,
            match r {
                Ok(_) => {
                    &&& final(self).wf()
                    &&& final(self)@ == model_put_dir(old(self)@, split_segments(path@), name@)
                },
                Err(e) => {
                    &&& final(self)@ == old(self)@
                    &&& final(self).wf()
                    &&& match model_resolve(old(self)@, split_segments(path@)) {
                        Ok(_) => false,
                        Err(k) => {
                            &&& e.missing_segment@ == split_segments(path@)[k]
                            &&& views_of(e.consumed_prefix@) == split_segments(path@).take(k)
                        },
                    }
                },
            },
    {
        let dir = Directory::new(name);
        let segs = split_path(path);
        let res = self.root.insert_dir_at(&segs, 0, dir);
        proof {
            assert(views_of(segs@).skip(0) =~= split_segments(path@));
            let gres = res;
            lemma_resolve_err_bounds(old(self)@, split_segments(path@));
            if let Err(e) = gres {
                if let Err(k) = model_resolve(old(self)@, split_segments(path@)) {
                    assert(views_of(e.consumed_prefix@) =~= split_segments(path@).take(k));
                }
            }
        }
        res
    }
}

} // verus!
