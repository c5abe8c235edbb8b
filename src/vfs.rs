//! The virtual filesystem: read-only node trees mounted under drive names
//! such as `SNSW:`, and path resolution over them.
use vstd::prelude::*;
use vstd::string::StrSliceExecFns;

verus! {

#[derive(Clone, Copy, Debug, PartialEq, Eq, Structural)]
pub enum SnVfsError {
    ReadError,
    NotFound,
}

#[derive(Clone, Copy, Debug, PartialEq, Eq, Structural)]
pub enum SnVfsType {
    File,
    Dir,
}

/// An entry of a directory listing.
pub struct SnDirEntry {
    pub name: String,
    pub dir_type: SnVfsType,
}

/// `p` without its leading slashes.
pub open spec fn trim_slashes(p: Seq<char>) -> Seq<char>
    decreases p.len(),
{
    if p.len() > 0 && p[0] == '/' {
        trim_slashes(p.drop_first())
    } else {
        p
    }
}

/// `f` is the position of the first slash of `t`.
pub open spec fn is_first_slash(t: Seq<char>, f: int) -> bool {
    0 <= f < t.len() && t[f] == '/' && forall|j: int| 0 <= j < f ==> t[j] != '/'
}

/// The first name of a path and the rest of it after the slash that ends
/// the name, if there is one; leading slashes are ignored.
pub open spec fn split_path_spec(p: Seq<char>) -> (Seq<char>, Option<Seq<char>>) {
    let t = trim_slashes(p);
    if exists|f: int| is_first_slash(t, f) {
        let f = choose|f: int| is_first_slash(t, f);
        (t.subrange(0, f), Some(t.subrange(f + 1, t.len() as int)))
    } else {
        (t, None)
    }
}

proof fn lemma_trim_prefix(p: Seq<char>, s: int)
    requires
        0 <= s <= p.len(),
        forall|j: int| 0 <= j < s ==> p[j] == '/',
    ensures
        trim_slashes(p) == trim_slashes(p.subrange(s, p.len() as int)),
    decreases s,
{
    if s > 0 {
        assert(p.drop_first().subrange(s - 1, p.drop_first().len() as int) =~= p.subrange(s, p.len() as int));
        lemma_trim_prefix(p.drop_first(), s - 1);
    } else {
        assert(p.subrange(0, p.len() as int) =~= p);
    }
}

proof fn lemma_trim_len(p: Seq<char>)
    ensures
        trim_slashes(p).len() <= p.len(),
    decreases p.len(),
{
    if p.len() > 0 && p[0] == '/' {
        lemma_trim_len(p.drop_first());
    }
}

/// The rest of a path is shorter than the path.
pub proof fn lemma_split_shorter(p: Seq<char>)
    ensures
        split_path_spec(p).1 matches Some(s) ==> s.len() < p.len(),
{
    lemma_trim_len(p);
}

/// A path that does not start with a slash splits at its first slash.
pub proof fn lemma_split_at(p: Seq<char>, f: int)
    requires
        p.len() > 0,
        p[0] != '/',
        is_first_slash(p, f),
    ensures
        split_path_spec(p) == (p.subrange(0, f), Some(p.subrange(f + 1, p.len() as int))),
{
    assert(trim_slashes(p) == p);
    let g = choose|g: int| is_first_slash(p, g);
    if g < f {
        assert(p[g] == '/');
    } else if g > f {
        assert(p[f] == '/');
    }
}

/// A path with no slash is a name alone.
pub proof fn lemma_split_none(p: Seq<char>)
    requires
        p.len() > 0,
        forall|i: int| 0 <= i < p.len() ==> p[i] != '/',
    ensures
        split_path_spec(p) == (p, None::<Seq<char>>),
{
    assert(trim_slashes(p) == p);
    assert forall|g: int| !is_first_slash(p, g) by {
        if 0 <= g < p.len() {
            assert(p[g] != '/');
        }
    }
}

/// The path of the sample program splits into its drive and the rest.
pub proof fn lemma_kotono_path()
    ensures
        split_path_spec("SNSW:/shinosawa/system/kotono"@) == ("SNSW:"@, Some("shinosawa/system/kotono"@)),
{
    reveal_strlit("SNSW:/shinosawa/system/kotono");
    reveal_strlit("SNSW:");
    reveal_strlit("shinosawa/system/kotono");
    let p = "SNSW:/shinosawa/system/kotono"@;
    lemma_split_at(p, 5);
    assert(p.subrange(0, 5) =~= "SNSW:"@);
    assert(p.subrange(6, p.len() as int) =~= "shinosawa/system/kotono"@);
}

/// Splits the first name of `path` from the rest of it.
pub fn split_path(path: &str) -> (r: (&str, Option<&str>))
    ensures
        r.0@ == split_path_spec(path@).0,
        (match r.1 {
            Some(s) => Some(s@),
            None => None,
        }) == split_path_spec(path@).1,
{
    let n = path.unicode_len();
    let mut s: usize = 0;
    while s < n && path.get_char(s) == '/'
        invariant
            n == path@.len(),
            s <= n,
            forall|j: int| 0 <= j < s ==> path@[j] == '/',
        decreases n - s,
    {
        s = s + 1;
    }
    proof {
        lemma_trim_prefix(path@, s as int);
    }
    let ghost t = path@.subrange(s as int, n as int);
    assert(trim_slashes(path@) == t) by {
        if t.len() > 0 {
            assert(t[0] == path@[s as int]);
        }
    }
    let mut f: usize = s;
    while f < n && path.get_char(f) != '/'
        invariant
            n == path@.len(),
            s <= f <= n,
            t == path@.subrange(s as int, n as int),
            forall|j: int| s <= j < f ==> path@[j] != '/',
        decreases n - f,
    {
        f = f + 1;
    }
    if f < n {
        proof {
            let k = (f - s) as int;
            assert(is_first_slash(t, k));
            let c = choose|g: int| is_first_slash(t, g);
            if c < k {
                assert(t[c] == path@[s + c]);
            } else if c > k {
                assert(t[k] == '/');
            }
            assert(t.subrange(0, k) =~= path@.subrange(s as int, f as int));
            assert(t.subrange(k + 1, t.len() as int) =~= path@.subrange(f + 1, n as int));
        }
        (path.substring_char(s, f), Some(path.substring_char(f + 1, n)))
    } else {
        proof {
            assert forall|g: int| !is_first_slash(t, g) by {
                if 0 <= g < t.len() {
                    assert(t[g] == path@[s + g]);
                }
            }
        }
        (path.substring_char(s, n), None)
    }
}

/// Tells whether two strings hold the same characters.
pub fn str_eq(a: &str, b: &str) -> (r: bool)
    ensures
        r == (a@ == b@),
{
    let n = a.unicode_len();
    if n != b.unicode_len() {
        return false;
    }
    let mut i: usize = 0;
    while i < n
        invariant
            n == a@.len(),
            n == b@.len(),
            i <= n,
            forall|j: int| 0 <= j < i ==> a@[j] == b@[j],
        decreases n - i,
    {
        if a.get_char(i) != b.get_char(i) {
            return false;
        }
        i = i + 1;
    }
    assert(a@ =~= b@);
    true
}

/// A node of a sample filesystem: a file with its contents, or a directory
/// with the positions of its children in the filesystem's node list.
pub struct SnDummyNode {
    pub name: String,
    pub node_type: SnVfsType,
    pub contents: Option<Vec<u8>>,
    pub children: Vec<usize>,
}

/// A node of a filesystem tree, as the VFS sees it.
pub trait SnVfsNode {
    spec fn spec_name(&self) -> Seq<char>;

    spec fn spec_type(&self) -> SnVfsType;

    spec fn spec_contents(&self) -> Option<Seq<u8>>;

    fn name(&self) -> (r: String)
        ensures
            r@ == self.spec_name(),
    ;

    fn is_file(&self) -> (r: bool)
        ensures
            r == (self.spec_type() == SnVfsType::File),
    ;

    fn is_dir(&self) -> (r: bool)
        ensures
            r == (self.spec_type() == SnVfsType::Dir),
    ;

    fn node_type(&self) -> (r: SnVfsType)
        ensures
            r == self.spec_type(),
    ;

    /// Length of a file's contents; zero for a directory.
    fn len(&self) -> (r: usize)
        ensures
            r == match self.spec_contents() {
                Some(c) => c.len(),
                None => 0,
            },
    ;

    /// Copies a file's contents to the start of `buf` and returns their length.
    fn read(&self, buf: &mut Vec<u8>) -> (r: Result<usize, SnVfsError>)
        ensures
            final(buf)@.len() == old(buf)@.len(),
            match self.spec_contents() {
                Some(c) => if c.len() <= old(buf)@.len() {
                    &&& r == Ok::<usize, SnVfsError>(c.len() as usize)
                    &&& final(buf)@.subrange(0, c.len() as int) == c
                    &&& final(buf)@.subrange(c.len() as int, old(buf)@.len() as int) == old(buf)@.subrange(
                        c.len() as int,
                        old(buf)@.len() as int,
                    )
                } else {
                    r == Err::<usize, SnVfsError>(SnVfsError::ReadError) && *final(buf) == *old(buf)
                },
                None => r == Err::<usize, SnVfsError>(SnVfsError::ReadError) && *final(buf) == *old(buf),
            },
    ;
}

impl SnVfsNode for SnDummyNode {
    open spec fn spec_name(&self) -> Seq<char> {
        self.name@
    }

    open spec fn spec_type(&self) -> SnVfsType {
        self.node_type
    }

    open spec fn spec_contents(&self) -> Option<Seq<u8>> {
        match &self.contents {
            Some(c) => Some(c@),
            None => None,
        }
    }

    fn name(&self) -> (r: String) {
        self.name.clone()
    }

    fn is_file(&self) -> (r: bool) {
        self.node_type == SnVfsType::File
    }

    fn is_dir(&self) -> (r: bool) {
        self.node_type == SnVfsType::Dir
    }

    fn node_type(&self) -> (r: SnVfsType) {
        self.node_type
    }

    fn len(&self) -> (r: usize) {
        match &self.contents {
            Some(c) => c.len(),
            None => 0,
        }
    }

    fn read(&self, buf: &mut Vec<u8>) -> (r: Result<usize, SnVfsError>) {
        match &self.contents {
            Some(c) => {
                if c.len() > buf.len() {
                    return Err(SnVfsError::ReadError);
                }
                let mut i: usize = 0;
                while i < c.len()
                    invariant
                        i <= c@.len(),
                        c@.len() <= buf@.len(),
                        buf@.len() == old(buf)@.len(),
                        forall|j: int| 0 <= j < i ==> buf@[j] == c@[j],
                        forall|j: int| c@.len() <= j < buf@.len() ==> buf@[j] == old(buf)@[j],
                    decreases c@.len() - i,
                {
                    buf.set(i, c[i]);
                    i = i + 1;
                }
                assert(buf@.subrange(0, c@.len() as int) =~= c@);
                assert(buf@.subrange(c@.len() as int, buf@.len() as int) =~= old(buf)@.subrange(
                    c@.len() as int,
                    old(buf)@.len() as int,
                ));
                Ok(c.len())
            },
            None => Err(SnVfsError::ReadError),
        }
    }
}

/// A filesystem as the VFS sees it.
pub trait SnVfsFilesystem {
    /// Prepares the filesystem for use.
    fn startup(&self);

    /// Position of the root node.
    fn root(&self) -> (r: usize)
        ensures
            r == 0,
    ;
}

/// A read-only filesystem held in memory: node 0 is the root.
pub struct SnDummyFilesystem {
    nodes: Vec<SnDummyNode>,
}

impl SnVfsFilesystem for SnDummyFilesystem {
    fn startup(&self) {
    }

    fn root(&self) -> (r: usize) {
        0
    }
}

impl SnDummyFilesystem {
    pub closed spec fn node_seq(self) -> Seq<SnDummyNode> {
        self.nodes@
    }

    pub open spec fn node_name(self, i: int) -> Seq<char> {
        self.node_seq()[i].name@
    }

    pub open spec fn children_of(self, i: int) -> Seq<usize> {
        self.node_seq()[i].children@
    }

    pub open spec fn is_dir_node(self, i: int) -> bool {
        self.node_seq()[i].node_type == SnVfsType::Dir
    }

    /// There is a root and every child is a node.
    pub closed spec fn wf(self) -> bool {
        &&& self.nodes@.len() > 0
        &&& forall|i: int, k: int|
            0 <= i < self.nodes@.len() && 0 <= k < self.nodes@[i].children@.len() ==> (
            #[trigger] self.nodes@[i].children@[k]) < self.nodes@.len()
    }

    /// `k` is the first child of `node` named `name`.
    pub open spec fn is_first_child(self, node: int, name: Seq<char>, k: int) -> bool {
        &&& 0 <= k < self.children_of(node).len()
        &&& self.node_name(self.children_of(node)[k] as int) == name
        &&& forall|j: int| 0 <= j < k ==> self.node_name(#[trigger] self.children_of(node)[j] as int) != name
    }

    /// The first child of `node` is the child named by its name.
    pub proof fn lemma_only_child(self, node: int, name: Seq<char>)
        requires
            self.children_of(node).len() >= 1,
            self.node_name(self.children_of(node)[0] as int) == name,
        ensures
            self.child_named(node, name) == Some(self.children_of(node)[0] as int),
    {
        assert(self.is_first_child(node, name, 0));
        let k = choose|k: int| self.is_first_child(node, name, k);
        if k > 0 {
            assert(self.node_name(self.children_of(node)[0] as int) != name);
        }
    }

    /// The child of `node` named `name`, if any.
    pub open spec fn child_named(self, node: int, name: Seq<char>) -> Option<int> {
        if exists|k: int| self.is_first_child(node, name, k) {
            Some(self.children_of(node)[choose|k: int| self.is_first_child(node, name, k)] as int)
        } else {
            None
        }
    }

    /// The node that `path` leads to from `node`: an empty name or `.` stays,
    /// another name goes to the child of that name, which must exist below a directory.
    pub open spec fn resolve(self, node: int, path: Seq<char>) -> Result<int, SnVfsError>
        decreases path.len(),
    {
        let (name, sub) = split_path_spec(path);
        let next = if name == Seq::<char>::empty() || name == seq!['.'] {
            Ok(node)
        } else if self.is_dir_node(node) {
            match self.child_named(node, name) {
                Some(c) => Ok(c),
                None => Err(SnVfsError::NotFound),
            }
        } else {
            Err(SnVfsError::NotFound)
        };
        match next {
            Err(e) => Err(e),
            Ok(n) => match sub {
                Some(s) => if s.len() < path.len() {
                    self.resolve(n, s)
                } else {
                    Err(SnVfsError::NotFound)
                },
                None => Ok(n),
            },
        }
    }

    pub fn node_count(&self) -> (r: usize)
        ensures
            r == self.node_seq().len(),
    {
        self.nodes.len()
    }

    /// Node `i`.
    pub fn node(&self, i: usize) -> (r: &SnDummyNode)
        requires
            i < self.node_seq().len(),
        ensures
            *r == self.node_seq()[i as int],
    {
        &self.nodes[i]
    }

    fn find_child(&self, node: usize, name: &str) -> (r: Option<usize>)
        requires
            self.wf(),
            node < self.node_seq().len(),
        ensures
            r matches Some(c) ==> self.child_named(node as int, name@) == Some(c as int) && c
                < self.node_seq().len(),
            r is None ==> self.child_named(node as int, name@) is None,
    {
        let children = &self.nodes[node].children;
        let mut k: usize = 0;
        while k < children.len()
            invariant
                self.wf(),
                node < self.node_seq().len(),
                *children == self.nodes@[node as int].children,
                k <= children@.len(),
                forall|j: int| 0 <= j < k ==> self.node_name(#[trigger] self.children_of(node as int)[j] as int) != name@,
            decreases children@.len() - k,
        {
            let c = children[k];
            assert(c < self.nodes@.len());
            if str_eq(self.nodes[c].name.as_str(), name) {
                proof {
                    assert(self.is_first_child(node as int, name@, k as int));
                    let k2 = choose|k2: int| self.is_first_child(node as int, name@, k2);
                    if k2 < k {
                        assert(self.node_name(self.children_of(node as int)[k2] as int) != name@);
                    } else if k2 > k {
                        assert(self.node_name(self.children_of(node as int)[k as int] as int) == name@);
                    }
                }
                return Some(c);
            }
            k = k + 1;
        }
        proof {
            assert forall|k2: int| !self.is_first_child(node as int, name@, k2) by {
                if self.is_first_child(node as int, name@, k2) {
                    assert(self.node_name(self.children_of(node as int)[k2] as int) != name@);
                }
            }
        }
        None
    }

    /// Follows `path` from `node`.
    pub fn find(&self, node: usize, path: &str) -> (r: Result<usize, SnVfsError>)
        requires
            self.wf(),
            node < self.node_seq().len(),
        ensures
            r matches Ok(n) ==> self.resolve(node as int, path@) == Ok::<int, SnVfsError>(n as int) && n
                < self.node_seq().len(),
            r matches Err(e) ==> self.resolve(node as int, path@) == Err::<int, SnVfsError>(e),
        decreases path@.len(),
    {
        let (name, sub) = split_path(path);
        proof {
            lemma_split_shorter(path@);
            reveal_strlit(".");
        }
        let n = name.unicode_len();
        let next = if n == 0 || (n == 1 && name.get_char(0) == '.') {
            proof {
                if n == 1 {
                    assert(name@ =~= seq!['.']);
                } else {
                    assert(name@ =~= Seq::<char>::empty());
                }
            }
            node
        } else {
            proof {
                if n == 1 {
                    assert(name@ != seq!['.']) by {
                        assert(name@[0] != '.');
                    }
                }
                assert(name@ != Seq::<char>::empty());
            }
            if self.nodes[node].node_type != SnVfsType::Dir {
                return Err(SnVfsError::NotFound);
            }
            match self.find_child(node, name) {
                None => {
                    return Err(SnVfsError::NotFound);
                },
                Some(c) => c,
            }
        };
        match sub {
            Some(s) => self.find(next, s),
            None => Ok(next),
        }
    }

    /// The entries of directory `node`, in order.
    pub fn read_dir(&self, node: usize) -> (r: Vec<SnDirEntry>)
        requires
            self.wf(),
            node < self.node_seq().len(),
        ensures
            r@.len() == self.children_of(node as int).len(),
            forall|k: int|
                0 <= k < r@.len() ==> (#[trigger] r@[k]).name@ == self.node_name(
                    self.children_of(node as int)[k] as int,
                ) && r@[k].dir_type == self.node_seq()[self.children_of(node as int)[k] as int].node_type,
    {
        let children = &self.nodes[node].children;
        let mut out: Vec<SnDirEntry> = Vec::new();
        let mut k: usize = 0;
        while k < children.len()
            invariant
                self.wf(),
                node < self.node_seq().len(),
                *children == self.nodes@[node as int].children,
                k <= children@.len(),
                out@.len() == k,
                forall|j: int|
                    0 <= j < k ==> (#[trigger] out@[j]).name@ == self.node_name(
                        self.children_of(node as int)[j] as int,
                    ) && out@[j].dir_type == self.node_seq()[self.children_of(node as int)[j] as int].node_type,
            decreases children@.len() - k,
        {
            let c = children[k];
            assert(c < self.nodes@.len());
            let child = &self.nodes[c];
            out.push(SnDirEntry { name: child.name.clone(), dir_type: child.node_type });
            k = k + 1;
        }
        out
    }
}

fn dir_node(name: &str, children: Vec<usize>) -> (r: SnDummyNode)
    ensures
        r.name@ == name@,
        r.node_type == SnVfsType::Dir,
        r.contents is None,
        r.children@ == children@,
{
    SnDummyNode { name: name.to_owned(), node_type: SnVfsType::Dir, contents: None, children }
}

/// The sample root filesystem: `/shinosawa/system/kotono`, a file holding `kotono`.
pub fn new_example_filesystem(kotono: Vec<u8>) -> (r: SnDummyFilesystem)
    ensures
        r.wf(),
        r.node_seq().len() == 4,
        r.node_name(1) == "shinosawa"@,
        r.node_name(2) == "system"@,
        r.node_name(3) == "kotono"@,
        r.is_dir_node(0) && r.is_dir_node(1) && r.is_dir_node(2) && !r.is_dir_node(3),
        r.children_of(0) == seq![1usize],
        r.children_of(1) == seq![2usize],
        r.children_of(2) == seq![3usize],
        r.node_seq()[3].spec_contents() == Some(kotono@),
        r.resolve(0, "shinosawa/system/kotono"@) == Ok::<int, SnVfsError>(3),
{
    let mut nodes: Vec<SnDummyNode> = Vec::new();
    nodes.push(dir_node("", vec![1]));
    nodes.push(dir_node("shinosawa", vec![2]));
    nodes.push(dir_node("system", vec![3]));
    nodes.push(
        SnDummyNode {
            name: "kotono".to_owned(),
            node_type: SnVfsType::File,
            contents: Some(kotono),
            children: Vec::new(),
        },
    );
    let r = SnDummyFilesystem { nodes };
    assert forall|i: int, k: int|
        0 <= i < r.nodes@.len() && 0 <= k < r.nodes@[i].children@.len() implies (
        #[trigger] r.nodes@[i].children@[k]) < r.nodes@.len() by {}
    proof {
        reveal_strlit("shinosawa/system/kotono");
        reveal_strlit("system/kotono");
        reveal_strlit("kotono");
        reveal_strlit("system");
        reveal_strlit("shinosawa");
        let p0 = "shinosawa/system/kotono"@;
        let p1 = "system/kotono"@;
        let p2 = "kotono"@;
        lemma_split_at(p0, 9);
        assert(p0.subrange(0, 9) =~= "shinosawa"@);
        assert(p0.subrange(10, p0.len() as int) =~= p1);
        lemma_split_at(p1, 6);
        assert(p1.subrange(0, 6) =~= "system"@);
        assert(p1.subrange(7, p1.len() as int) =~= p2);
        lemma_split_none(p2);
        r.lemma_only_child(0, "shinosawa"@);
        r.lemma_only_child(1, "system"@);
        r.lemma_only_child(2, "kotono"@);
        assert("shinosawa"@ != Seq::<char>::empty() && "shinosawa"@ != seq!['.']);
        assert("system"@ != Seq::<char>::empty() && "system"@ != seq!['.']);
        assert("kotono"@ != Seq::<char>::empty() && "kotono"@ != seq!['.']);
        assert(r.resolve(2, p2) == Ok::<int, SnVfsError>(3));
        assert(r.resolve(1, p1) == Ok::<int, SnVfsError>(3));
    }
    r
}

/// A reference to a node of a mounted filesystem.
#[derive(Clone, Copy, Debug, PartialEq, Eq, Structural)]
pub struct SnVfsNodeRef {
    pub mount: usize,
    pub node: usize,
}

/// The mount table: drive names and their filesystems.
pub struct SnVfs {
    filesystem: Vec<(String, SnDummyFilesystem)>,
}

impl SnVfs {
    pub closed spec fn mounts(self) -> Seq<(String, SnDummyFilesystem)> {
        self.filesystem@
    }

    pub open spec fn wf(self) -> bool {
        &&& forall|i: int| 0 <= i < self.mounts().len() ==> (#[trigger] self.mounts()[i]).1.wf()
        &&& forall|i: int, j: int|
            0 <= i < j < self.mounts().len() ==> (#[trigger] self.mounts()[i]).0@ != (
            #[trigger] self.mounts()[j]).0@
    }

    /// The position in the mount table of drive `drive`, if mounted.
    pub open spec fn mount_of(self, drive: Seq<char>) -> Option<int> {
        if exists|i: int| 0 <= i < self.mounts().len() && (#[trigger] self.mounts()[i]).0@ == drive {
            Some(choose|i: int| 0 <= i < self.mounts().len() && (#[trigger] self.mounts()[i]).0@ == drive)
        } else {
            None
        }
    }

    /// Number of mounted drives.
    pub fn mount_count(&self) -> (r: usize)
        ensures
            r == self.mounts().len(),
    {
        self.filesystem.len()
    }

    pub fn new() -> (r: SnVfs)
        ensures
            r.wf(),
            r.mounts().len() == 0,
    {
        SnVfs { filesystem: Vec::new() }
    }

    fn find_mount(&self, drive: &str) -> (r: Option<usize>)
        requires
            self.wf(),
        ensures
            r matches Some(i) ==> i < self.mounts().len() && self.mounts()[i as int].0@ == drive@
                && self.mount_of(drive@) == Some(i as int),
            r is None ==> self.mount_of(drive@) is None,
    {
        let mut i: usize = 0;
        while i < self.filesystem.len()
            invariant
                self.wf(),
                i <= self.mounts().len(),
                forall|j: int| 0 <= j < i ==> (#[trigger] self.mounts()[j]).0@ != drive@,
            decreases self.mounts().len() - i,
        {
            if str_eq(self.filesystem[i].0.as_str(), drive) {
                proof {
                    let k = choose|k: int| 0 <= k < self.mounts().len() && (#[trigger] self.mounts()[k]).0@ == drive@;
                    if k < i {
                        assert(self.mounts()[k].0@ != drive@);
                    } else if k > i {
                        assert(self.mounts()[i as int].0@ != self.mounts()[k].0@);
                    }
                }
                return Some(i);
            }
            i = i + 1;
        }
        None
    }

    /// Mounts `fs` under `drive`, in place of what was mounted there.
    pub fn attach(&mut self, drive: &str, fs: SnDummyFilesystem)
        requires
            old(self).wf(),
            fs.wf(),
        ensures
            final(self).wf(),
            final(self).mount_of(drive@) matches Some(i) && final(self).mounts()[i].1 == fs,
            forall|d: Seq<char>|
                d != drive@ ==> #[trigger] final(self).mount_of(d) is Some == old(self).mount_of(d) is Some,
            forall|d: Seq<char>|
                d != drive@ && old(self).mount_of(d) is Some
                    ==> final(self).mounts()[(#[trigger] final(self).mount_of(d))->0].1 == old(self).mounts()[old(self).mount_of(d)->0].1,
    {
        let ghost s0 = *self;
        match self.find_mount(drive) {
            Some(i) => {
                let name = self.filesystem[i].0.clone();
                self.filesystem.set(i, (name, fs));
                proof {
                    assert forall|a: int, b: int| 0 <= a < b < self.mounts().len() implies (
                    #[trigger] self.mounts()[a]).0@ != (#[trigger] self.mounts()[b]).0@ by {
                        assert(self.mounts()[a].0@ == s0.mounts()[a].0@);
                        assert(self.mounts()[b].0@ == s0.mounts()[b].0@);
                    }
                    assert(self.mounts()[i as int].0@ == drive@);
                    let k = choose|k: int| 0 <= k < self.mounts().len() && (#[trigger] self.mounts()[k]).0@ == drive@;
                    if k != i {
                        if k < i {
                            assert(self.mounts()[k].0@ != self.mounts()[i as int].0@);
                        } else {
                            assert(self.mounts()[i as int].0@ != self.mounts()[k].0@);
                        }
                    }
                    assert forall|d: Seq<char>| d != drive@ implies #[trigger] self.mount_of(d) is Some == s0.mount_of(d) is Some by {
                        if s0.mount_of(d) is Some {
                            let j = choose|j: int| 0 <= j < s0.mounts().len() && (#[trigger] s0.mounts()[j]).0@ == d;
                            assert(self.mounts()[j].0@ == d);
                        }
                        if self.mount_of(d) is Some {
                            let j = choose|j: int| 0 <= j < self.mounts().len() && (#[trigger] self.mounts()[j]).0@ == d;
                            assert(s0.mounts()[j].0@ == d);
                        }
                    }
                }
            },
            None => {
                self.filesystem.push((drive.to_owned(), fs));
                proof {
                    let last = self.mounts().len() - 1;
                    assert forall|a: int, b: int| 0 <= a < b < self.mounts().len() implies (
                    #[trigger] self.mounts()[a]).0@ != (#[trigger] self.mounts()[b]).0@ by {
                        assert(self.mounts()[a] == s0.mounts()[a]);
                        if b < last {
                            assert(self.mounts()[b] == s0.mounts()[b]);
                        } else {
                            assert(s0.mounts()[a].0@ != drive@);
                        }
                    }
                    assert(self.mounts()[last].0@ == drive@);
                    let k = choose|k: int| 0 <= k < self.mounts().len() && (#[trigger] self.mounts()[k]).0@ == drive@;
                    if k != last {
                        assert(s0.mounts()[k].0@ == drive@);
                    }
                    assert forall|d: Seq<char>| d != drive@ implies #[trigger] self.mount_of(d) is Some == s0.mount_of(d) is Some by {
                        if s0.mount_of(d) is Some {
                            let j = choose|j: int| 0 <= j < s0.mounts().len() && (#[trigger] s0.mounts()[j]).0@ == d;
                            assert(self.mounts()[j].0@ == d);
                        }
                        if self.mount_of(d) is Some {
                            let j = choose|j: int| 0 <= j < self.mounts().len() && (#[trigger] self.mounts()[j]).0@ == d;
                            if j < last {
                                assert(s0.mounts()[j].0@ == d);
                            }
                        }
                    }
                }
            },
        }
    }

    /// Resolves `path`: its first name is a drive, the rest a path from that
    /// drive's root. A path that is a drive alone leads nowhere.
    pub open spec fn resolve_path(self, path: Seq<char>) -> Result<SnVfsNodeRef, SnVfsError> {
        let (drive, sub) = split_path_spec(path);
        match self.mount_of(drive) {
            None => Err(SnVfsError::NotFound),
            Some(i) => match sub {
                None => Err(SnVfsError::NotFound),
                Some(s) => match self.mounts()[i].1.resolve(0, s) {
                    Ok(n) => Ok(SnVfsNodeRef { mount: i as usize, node: n as usize }),
                    Err(e) => Err(e),
                },
            },
        }
    }

    /// Finds the node at `path`.
    pub fn find(&self, path: &str) -> (r: Result<SnVfsNodeRef, SnVfsError>)
        requires
            self.wf(),
        ensures
            r == self.resolve_path(path@),
            r matches Ok(n) ==> n.mount < self.mounts().len() && n.node < self.mounts()[n.mount as int].1.node_seq().len(),
    {
        let (drive, sub) = split_path(path);
        let i = match self.find_mount(drive) {
            None => {
                return Err(SnVfsError::NotFound);
            },
            Some(i) => i,
        };
        let sub = match sub {
            None => {
                return Err(SnVfsError::NotFound);
            },
            Some(s) => s,
        };
        let fs = &self.filesystem[i].1;
        match fs.find(fs.root(), sub) {
            Ok(n) => Ok(SnVfsNodeRef { mount: i, node: n }),
            Err(e) => Err(e),
        }
    }

    /// The node `r` refers to.
    pub fn node(&self, r: SnVfsNodeRef) -> (n: &SnDummyNode)
        requires
            r.mount < self.mounts().len(),
            r.node < self.mounts()[r.mount as int].1.node_seq().len(),
        ensures
            *n == self.mounts()[r.mount as int].1.node_seq()[r.node as int],
    {
        self.filesystem[r.mount].1.node(r.node)
    }
}

/// Mounts `fs` under `drive` in `vfs`.
pub fn attach(vfs: &mut SnVfs, drive: &str, fs: SnDummyFilesystem)
    requires
        old(vfs).wf(),
        fs.wf(),
    ensures
        final(vfs).wf(),
        final(vfs).mount_of(drive@) matches Some(i) && final(vfs).mounts()[i].1 == fs,
        forall|d: Seq<char>|
            d != drive@ ==> #[trigger] final(vfs).mount_of(d) is Some == old(vfs).mount_of(d) is Some,
        forall|d: Seq<char>|
            d != drive@ && old(vfs).mount_of(d) is Some
                ==> final(vfs).mounts()[(#[trigger] final(vfs).mount_of(d))->0].1 == old(vfs).mounts()[old(vfs).mount_of(d)->0].1,
{
    vfs.attach(drive, fs);
}

/// Finds the node at `path` in `vfs`.
pub fn find(vfs: &SnVfs, path: &str) -> (r: Result<SnVfsNodeRef, SnVfsError>)
    requires
        vfs.wf(),
    ensures
        r == vfs.resolve_path(path@),
{
    vfs.find(path)
}

} // verus!
