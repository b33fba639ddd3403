use vstd::prelude::*;

verus! {

/// The mathematical model of a filesystem path: the sequence of its
/// components, each component a sequence of characters.
pub type PathModel = Seq<Seq<char>>;

/// A directory path, held as its components in order from the root.
///
/// The depth of a path is its number of components; a child of a path is the
/// path extended by exactly one component.
pub struct DirPath {
    pub parts: Vec<String>,
}

impl View for DirPath {
    type V = PathModel;

    open spec fn view(&self) -> PathModel {
        self.parts@.map_values(|s: String| s@)
    }
}

/// `c` names an immediate child of `parent`: one component deeper, and equal
/// to `parent` up to that last component.
pub open spec fn is_child_of(c: PathModel, parent: PathModel) -> bool {
    c.len() == parent.len() + 1 && c.drop_last() == parent
}

/// The models of a sequence of paths.
pub open spec fn views(s: Seq<DirPath>) -> Seq<PathModel> {
    s.map_values(|p: DirPath| p@)
}

/// A parent is a prefix of each of its children.
pub proof fn lemma_parent_prefix(c: PathModel, parent: PathModel)
    requires
        is_child_of(c, parent),
    ensures
        parent.is_prefix_of(c),
{
    assert(parent =~= c.subrange(0, parent.len() as int));
}

/// A prefix of a child that is no longer than the parent is a prefix of the
/// parent as well.
pub proof fn lemma_prefix_of_parent(q: PathModel, c: PathModel, parent: PathModel)
    requires
        is_child_of(c, parent),
        q.is_prefix_of(c),
        q.len() <= parent.len(),
    ensures
        q.is_prefix_of(parent),
{
    assert(q =~= parent.subrange(0, q.len() as int));
}

/// Being a prefix carries over along a chain.
pub proof fn lemma_prefix_trans(a: PathModel, b: PathModel, c: PathModel)
    requires
        a.is_prefix_of(b),
        b.is_prefix_of(c),
    ensures
        a.is_prefix_of(c),
{
    assert(a =~= c.subrange(0, a.len() as int));
}

impl Clone for DirPath {
    /// A clone of a path has the same model.
    fn clone(&self) -> (res: Self)
        ensures
            res@ == self@,
    {
        let mut parts: Vec<String> = Vec::new();
        let n = self.parts.len();
        let mut i: usize = 0;
        while i < n
            invariant
                n == self.parts@.len(),
                i <= n,
                parts@.len() == i,
                forall|k: int| 0 <= k < i ==> parts@[k] == self.parts@[k],
            decreases n - i,
        {
            parts.push(self.parts[i].clone());
            i = i + 1;
        }
        proof {
            assert(parts@ =~= self.parts@);
        }
        DirPath { parts }
    }
}

impl DirPath {
    /// Builds a path from its components.
    pub fn from_parts(parts: Vec<String>) -> (p: DirPath)
        ensures
            p@ == parts@.map_values(|s: String| s@),
    {
        DirPath { parts }
    }

    /// The number of components of the path.
    pub fn depth(&self) -> (d: usize)
        ensures
            d == self@.len(),
    {
        self.parts.len()
    }

    /// The path of the immediate child of `self` named `name`.
    pub fn child(&self, name: String) -> (c: DirPath)
        ensures
            c@ == self@.push(name@),
            is_child_of(c@, self@),
    {
        let mut parts: Vec<String> = Vec::new();
        let n = self.parts.len();
        let mut i: usize = 0;
        while i < n
            invariant
                n == self.parts@.len(),
                i <= n,
                parts@.len() == i,
                forall|k: int| 0 <= k < i ==> parts@[k] == self.parts@[k],
            decreases n - i,
        {
            parts.push(self.parts[i].clone());
            i = i + 1;
        }
        parts.push(name);
        let c = DirPath { parts };
        proof {
            assert(c@ =~= self@.push(name@));
            assert(c@.drop_last() =~= self@);
        }
        c
    }
}

} // verus!
