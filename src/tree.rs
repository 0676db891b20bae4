use vstd::prelude::*;

verus! {

/// The mathematical value of a tree node: every field as a plain value,
/// the children as a sequence of such values.
pub struct NodeModel {
    pub name: Seq<char>,
    pub size: u64,
    pub is_directory: bool,
    pub children: Seq<NodeModel>,
    pub file_location: Option<u64>,
    pub file_length: Option<u64>,
}

/// Sum of the sizes of a sequence of nodes, as an unbounded integer.
pub open spec fn sum_sizes(s: Seq<NodeModel>) -> int
    decreases s.len(),
{
    if s.len() == 0 {
        0
    } else {
        sum_sizes(s.drop_last()) + s.last().size
    }
}

/// `x` clamped to the range of `u64`.
pub open spec fn clamp_u64(x: int) -> u64 {
    if x <= u64::MAX {
        x as u64
    } else {
        u64::MAX
    }
}

/// The node after bottom-up size aggregation: every directory's size becomes
/// the sum of its children's aggregated sizes (saturating at `u64::MAX`);
/// files keep their size. Nothing else changes.
pub open spec fn aggregate(m: NodeModel) -> NodeModel
    decreases m,
{
    if m.is_directory {
        let kids = Seq::new(
            m.children.len(),
            |i: int|
                if 0 <= i < m.children.len() {
                    aggregate(m.children[i])
                } else {
                    arbitrary()
                },
        );
        NodeModel { size: clamp_u64(sum_sizes(kids)), children: kids, ..m }
    } else {
        m
    }
}

/// Sum of a sequence of integers.
pub open spec fn sum_ints(s: Seq<int>) -> int
    decreases s.len(),
{
    if s.len() == 0 {
        0
    } else {
        sum_ints(s.drop_last()) + s.last()
    }
}

/// The total size of everything below `m` without any clamping: a file's
/// declared size, or the sum over a directory's children.
pub open spec fn full_size(m: NodeModel) -> int
    decreases m, 1int,
{
    if m.is_directory {
        sum_ints(child_full_sizes(m))
    } else {
        m.size as int
    }
}

/// The unclamped total size of each child of `m`.
pub open spec fn child_full_sizes(m: NodeModel) -> Seq<int>
    decreases m, 0int,
{
    Seq::new(
        m.children.len(),
        |i: int|
            if 0 <= i < m.children.len() {
                full_size(m.children[i])
            } else {
                0
            },
    )
}

/// Every directory in `m`, at any depth, has as size the sum of its
/// direct children's sizes (the children of a file are not looked at).
pub open spec fn sizes_consistent(m: NodeModel) -> bool
    decreases m,
{
    m.is_directory ==> (m.size == sum_sizes(m.children) && forall|i: int|
        0 <= i < m.children.len() ==> sizes_consistent(#[trigger] m.children[i]))
}

/// No file node, at any depth, has children.
pub open spec fn files_childless(m: NodeModel) -> bool
    decreases m,
{
    (!m.is_directory ==> m.children.len() == 0)
    && forall|i: int| 0 <= i < m.children.len() ==> files_childless(#[trigger] m.children[i])
}

/// One node of a reconstructed directory tree. Each node owns its children.
#[derive(Debug)]
pub struct TreeNode {
    pub name: String,
    pub size: u64,
    pub is_directory: bool,
    pub children: Vec<TreeNode>,
    pub file_location: Option<u64>,
    pub file_length: Option<u64>,
}

impl TreeNode {
    /// The value of this node and of everything below it.
    pub open spec fn model(&self) -> NodeModel
        decreases self,
    {
        NodeModel {
            name: self.name@,
            size: self.size,
            is_directory: self.is_directory,
            children: Seq::new(
                self.children@.len(),
                |i: int|
                    if 0 <= i < self.children@.len() {
                        self.children@[i].model()
                    } else {
                        arbitrary()
                    },
            ),
            file_location: self.file_location,
            file_length: self.file_length,
        }
    }

    /// A file node with a declared size and no extent information.
    pub fn new_file(name: String, size: u64) -> (r: TreeNode)
        ensures
            r.model() == (NodeModel {
                name: name@,
                size,
                is_directory: false,
                children: Seq::empty(),
                file_location: None,
                file_length: None,
            }),
    {
        let r = TreeNode {
            name,
            size,
            is_directory: false,
            children: Vec::new(),
            file_location: None,
            file_length: None,
        };
        assert(r.model().children =~= Seq::empty());
        r
    }

    /// A file node that also records where its bytes lie in the image.
    pub fn new_file_with_location(name: String, size: u64, location: u64, length: u64) -> (r:
        TreeNode)
        ensures
            r.model() == (NodeModel {
                name: name@,
                size,
                is_directory: false,
                children: Seq::empty(),
                file_location: Some(location),
                file_length: Some(length),
            }),
    {
        let r = TreeNode {
            name,
            size,
            is_directory: false,
            children: Vec::new(),
            file_location: Some(location),
            file_length: Some(length),
        };
        assert(r.model().children =~= Seq::empty());
        r
    }

    /// An empty directory node of size 0.
    pub fn new_directory(name: String) -> (r: TreeNode)
        ensures
            r.model() == (NodeModel {
                name: name@,
                size: 0,
                is_directory: true,
                children: Seq::empty(),
                file_location: None,
                file_length: None,
            }),
    {
        let r = TreeNode {
            name,
            size: 0,
            is_directory: true,
            children: Vec::new(),
            file_location: None,
            file_length: None,
        };
        assert(r.model().children =~= Seq::empty());
        r
    }

    /// Appends `child` as the last child of this directory.
    pub fn add_child(&mut self, child: TreeNode)
        requires
            old(self).is_directory,
        ensures
            final(self).model() == (NodeModel {
                children: old(self).model().children.push(child.model()),
                ..old(self).model()
            }),
    {
        self.children.push(child);
        assert(self.model().children =~= old(self).model().children.push(child.model()));
    }
}


impl TreeNode {
    /// Sets every directory's size, bottom-up, to the sum of its children's
    /// sizes (saturating at `u64::MAX`); files keep their declared size.
    pub fn calculate_directory_size(&mut self)
        ensures
            final(self).model() == aggregate(old(self).model()),
        decreases *old(self),
    {
        if self.is_directory {
            let ghost oc = self.children@;
            let ghost om = self.model();
            let mut kids: Vec<TreeNode> = Vec::new();
            std::mem::swap(&mut kids, &mut self.children);
            let mut rev: Vec<TreeNode> = Vec::new();
            while kids.len() > 0
                invariant
                    kids@.len() + rev@.len() == oc.len(),
                    kids@ == oc.subrange(0, kids@.len() as int),
                    forall|j: int| 0 <= j < rev@.len() ==> rev@[j] == oc[oc.len() - 1 - j],
                decreases kids@.len(),
            {
                let c = kids.pop().unwrap();
                rev.push(c);
            }
            let n = rev.len();
            let mut total: u64 = 0;
            while rev.len() > 0
                invariant
                    n == oc.len(),
                    rev@.len() <= n,
                    self.is_directory,
                    self.children@.len() == n - rev@.len(),
                    forall|j: int| 0 <= j < rev@.len() ==> rev@[j] == oc[n - 1 - j],
                    forall|j: int|
                        0 <= j < self.children@.len() ==> #[trigger] self.children@[j].model()
                            == aggregate(oc[j].model()),
                    total == clamp_u64(sum_sizes(self.model().children)),
                    self.name@ == om.name,
                    self.file_location == om.file_location,
                    self.file_length == om.file_length,
                    om == old(self).model(),
                    oc == old(self).children@,
                decreases rev@.len(),
            {
                let mut c = rev.pop().unwrap();
                let ghost k = self.children@.len() as int;
                assert(c == oc[k]);
                c.calculate_directory_size();
                let ghost before = self.model().children;
                proof {
                    lemma_sum_nonneg(before);
                }
                total = total.saturating_add(c.size);
                self.children.push(c);
                assert(self.model().children =~= before.push(c.model()));
                assert(self.model().children.drop_last() =~= before);
                assert(sum_sizes(self.model().children) == sum_sizes(before) + c.size);
            }
            self.size = total;
            assert forall|i: int| 0 <= i < n implies #[trigger] self.model().children[i]
                == aggregate(om).children[i] by {
                assert(self.model().children[i] == self.children@[i].model());
                assert(om.children[i] == oc[i].model());
            }
            assert(self.model().children =~= aggregate(om).children);
        }
    }
}

/// A sum of sizes is never negative.
pub proof fn lemma_sum_nonneg(s: Seq<NodeModel>)
    ensures
        sum_sizes(s) >= 0,
    decreases s.len(),
{
    if s.len() > 0 {
        lemma_sum_nonneg(s.drop_last());
    }
}

/// A sum of non-negative integers is non-negative.
pub proof fn lemma_sum_ints_nonneg(s: Seq<int>)
    requires
        forall|j: int| 0 <= j < s.len() ==> #[trigger] s[j] >= 0,
    ensures
        sum_ints(s) >= 0,
    decreases s.len(),
{
    if s.len() > 0 {
        assert forall|j: int| 0 <= j < s.len() - 1 implies #[trigger] s.drop_last()[j] >= 0 by {
            assert(s.drop_last()[j] == s[j]);
        }
        lemma_sum_ints_nonneg(s.drop_last());
    }
}

/// Each element of a sequence of non-negative integers is at most its sum.
pub proof fn lemma_int_le_sum(s: Seq<int>, i: int)
    requires
        0 <= i < s.len(),
        forall|j: int| 0 <= j < s.len() ==> #[trigger] s[j] >= 0,
    ensures
        s[i] <= sum_ints(s),
    decreases s.len(),
{
    assert forall|j: int| 0 <= j < s.len() - 1 implies #[trigger] s.drop_last()[j] >= 0 by {
        assert(s.drop_last()[j] == s[j]);
    }
    if i < s.len() - 1 {
        lemma_int_le_sum(s.drop_last(), i);
    } else {
        lemma_sum_ints_nonneg(s.drop_last());
    }
}

/// The unclamped total size is never negative.
pub proof fn lemma_full_size_nonneg(m: NodeModel)
    ensures
        full_size(m) >= 0,
    decreases m,
{
    if m.is_directory && m.children.len() > 0 {
        let fulls = child_full_sizes(m);
        assert forall|j: int| 0 <= j < fulls.len() implies #[trigger] fulls[j] >= 0 by {
            lemma_full_size_nonneg(m.children[j]);
        }
        lemma_sum_ints_nonneg(fulls);
    }
}

/// A sum of sizes equals the sum of integers that agree with the sizes
/// position by position.
pub proof fn lemma_sum_sizes_ints(a: Seq<NodeModel>, b: Seq<int>)
    requires
        a.len() == b.len(),
        forall|i: int| 0 <= i < a.len() ==> #[trigger] a[i].size == b[i],
    ensures
        sum_sizes(a) == sum_ints(b),
    decreases a.len(),
{
    if a.len() > 0 {
        lemma_sum_sizes_ints(a.drop_last(), b.drop_last());
    }
}

/// Size aggregation makes every directory's size the sum of its direct
/// children's sizes, at every depth, whenever the total size of the tree fits
/// in a `u64`; the root's size is then that total.
pub proof fn lemma_aggregate_sizes_consistent(m: NodeModel)
    requires
        full_size(m) <= u64::MAX,
    ensures
        aggregate(m).size == full_size(m),
        sizes_consistent(aggregate(m)),
    decreases m,
{
    if m.is_directory {
        let fulls = child_full_sizes(m);
        let agg = aggregate(m).children;
        assert forall|j: int| 0 <= j < fulls.len() implies #[trigger] fulls[j] >= 0 by {
            lemma_full_size_nonneg(m.children[j]);
        }
        assert forall|i: int| 0 <= i < m.children.len() implies #[trigger] agg[i].size == fulls[i]
            && sizes_consistent(agg[i]) by {
            lemma_int_le_sum(fulls, i);
            lemma_aggregate_sizes_consistent(m.children[i]);
        }
        lemma_sum_sizes_ints(agg, fulls);
        lemma_sum_ints_nonneg(fulls);
        assert(forall|i: int| 0 <= i < agg.len() ==> sizes_consistent(#[trigger] agg[i]));
    }
}


/// The non-empty pieces between slashes of `p`, from position `i` on, where
/// the piece being read started at `start`.
pub open spec fn split_path(p: Seq<char>, i: int, start: int) -> Seq<Seq<char>>
    decreases p.len() - i,
{
    if i >= p.len() {
        if start < p.len() {
            seq![p.subrange(start, p.len() as int)]
        } else {
            Seq::empty()
        }
    } else if p[i] == '/' {
        let piece = p.subrange(start, i);
        let rest = split_path(p, i + 1, i + 1);
        if piece.len() > 0 {
            seq![piece] + rest
        } else {
            rest
        }
    } else {
        split_path(p, i + 1, start)
    }
}

/// The segments of a slash-separated path; empty segments are ignored.
pub open spec fn path_segments(p: Seq<char>) -> Seq<Seq<char>> {
    split_path(p, 0, 0)
}

/// The first node among `children[j..]` named `name`.
pub open spec fn first_named(children: Seq<NodeModel>, name: Seq<char>, j: int) -> Option<
    NodeModel,
>
    decreases children.len() - j,
{
    if j < 0 || j >= children.len() {
        None
    } else if children[j].name == name {
        Some(children[j])
    } else {
        first_named(children, name, j + 1)
    }
}

/// The node reached from `m` by resolving each segment, in turn, against the
/// names of the current node's children.
pub open spec fn lookup(m: NodeModel, segs: Seq<Seq<char>>) -> Option<NodeModel>
    decreases segs.len(),
{
    if segs.len() == 0 {
        Some(m)
    } else {
        match first_named(m.children, segs[0], 0) {
            Some(c) => lookup(c, segs.drop_first()),
            None => None,
        }
    }
}

/// The first child of `node` whose name is `name`.
fn child_named<'a>(node: &'a TreeNode, name: &String) -> (r: Option<&'a TreeNode>)
    ensures
        match first_named(node.model().children, name@, 0) {
            Some(m) => r matches Some(c) && c.model() == m,
            None => r is None,
        },
{
    let mut j: usize = 0;
    while j < node.children.len()
        invariant
            j <= node.children@.len(),
            first_named(node.model().children, name@, 0) == first_named(
                node.model().children,
                name@,
                j as int,
            ),
        decreases node.children@.len() - j,
    {
        let child = &node.children[j];
        assert(node.model().children[j as int] == child.model());
        if child.name == *name {
            return Some(child);
        }
        j += 1;
    }
    None
}

impl TreeNode {
    /// The node that `path` leads to from this one: its slash-separated
    /// segments are resolved one at a time against child names, exactly
    /// and case-sensitively. A path of slashes only leads to this node.
    pub fn find_node(&self, path: &str) -> (r: Option<&TreeNode>)
        ensures
            match lookup(self.model(), path_segments(path@)) {
                Some(m) => r matches Some(n) && n.model() == m,
                None => r is None,
            },
    {
        let n = path.unicode_len();
        let mut cur: &TreeNode = self;
        let mut start: usize = 0;
        let mut i: usize = 0;
        while i < n
            invariant
                n == path@.len(),
                start <= i <= n,
                lookup(self.model(), path_segments(path@)) == lookup(
                    cur.model(),
                    split_path(path@, i as int, start as int),
                ),
            decreases n - i,
        {
            if path.get_char(i) == '/' {
                if start < i {
                    let ghost piece = path@.subrange(start as int, i as int);
                    let ghost rest = split_path(path@, i + 1, i + 1);
                    assert((seq![piece] + rest).drop_first() =~= rest);
                    let seg = String::from_str(path.substring_char(start, i));
                    match child_named(cur, &seg) {
                        Some(c) => {
                            cur = c;
                        },
                        None => {
                            return None;
                        },
                    }
                }
                start = i + 1;
            }
            i += 1;
        }
        if start < n {
            let ghost piece = path@.subrange(start as int, n as int);
            assert(seq![piece].drop_first() =~= Seq::<Seq<char>>::empty());
            let seg = String::from_str(path.substring_char(start, n));
            match child_named(cur, &seg) {
                Some(c) => {
                    cur = c;
                },
                None => {
                    return None;
                },
            }
        } else {
            assert(split_path(path@, n as int, start as int) =~= Seq::<Seq<char>>::empty());
        }
        assert(lookup(cur.model(), Seq::empty()) == Some(cur.model()));
        Some(cur)
    }
}

} // verus!
