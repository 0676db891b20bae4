use vstd::prelude::*;

pub mod iso9660;
pub mod tree;

pub use tree::TreeNode;

use crate::iso9660::iso_tree;
use crate::tree::{lookup, path_segments, NodeModel};

verus! {

/// Why no filesystem could be read from an image.
#[derive(Debug)]
pub enum DetectError {
    /// No parser recognised the image; holds the name of the input.
    UnsupportedFormat(String),
}

impl DetectError {
    /// A one-line description that names the input.
    pub fn message(&self) -> (r: String)
        ensures
            match self {
                DetectError::UnsupportedFormat(name) => r@
                    == "Unable to detect supported filesystem in "@ + name@,
            },
    {
        match self {
            DetectError::UnsupportedFormat(name) => {
                let prefix = String::from_str("Unable to detect supported filesystem in ");
                prefix.concat(name.as_str())
            },
        }
    }
}

/// Reads the directory tree of an image with the first parser, in order of
/// priority, that recognises it. ISO 9660 is the one parser.
pub fn detect_and_parse_filesystem(image: &[u8], filename: &str) -> (r: Result<
    TreeNode,
    DetectError,
>)
    ensures
        match iso_tree(image@) {
            Ok(m) => r matches Ok(t) && t.model() == m,
            Err(_) => r matches Err(DetectError::UnsupportedFormat(name)) && name@ == filename@,
        },
{
    match iso9660::parse_iso9660(image) {
        Ok(root) => Ok(root),
        Err(_) => Err(DetectError::UnsupportedFormat(String::from_str(filename))),
    }
}


/// Why a node could not be extracted.
#[derive(Debug, PartialEq, Eq, Structural)]
pub enum ExtractError {
    /// The path leads to no node of the tree.
    PathNotFound,
    /// A file node carries no extent location or length.
    MissingExtentMetadata,
    /// A file's extent runs past the end of the image.
    ShortRead,
}

/// The bytes of a file node: the `file_length` bytes of the image from
/// `file_location` on.
pub fn file_contents<'a>(image: &'a [u8], node: &TreeNode) -> (r: Result<&'a [u8], ExtractError>)
    ensures
        match (node.file_location, node.file_length) {
            (Some(loc), Some(len)) => if loc + len <= image@.len() {
                r matches Ok(b) && b@ == image@.subrange(loc as int, loc + len)
            } else {
                r matches Err(e) && e == ExtractError::ShortRead
            },
            _ => r matches Err(e) && e == ExtractError::MissingExtentMetadata,
        },
{
    match (node.file_location, node.file_length) {
        (Some(loc), Some(len)) => {
            let size = image.len() as u64;
            if loc > size || len > size - loc {
                Err(ExtractError::ShortRead)
            } else {
                Ok(&image[loc as usize..(loc + len) as usize])
            }
        },
        _ => Err(ExtractError::MissingExtentMetadata),
    }
}


/// One action that extracting a node takes on local storage.
#[derive(Debug)]
pub enum ExtractStep {
    /// Create the directory at this path.
    CreateDirectory(String),
    /// Write the image bytes in `start..end` to a new file at this path.
    WriteFile(String, usize, usize),
}

/// The value of an extraction step.
pub enum StepView {
    CreateDirectory(Seq<char>),
    WriteFile(Seq<char>, int, int),
}

impl View for ExtractStep {
    type V = StepView;

    open spec fn view(&self) -> StepView {
        match self {
            ExtractStep::CreateDirectory(p) => StepView::CreateDirectory(p@),
            ExtractStep::WriteFile(p, start, end) => StepView::WriteFile(p@, *start as int, *end as int),
        }
    }
}

/// The values of a sequence of steps.
pub open spec fn steps_view(v: Seq<ExtractStep>) -> Seq<StepView> {
    v.map_values(|s: ExtractStep| s@)
}

/// `name` inside directory `dir`.
pub open spec fn join_path(dir: Seq<char>, name: Seq<char>) -> Seq<char> {
    dir + seq!['/'] + name
}

/// The steps that extract `m` into directory `base` of local storage, for an
/// image of `image_len` bytes: a directory is created and then filled with
/// its children in order; a file is written from its extent. The first file
/// without extent information, or whose extent runs past the image, fails.
pub open spec fn node_steps(image_len: int, m: NodeModel, base: Seq<char>) -> Result<
    Seq<StepView>,
    ExtractError,
>
    decreases m, 1int, 0int,
{
    let path = join_path(base, m.name);
    if m.is_directory {
        match children_steps(image_len, m, path, m.children.len() as int) {
            Ok(s) => Ok(seq![StepView::CreateDirectory(path)] + s),
            Err(e) => Err(e),
        }
    } else {
        match (m.file_location, m.file_length) {
            (Some(loc), Some(len)) => if loc + len <= image_len {
                Ok(seq![StepView::WriteFile(path, loc as int, loc + len)])
            } else {
                Err(ExtractError::ShortRead)
            },
            _ => Err(ExtractError::MissingExtentMetadata),
        }
    }
}

/// The steps that extract the first `k` children of `m` into `base`.
pub open spec fn children_steps(image_len: int, m: NodeModel, base: Seq<char>, k: int) -> Result<
    Seq<StepView>,
    ExtractError,
>
    decreases m, 0int, k,
{
    if k <= 0 || k > m.children.len() {
        Ok(Seq::empty())
    } else {
        match children_steps(image_len, m, base, k - 1) {
            Ok(a) => match node_steps(image_len, m.children[k - 1], base) {
                Ok(b) => Ok(a + b),
                Err(e) => Err(e),
            },
            Err(e) => Err(e),
        }
    }
}

/// The steps that extract `m` into `base`: the root, named "/", puts its
/// children straight into `base`.
pub open spec fn extraction_steps(image_len: int, m: NodeModel, base: Seq<char>) -> Result<
    Seq<StepView>,
    ExtractError,
> {
    if m.is_directory && m.name == seq!['/'] {
        children_steps(image_len, m, base, m.children.len() as int)
    } else {
        node_steps(image_len, m, base)
    }
}

/// Once the steps for a prefix of the children fail, so do those for every
/// longer prefix, with the same error.
proof fn lemma_children_steps_error_sticks(
    image_len: int,
    m: NodeModel,
    base: Seq<char>,
    k: int,
    j: int,
)
    requires
        0 <= k <= j <= m.children.len(),
        children_steps(image_len, m, base, k) is Err,
    ensures
        children_steps(image_len, m, base, j) == children_steps(image_len, m, base, k),
    decreases j - k,
{
    if j > k {
        lemma_children_steps_error_sticks(image_len, m, base, k, j - 1);
    }
}

/// `name` inside directory `dir`.
fn join(dir: &str, name: &str) -> (r: String)
    ensures
        r@ == join_path(dir@, name@),
{
    proof {
        reveal_strlit("/");
        assert("/"@ =~= seq!['/']);
    }
    String::from_str(dir).concat("/").concat(name)
}

/// Appends the steps that extract the children of `node` into `base`.
fn plan_children(image_len: usize, node: &TreeNode, base: &str, steps: &mut Vec<ExtractStep>) -> (r:
    Result<(), ExtractError>)
    ensures
        match children_steps(image_len as int, node.model(), base@, node.children@.len() as int) {
            Ok(s) => r is Ok && steps_view(final(steps)@) == steps_view(old(steps)@) + s,
            Err(e) => r matches Err(f) && f == e,
        },
    decreases node, 0int,
{
    let n = node.children.len();
    let mut k: usize = 0;
    assert(steps_view(steps@) =~= steps_view(old(steps)@) + Seq::empty());
    while k < n
        invariant
            n == node.children@.len(),
            k <= n,
            children_steps(image_len as int, node.model(), base@, k as int) matches Ok(s)
                && steps_view(steps@) == steps_view(old(steps)@) + s,
        decreases n - k,
    {
        let ghost before = steps@;
        let child = &node.children[k];
        assert(node.model().children[k as int] == child.model());
        match plan_node(image_len, child, base, steps) {
            Ok(()) => {
                let ghost a = children_steps(image_len as int, node.model(), base@, k as int)->Ok_0;
                let ghost b = node_steps(image_len as int, child.model(), base@)->Ok_0;
                assert(steps_view(old(steps)@) + a + b =~= steps_view(old(steps)@) + (a + b));
            },
            Err(e) => {
                proof {
                    lemma_children_steps_error_sticks(
                        image_len as int,
                        node.model(),
                        base@,
                        k + 1,
                        n as int,
                    );
                }
                return Err(e);
            },
        }
        k += 1;
    }
    Ok(())
}

/// Appends the steps that extract `node` into `base`.
fn plan_node(image_len: usize, node: &TreeNode, base: &str, steps: &mut Vec<ExtractStep>) -> (r:
    Result<(), ExtractError>)
    ensures
        match node_steps(image_len as int, node.model(), base@) {
            Ok(s) => r is Ok && steps_view(final(steps)@) == steps_view(old(steps)@) + s,
            Err(e) => r matches Err(f) && f == e,
        },
    decreases node, 1int,
{
    let path = join(base, node.name.as_str());
    if node.is_directory {
        let ghost start = steps@;
        steps.push(ExtractStep::CreateDirectory(path.clone()));
        assert(steps_view(steps@) =~= steps_view(start).push(StepView::CreateDirectory(path@)));
        let r = plan_children(image_len, node, path.as_str(), steps);
        proof {
            if r is Ok {
                let s = children_steps(image_len as int, node.model(), path@, node.children@.len() as int)->Ok_0;
                assert(steps_view(start).push(StepView::CreateDirectory(path@)) + s =~= steps_view(start)
                    + (seq![StepView::CreateDirectory(path@)] + s));
            }
        }
        r
    } else {
        match (node.file_location, node.file_length) {
            (Some(loc), Some(len)) => {
                let size = image_len as u64;
                if loc > size || len > size - loc {
                    Err(ExtractError::ShortRead)
                } else {
                    let ghost start = steps@;
                    steps.push(ExtractStep::WriteFile(path, loc as usize, (loc + len) as usize));
                    assert(steps_view(steps@) =~= steps_view(start) + seq![
                        StepView::WriteFile(path@, loc as int, loc + len),
                    ]);
                    Ok(())
                }
            },
            _ => Err(ExtractError::MissingExtentMetadata),
        }
    }
}

/// The steps that extract `node` of a tree read from `image` into the
/// directory `output_path`, in order; where the tree's root is given, its
/// children go straight into `output_path`.
pub fn extract_node(image: &[u8], node: &TreeNode, output_path: &str) -> (r: Result<
    Vec<ExtractStep>,
    ExtractError,
>)
    ensures
        match extraction_steps(image@.len() as int, node.model(), output_path@) {
            Ok(s) => r matches Ok(v) && steps_view(v@) == s,
            Err(e) => r matches Err(f) && f == e,
        },
{
    let mut steps: Vec<ExtractStep> = Vec::new();
    proof {
        reveal_strlit("/");
    }
    let root_name = String::from_str("/");
    assert(root_name@ =~= seq!['/']);
    let r = if node.is_directory && node.name == root_name {
        plan_children(image.len(), node, output_path, &mut steps)
    } else {
        plan_node(image.len(), node, output_path, &mut steps)
    };
    assert(steps_view(Seq::<ExtractStep>::empty()) =~= Seq::empty());
    match r {
        Ok(()) => {
            assert(Seq::<StepView>::empty() + extraction_steps(image@.len() as int, node.model(), output_path@)->Ok_0
                =~= extraction_steps(image@.len() as int, node.model(), output_path@)->Ok_0);
            Ok(steps)
        },
        Err(e) => Err(e),
    }
}


/// The steps that extract the node that `path` leads to from `root` into
/// `output_path`; fails with `PathNotFound` where the path leads nowhere.
pub fn extract_path(image: &[u8], root: &TreeNode, path: &str, output_path: &str) -> (r: Result<
    Vec<ExtractStep>,
    ExtractError,
>)
    ensures
        match lookup(root.model(), path_segments(path@)) {
            None => r matches Err(e) && e == ExtractError::PathNotFound,
            Some(m) => match extraction_steps(image@.len() as int, m, output_path@) {
                Ok(s) => r matches Ok(v) && steps_view(v@) == s,
                Err(e) => r matches Err(f) && f == e,
            },
        },
{
    match root.find_node(path) {
        Some(node) => extract_node(image, node, output_path),
        None => Err(ExtractError::PathNotFound),
    }
}

} // verus!
