//! The node tree of a scene graph as the exporter and the preview walk it:
//! children lists, scene roots, the mesh each node carries and the bindings of
//! a node.
use vstd::prelude::*;
use crate::scene::MeshBinding;

verus! {

/// `p` names a node of a scene of `n` nodes.
pub open spec fn parent_in_range(p: i32, n: nat) -> bool {
    0 <= p && p < n
}

/// Indices below `k` whose parent is node `p`, in increasing order.
pub open spec fn children_upto(parents: Seq<i32>, p: int, k: int) -> Seq<usize>
    decreases k,
{
    if k <= 0 {
        Seq::empty()
    } else {
        children_upto(parents, p, k - 1) + if parent_in_range(parents[k - 1], parents.len()) && parents[k
            - 1] == p {
            seq![(k - 1) as usize]
        } else {
            Seq::empty()
        }
    }
}

/// Indices below `k` without a parent in range, in increasing order.
pub open spec fn roots_upto(parents: Seq<i32>, k: int) -> Seq<usize>
    decreases k,
{
    if k <= 0 {
        Seq::empty()
    } else {
        roots_upto(parents, k - 1) + if !parent_in_range(parents[k - 1], parents.len()) {
            seq![(k - 1) as usize]
        } else {
            Seq::empty()
        }
    }
}

/// The nodes of a scene grouped under their parents.
pub struct SceneHierarchy {
    /// The children of each node, in index order.
    pub children: Vec<Vec<usize>>,
    /// The nodes whose parent is missing or out of range, in index order.
    pub roots: Vec<usize>,
}

/// Groups the nodes of a scene (given by their parent indices) under their
/// parents; a node whose parent index is negative or out of range is a root.
pub fn scene_hierarchy(parents: &[i32]) -> (r: SceneHierarchy)
    ensures
        r.children@.len() == parents@.len(),
        forall|p: int|
            0 <= p < parents@.len() ==> #[trigger] r.children@[p]@ == children_upto(
                parents@,
                p,
                parents@.len() as int,
            ),
        r.roots@ == roots_upto(parents@, parents@.len() as int),
{
    let n = parents.len();
    let mut children: Vec<Vec<usize>> = Vec::new();
    let mut i: usize = 0;
    while i < n
        invariant
            n == parents@.len(),
            i <= n,
            children@.len() == i,
            forall|p: int| 0 <= p < i ==> (#[trigger] children@[p])@ == Seq::<usize>::empty(),
        decreases n - i,
    {
        children.push(Vec::new());
        i = i + 1;
    }
    let mut roots: Vec<usize> = Vec::new();
    let mut k: usize = 0;
    while k < n
        invariant
            n == parents@.len(),
            k <= n,
            children@.len() == n,
            forall|p: int|
                0 <= p < n ==> #[trigger] children@[p]@ == children_upto(parents@, p, k as int),
            roots@ == roots_upto(parents@, k as int),
        decreases n - k,
    {
        let p = parents[k];
        if p >= 0 && (p as usize) < n {
            let pu = p as usize;
            let ghost before = children@;
            children[pu].push(k);
            proof {
                assert forall|q: int| 0 <= q < n implies #[trigger] children@[q]@ == children_upto(
                    parents@,
                    q,
                    k + 1,
                ) by {
                    if q != pu {
                        assert(children@[q] == before[q]);
                    }
                }
            }
        } else {
            roots.push(k);
            proof {
                assert forall|q: int| 0 <= q < n implies #[trigger] children@[q]@ == children_upto(
                    parents@,
                    q,
                    k + 1,
                ) by {
                    assert(children_upto(parents@, q, k + 1) =~= children_upto(parents@, q, k as int));
                }
            }
        }
        k = k + 1;
    }
    SceneHierarchy { children, roots }
}

/// The mesh that node `node` carries after the first `k` bindings: the last of
/// them that places an existing mesh on it, if any.
pub open spec fn assigned_mesh(bindings: Seq<MeshBinding>, node: int, num_nodes: nat, num_meshes: nat, k: int) -> Option<
    u32,
>
    decreases k,
{
    if k <= 0 {
        None
    } else {
        let b = bindings[k - 1];
        if b.node_index == node && b.node_index < num_nodes && b.mesh_index < num_meshes {
            Some(b.mesh_index)
        } else {
            assigned_mesh(bindings, node, num_nodes, num_meshes, k - 1)
        }
    }
}

/// Binding `b` places an existing mesh on an existing node.
pub open spec fn binding_places(b: MeshBinding, num_nodes: nat, num_meshes: nat) -> bool {
    b.node_index < num_nodes && b.mesh_index < num_meshes
}

/// Binding `k` places a mesh on node `node`, and no later one among the first
/// `len` does.
pub open spec fn last_placing_binding(
    bindings: Seq<MeshBinding>,
    node: int,
    num_nodes: nat,
    num_meshes: nat,
    len: int,
    k: int,
) -> bool {
    &&& 0 <= k < len
    &&& binding_places(bindings[k], num_nodes, num_meshes)
    &&& bindings[k].node_index == node
    &&& forall|k2: int|
        k < k2 < len ==> !(binding_places(#[trigger] bindings[k2], num_nodes, num_meshes) && bindings[k2].node_index
            == node)
}

/// Law: after the first `len` bindings, a node carries the mesh of the last
/// binding that places an existing mesh on it, and carries none exactly when no
/// such binding names it.
pub proof fn lemma_assigned_mesh_is_last_binding(
    bindings: Seq<MeshBinding>,
    node: int,
    num_nodes: nat,
    num_meshes: nat,
    len: int,
)
    requires
        0 <= len <= bindings.len(),
    ensures
        assigned_mesh(bindings, node, num_nodes, num_meshes, len) is None <==> forall|k: int|
            0 <= k < len ==> !(binding_places(#[trigger] bindings[k], num_nodes, num_meshes) && bindings[k].node_index
                == node),
        forall|k: int|
            #[trigger] last_placing_binding(bindings, node, num_nodes, num_meshes, len, k) ==> assigned_mesh(
                bindings,
                node,
                num_nodes,
                num_meshes,
                len,
            ) == Some(bindings[k].mesh_index),
    decreases len,
{
    if len > 0 {
        lemma_assigned_mesh_is_last_binding(bindings, node, num_nodes, num_meshes, len - 1);
        let b = bindings[len - 1];
        assert forall|k: int|
            #[trigger] last_placing_binding(bindings, node, num_nodes, num_meshes, len, k) implies assigned_mesh(
            bindings,
            node,
            num_nodes,
            num_meshes,
            len,
        ) == Some(bindings[k].mesh_index) by {
            if k < len - 1 {
                assert(!(binding_places(bindings[len - 1], num_nodes, num_meshes) && bindings[len - 1].node_index
                    == node));
                assert(last_placing_binding(bindings, node, num_nodes, num_meshes, len - 1, k));
            }
        }
        if !(b.node_index == node && b.node_index < num_nodes && b.mesh_index < num_meshes) {
            if assigned_mesh(bindings, node, num_nodes, num_meshes, len) is None {
                assert forall|k: int| 0 <= k < len implies !(binding_places(#[trigger] bindings[k], num_nodes, num_meshes)
                    && bindings[k].node_index == node) by {
                    if k < len - 1 {
                        assert(!(binding_places(bindings[k], num_nodes, num_meshes) && bindings[k].node_index == node));
                    }
                }
            }
        } else {
            assert(binding_places(bindings[len - 1], num_nodes, num_meshes) && bindings[len - 1].node_index == node);
        }
    }
}

/// The mesh each of `num_nodes` nodes carries in an exported scene: a later
/// binding replaces an earlier one, and bindings that name a missing node or
/// mesh are ignored.
pub fn node_mesh_assignment(bindings: &[MeshBinding], num_nodes: usize, num_meshes: usize) -> (r: Vec<Option<u32>>)
    ensures
        r@.len() == num_nodes,
        forall|i: int|
            0 <= i < num_nodes ==> #[trigger] r@[i] == assigned_mesh(
                bindings@,
                i,
                num_nodes as nat,
                num_meshes as nat,
                bindings@.len() as int,
            ),
        forall|i: int|
            0 <= i < num_nodes ==> (#[trigger] r@[i] is None <==> forall|k: int|
                0 <= k < bindings@.len() ==> !(binding_places(
                    #[trigger] bindings@[k],
                    num_nodes as nat,
                    num_meshes as nat,
                ) && bindings@[k].node_index == i)),
        forall|k: int|
            0 <= k < bindings@.len() && #[trigger] last_placing_binding(
                bindings@,
                bindings@[k].node_index as int,
                num_nodes as nat,
                num_meshes as nat,
                bindings@.len() as int,
                k,
            ) ==> r@[bindings@[k].node_index as int] == Some(bindings@[k].mesh_index),
{
    let mut slots: Vec<Option<u32>> = Vec::new();
    let mut i: usize = 0;
    while i < num_nodes
        invariant
            i <= num_nodes,
            slots@.len() == i,
            forall|q: int| 0 <= q < i ==> #[trigger] slots@[q] == None::<u32>,
        decreases num_nodes - i,
    {
        slots.push(None);
        i = i + 1;
    }
    let mut k: usize = 0;
    while k < bindings.len()
        invariant
            k <= bindings@.len(),
            slots@.len() == num_nodes,
            forall|q: int|
                0 <= q < num_nodes ==> #[trigger] slots@[q] == assigned_mesh(
                    bindings@,
                    q,
                    num_nodes as nat,
                    num_meshes as nat,
                    k as int,
                ),
        decreases bindings@.len() - k,
    {
        let b = bindings[k];
        if (b.node_index as usize) < num_nodes && (b.mesh_index as usize) < num_meshes {
            slots.set(b.node_index as usize, Some(b.mesh_index));
        }
        k = k + 1;
    }
    proof {
        assert forall|i: int| 0 <= i < num_nodes implies (#[trigger] slots@[i] is None <==> forall|k: int|
            0 <= k < bindings@.len() ==> !(binding_places(#[trigger] bindings@[k], num_nodes as nat, num_meshes as nat)
                && bindings@[k].node_index == i)) by {
            lemma_assigned_mesh_is_last_binding(bindings@, i, num_nodes as nat, num_meshes as nat, bindings@.len() as int);
        }
        assert forall|k: int|
            0 <= k < bindings@.len() && #[trigger] last_placing_binding(
                bindings@,
                bindings@[k].node_index as int,
                num_nodes as nat,
                num_meshes as nat,
                bindings@.len() as int,
                k,
            ) implies slots@[bindings@[k].node_index as int] == Some(bindings@[k].mesh_index) by {
            let i = bindings@[k].node_index as int;
            lemma_assigned_mesh_is_last_binding(bindings@, i, num_nodes as nat, num_meshes as nat, bindings@.len() as int);
        }
    }
    slots
}

/// Meshes of the bindings among the first `k` that place a mesh on node `node`,
/// in binding order.
pub open spec fn bound_upto(bindings: Seq<MeshBinding>, node: int, k: int) -> Seq<u32>
    decreases k,
{
    if k <= 0 {
        Seq::empty()
    } else {
        bound_upto(bindings, node, k - 1) + if bindings[k - 1].node_index == node {
            seq![bindings[k - 1].mesh_index]
        } else {
            Seq::empty()
        }
    }
}

/// The meshes bound to node `node`, in binding order.
pub fn bound_meshes(bindings: &[MeshBinding], node: usize) -> (r: Vec<u32>)
    ensures
        r@ == bound_upto(bindings@, node as int, bindings@.len() as int),
{
    let mut out: Vec<u32> = Vec::new();
    let mut k: usize = 0;
    while k < bindings.len()
        invariant
            k <= bindings@.len(),
            out@ == bound_upto(bindings@, node as int, k as int),
        decreases bindings@.len() - k,
    {
        if bindings[k].node_index as usize == node {
            out.push(bindings[k].mesh_index);
        }
        k = k + 1;
    }
    out
}

/// Every entry of `children_upto(parents, p, k)` is an index below `k` whose
/// parent is `p`, and the entries increase strictly.
proof fn lemma_children_upto(parents: Seq<i32>, p: int, k: int)
    requires
        0 <= k <= parents.len(),
        parents.len() <= usize::MAX,
    ensures
        forall|t: int|
            0 <= t < children_upto(parents, p, k).len() ==> {
                let c = #[trigger] children_upto(parents, p, k)[t];
                &&& c < k
                &&& parent_in_range(parents[c as int], parents.len())
                &&& parents[c as int] == p
            },
        forall|t1: int, t2: int|
            0 <= t1 < t2 < children_upto(parents, p, k).len() ==> #[trigger] children_upto(parents, p, k)[t1]
                < #[trigger] children_upto(parents, p, k)[t2],
    decreases k,
{
    if k > 0 {
        lemma_children_upto(parents, p, k - 1);
        let prev = children_upto(parents, p, k - 1);
        let cur = children_upto(parents, p, k);
        assert forall|t: int| 0 <= t < prev.len() implies cur[t] == prev[t] && prev[t] < k - 1 by {
            assert(prev[t] == children_upto(parents, p, k - 1)[t]);
        }
        if cur.len() > prev.len() {
            assert(cur[prev.len() as int] == k - 1);
        }
        assert forall|t1: int, t2: int| 0 <= t1 < t2 < cur.len() implies #[trigger] cur[t1] < #[trigger] cur[t2] by {
            if t2 < prev.len() {
                assert(prev[t1] < prev[t2]);
            }
        }
    }
}

/// How a line of the scene tree preview is drawn.
#[derive(Clone, Copy, Debug, PartialEq, Eq)]
pub enum TreeBranch {
    /// A line that starts a tree.
    Root,
    /// A child that has later siblings.
    Branch,
    /// The last child of its parent.
    Last,
}

/// One line of the scene tree preview.
#[derive(Clone, Copy, Debug, PartialEq, Eq)]
pub struct PreviewLine {
    pub node: usize,
    pub depth: usize,
    pub branch: TreeBranch,
}

/// Nodes below `k` without a parent in range, other than `skip`, in increasing order.
pub open spec fn roots_except_upto(parents: Seq<i32>, skip: int, k: int) -> Seq<usize>
    decreases k,
{
    if k <= 0 {
        Seq::empty()
    } else {
        roots_except_upto(parents, skip, k - 1) + if !parent_in_range(parents[k - 1], parents.len()) && k - 1
            != skip {
            seq![(k - 1) as usize]
        } else {
            Seq::empty()
        }
    }
}

/// The trees that the preview starts from, in order: the requested root node if
/// it exists, then the other parentless nodes; node 0 when that leaves none.
pub open spec fn preview_roots(parents: Seq<i32>, root_node: i32) -> Seq<usize> {
    let n = parents.len();
    let base = if parent_in_range(root_node, n) {
        seq![root_node as usize] + roots_except_upto(parents, root_node as int, n as int)
    } else {
        roots_except_upto(parents, -1, n as int)
    };
    if base.len() == 0 {
        seq![0usize]
    } else {
        base
    }
}

/// The requested root node and the parentless nodes, in preview order.
fn ordered_preview_roots(parents: &[i32], root_node: i32) -> (r: Vec<usize>)
    ensures
        r@ == preview_roots(parents@, root_node),
{
    let n = parents.len();
    let mut out: Vec<usize> = Vec::new();
    let has_root = root_node >= 0 && (root_node as usize) < n;
    let skip: usize = if has_root {
        root_node as usize
    } else {
        n
    };
    let ghost skip_spec: int = if has_root {
        root_node as int
    } else {
        -1
    };
    if has_root {
        out.push(root_node as usize);
    }
    let ghost head = out@;
    let mut k: usize = 0;
    while k < n
        invariant
            n == parents@.len(),
            k <= n,
            has_root == parent_in_range(root_node, n as nat),
            has_root ==> skip == root_node && skip_spec == root_node,
            !has_root ==> skip == n && skip_spec == -1,
            head == (if has_root {
                seq![root_node as usize]
            } else {
                Seq::<usize>::empty()
            }),
            out@ == head + roots_except_upto(parents@, skip_spec, k as int),
        decreases n - k,
    {
        let p = parents[k];
        if !(p >= 0 && (p as usize) < n) && k != skip {
            out.push(k);
        }
        assert(out@ =~= head + roots_except_upto(parents@, skip_spec, k + 1));
        k = k + 1;
    }
    if out.len() == 0 {
        out.push(0);
    }
    assert(out@ =~= preview_roots(parents@, root_node));
    out
}

/// Number of `false` entries of `v`.
pub open spec fn unvisited(v: Seq<bool>) -> nat
    decreases v.len(),
{
    if v.len() == 0 {
        0
    } else {
        unvisited(v.drop_last()) + if v.last() {
            0nat
        } else {
            1nat
        }
    }
}

proof fn lemma_unvisited_mark(v: Seq<bool>, i: int)
    requires
        0 <= i < v.len(),
        !v[i],
    ensures
        unvisited(v.update(i, true)) + 1 == unvisited(v),
    decreases v.len(),
{
    let w = v.update(i, true);
    if i < v.len() - 1 {
        assert(w.drop_last() =~= v.drop_last().update(i, true));
        lemma_unvisited_mark(v.drop_last(), i);
    } else {
        assert(w.drop_last() =~= v.drop_last());
    }
}

proof fn lemma_unvisited_mono(a: Seq<bool>, b: Seq<bool>)
    requires
        a.len() == b.len(),
        forall|i: int| 0 <= i < a.len() && #[trigger] a[i] ==> b[i],
    ensures
        unvisited(b) <= unvisited(a),
    decreases a.len(),
{
    if a.len() > 0 {
        lemma_unvisited_mono(a.drop_last(), b.drop_last());
    }
}

/// Node `i` has a line among `lines`.
pub open spec fn shown(lines: Seq<PreviewLine>, i: int) -> bool {
    exists|j: int| 0 <= j < lines.len() && #[trigger] lines[j].node == i
}

/// No node has two lines.
pub open spec fn lines_distinct(lines: Seq<PreviewLine>) -> bool {
    forall|a: int, b: int| 0 <= a < b < lines.len() ==> #[trigger] lines[a].node != #[trigger] lines[b].node
}

/// Line `j` hangs under the line of its node's parent: that line is one level
/// up, and no line between them is shallower than line `j`.
pub open spec fn attached_at(parents: Seq<i32>, lines: Seq<PreviewLine>, j: int, i: int) -> bool {
    &&& 0 <= i < j
    &&& lines[i].node == parents[lines[j].node as int]
    &&& lines[i].depth + 1 == lines[j].depth
    &&& forall|m: int| i < m < j ==> #[trigger] lines[m].depth >= lines[j].depth
}

/// Line `j` of a preview of the scene with parent indices `parents` is drawn
/// correctly: it names a node, it is a root line exactly at depth zero, and a
/// deeper line hangs under its parent's line and is marked last exactly when
/// its node is the last child of that parent.
pub open spec fn line_ok(parents: Seq<i32>, lines: Seq<PreviewLine>, j: int) -> bool {
    let l = lines[j];
    let n = parents.len();
    &&& l.node < n
    &&& l.depth <= j
    &&& (l.depth == 0) == (l.branch == TreeBranch::Root)
    &&& l.depth > 0 ==> {
        &&& parent_in_range(parents[l.node as int], n)
        &&& exists|i: int| #[trigger] attached_at(parents, lines, j, i)
        &&& (l.branch == TreeBranch::Last) == (l.node == children_upto(
            parents,
            parents[l.node as int] as int,
            n as int,
        ).last())
    }
}

/// Children of one parent are drawn in increasing index order.
pub open spec fn siblings_in_order(parents: Seq<i32>, lines: Seq<PreviewLine>) -> bool {
    forall|a: int, b: int|
        0 <= a < b < lines.len() && lines[a].depth > 0 && lines[b].depth > 0 && parents[lines[a].node as int]
            == parents[lines[b].node as int] ==> #[trigger] lines[a].node < #[trigger] lines[b].node
}

/// Every line deeper than the root level whose node has parent `p` comes
/// before node `c` in index order.
pub open spec fn siblings_before(parents: Seq<i32>, lines: Seq<PreviewLine>, p: int, c: int) -> bool {
    forall|a: int|
        0 <= a < lines.len() && #[trigger] lines[a].depth > 0 && parents[lines[a].node as int] == p ==> lines[a].node
            < c
}

/// `children` lists the children of every node of `parents`.
pub open spec fn is_hierarchy(parents: Seq<i32>, children: Seq<Vec<usize>>) -> bool {
    &&& children.len() == parents.len()
    &&& forall|p: int|
        0 <= p < parents.len() ==> #[trigger] children[p]@ == children_upto(parents, p, parents.len() as int)
}

/// The bookkeeping of a preview in progress: `visited` marks the nodes that
/// have a line, lines are distinct and drawn correctly, and there are at most
/// `max_nodes` of them.
pub open spec fn preview_state(parents: Seq<i32>, visited: Seq<bool>, lines: Seq<PreviewLine>, max_nodes: nat) -> bool {
    &&& visited.len() == parents.len()
    &&& forall|i: int| 0 <= i < parents.len() ==> #[trigger] visited[i] == shown(lines, i)
    &&& lines_distinct(lines)
    &&& lines.len() <= max_nodes
    &&& forall|j: int| 0 <= j < lines.len() ==> #[trigger] line_ok(parents, lines, j)
    &&& siblings_in_order(parents, lines)
}

proof fn lemma_push_line(parents: Seq<i32>, visited: Seq<bool>, lines: Seq<PreviewLine>, max_nodes: nat, l: PreviewLine)
    requires
        preview_state(parents, visited, lines, max_nodes),
        lines.len() < max_nodes,
        l.node < parents.len(),
        !visited[l.node as int],
        line_ok(parents, lines.push(l), lines.len() as int),
        l.depth > 0 ==> siblings_before(parents, lines, parents[l.node as int] as int, l.node as int),
    ensures
        preview_state(parents, visited.update(l.node as int, true), lines.push(l), max_nodes),
{
    let w = lines.push(l);
    let v = visited.update(l.node as int, true);
    assert forall|i: int| 0 <= i < parents.len() implies #[trigger] v[i] == shown(w, i) by {
        if i == l.node {
            assert(w[lines.len() as int].node == i);
        } else {
            if shown(w, i) {
                let j = choose|j: int| 0 <= j < w.len() && #[trigger] w[j].node == i;
                assert(j < lines.len());
                assert(lines[j].node == i);
            }
            if shown(lines, i) {
                let j = choose|j: int| 0 <= j < lines.len() && #[trigger] lines[j].node == i;
                assert(w[j].node == i);
            }
        }
    }
    assert forall|a: int, b: int| 0 <= a < b < w.len() implies #[trigger] w[a].node != #[trigger] w[b].node by {
        if b == lines.len() {
            if w[a].node == l.node {
                assert(lines[a].node == l.node);
                assert(shown(lines, l.node as int));
            }
        }
    }
    assert forall|j: int| 0 <= j < w.len() implies #[trigger] line_ok(parents, w, j) by {
        if j < lines.len() {
            assert(line_ok(parents, lines, j));
            assert(w[j] == lines[j]);
            if lines[j].depth > 0 {
                let i = choose|i: int| #[trigger] attached_at(parents, lines, j, i);
                assert(attached_at(parents, w, j, i));
            }
        }
    }
    assert forall|a: int, b: int|
        0 <= a < b < w.len() && w[a].depth > 0 && w[b].depth > 0 && parents[w[a].node as int] == parents[w[b].node as int]
            implies #[trigger] w[a].node < #[trigger] w[b].node by {
        if b == lines.len() {
            assert(w[a] == lines[a]);
        } else {
            assert(lines[a].node < lines[b].node);
        }
    }
}

/// The visited marks and the lines of a preview in progress.
pub type PreviewProgress = (Seq<bool>, Seq<PreviewLine>);

/// Drawing node `node` at `depth` with `branch`, then its children depth first,
/// from progress `st`: nothing happens once `max_nodes` lines exist or when the
/// node already has a line. `fuel` bounds the nesting.
pub open spec fn preview_visit(
    parents: Seq<i32>,
    max_nodes: nat,
    fuel: nat,
    node: int,
    depth: int,
    branch: TreeBranch,
    st: PreviewProgress,
) -> PreviewProgress
    decreases fuel, 1int, 0int,
{
    if fuel == 0 || st.1.len() >= max_nodes || !(0 <= node < st.0.len()) || st.0[node] {
        st
    } else {
        let st1 = (st.0.update(node, true), st.1.push(PreviewLine { node: node as usize, depth: depth as usize, branch }));
        preview_visit_kids(parents, max_nodes, fuel, node, depth, 0, st1)
    }
}

/// Drawing, from the `t`-th on, the children of `node` (drawn at `depth`) in
/// index order, each one level deeper and marked last when it is the last child.
pub open spec fn preview_visit_kids(
    parents: Seq<i32>,
    max_nodes: nat,
    fuel: nat,
    node: int,
    depth: int,
    t: int,
    st: PreviewProgress,
) -> PreviewProgress
    decreases fuel, 0int, children_upto(parents, node, parents.len() as int).len() - t,
{
    let kids = children_upto(parents, node, parents.len() as int);
    if fuel == 0 || t < 0 || t >= kids.len() || st.1.len() >= max_nodes {
        st
    } else {
        let b = if t + 1 == kids.len() {
            TreeBranch::Last
        } else {
            TreeBranch::Branch
        };
        let st2 = preview_visit(parents, max_nodes, (fuel - 1) as nat, kids[t] as int, depth + 1, b, st);
        preview_visit_kids(parents, max_nodes, fuel, node, depth, t + 1, st2)
    }
}

/// Drawing the trees of `roots` from the `pos`-th on, each at depth zero.
pub open spec fn preview_from_roots(
    parents: Seq<i32>,
    max_nodes: nat,
    roots: Seq<usize>,
    pos: int,
    st: PreviewProgress,
) -> PreviewProgress
    decreases roots.len() - pos,
{
    if pos < 0 || pos >= roots.len() || st.1.len() >= max_nodes {
        st
    } else {
        let st2 = preview_visit(parents, max_nodes, parents.len() + 1, roots[pos] as int, 0, TreeBranch::Root, st);
        preview_from_roots(parents, max_nodes, roots, pos + 1, st2)
    }
}

/// Drawing, in index order from `k` on, every node still without a line as a
/// tree of its own at depth zero.
pub open spec fn preview_rest(parents: Seq<i32>, max_nodes: nat, k: int, st: PreviewProgress) -> PreviewProgress
    decreases parents.len() - k,
{
    if k < 0 || k >= parents.len() || st.1.len() >= max_nodes {
        st
    } else if st.0[k] {
        preview_rest(parents, max_nodes, k + 1, st)
    } else {
        let st2 = preview_visit(parents, max_nodes, parents.len() + 1, k, 0, TreeBranch::Root, st);
        preview_rest(parents, max_nodes, k + 1, st2)
    }
}

/// The scene tree preview: the trees of `preview_roots` drawn depth first with
/// children in index order, then the nodes still without a line as trees of their
/// own, in index order; at most `max_nodes` lines, and no node drawn twice.
pub open spec fn spec_scene_preview(parents: Seq<i32>, root_node: i32, max_nodes: nat) -> Seq<PreviewLine> {
    if parents.len() == 0 {
        Seq::empty()
    } else {
        let init: PreviewProgress = (Seq::new(parents.len(), |i: int| false), Seq::empty());
        preview_rest(
            parents,
            max_nodes,
            0,
            preview_from_roots(parents, max_nodes, preview_roots(parents, root_node), 0, init),
        ).1
    }
}

proof fn lemma_unvisited_bound(v: Seq<bool>)
    ensures
        unvisited(v) <= v.len(),
    decreases v.len(),
{
    if v.len() > 0 {
        lemma_unvisited_bound(v.drop_last());
    }
}

/// Draws node `node` at `depth` and then, depth first, those of its children
/// that have no line yet, until `max_nodes` lines exist.
fn visit_preview(
    parents: &[i32],
    children: &Vec<Vec<usize>>,
    node: usize,
    depth: usize,
    branch: TreeBranch,
    visited: &mut Vec<bool>,
    out: &mut Vec<PreviewLine>,
    max_nodes: usize,
    Ghost(fuel): Ghost<nat>,
)
    requires
        fuel > unvisited(old(visited)@),
        is_hierarchy(parents@, children@),
        node < parents@.len(),
        preview_state(parents@, old(visited)@, old(out)@, max_nodes as nat),
        depth <= old(out)@.len(),
        line_ok(
            parents@,
            old(out)@.push(PreviewLine { node, depth, branch }),
            old(out)@.len() as int,
        ),
        depth > 0 ==> siblings_before(parents@, old(out)@, parents@[node as int] as int, node as int),
    ensures
        preview_state(parents@, final(visited)@, final(out)@, max_nodes as nat),
        old(out)@.len() >= max_nodes || old(visited)@[node as int] ==> final(out)@ == old(out)@,
        forall|j: int| old(out)@.len() < j < final(out)@.len() ==> #[trigger] final(out)@[j].depth > depth,
        old(out)@.len() <= final(out)@.len(),
        final(out)@.subrange(0, old(out)@.len() as int) == old(out)@,
        forall|j: int| old(out)@.len() <= j < final(out)@.len() ==> #[trigger] final(out)@[j].depth >= depth,
        forall|i: int| 0 <= i < parents@.len() && #[trigger] old(visited)@[i] ==> final(visited)@[i],
        final(out)@.len() < max_nodes ==> final(visited)@[node as int],
        old(out)@.len() < max_nodes && !old(visited)@[node as int] ==> final(out)@.len() > old(out)@.len()
            && final(out)@[old(out)@.len() as int] == (PreviewLine { node, depth, branch }),
        (final(visited)@, final(out)@) == preview_visit(
            parents@,
            max_nodes as nat,
            fuel,
            node as int,
            depth as int,
            branch,
            (old(visited)@, old(out)@),
        ),
    decreases unvisited(old(visited)@),
{
    if out.len() >= max_nodes || visited[node] {
        return;
    }
    let line_index = out.len();
    let ghost entry_visited = visited@;
    proof {
        lemma_push_line(parents@, visited@, out@, max_nodes as nat, PreviewLine { node, depth, branch });
        lemma_unvisited_mark(visited@, node as int);
    }
    visited.set(node, true);
    out.push(PreviewLine { node, depth, branch });
    let ghost target = preview_visit_kids(parents@, max_nodes as nat, fuel, node as int, depth as int, 0, (visited@, out@));
    assert((visited@, out@) == (old(visited)@.update(node as int, true), old(out)@.push(
        PreviewLine { node: node as int as usize, depth: depth as int as usize, branch },
    )));
    let kids = &children[node];
    let mut t: usize = 0;
    while t < kids.len() && out.len() < max_nodes
        invariant
            is_hierarchy(parents@, children@),
            parents@.len() == parents.len(),
            old(visited)@.len() == parents@.len(),
            kids@ == children_upto(parents@, node as int, parents@.len() as int),
            node < parents@.len(),
            t <= kids@.len(),
            line_index == old(out)@.len(),
            line_index < out@.len(),
            depth <= line_index,
            out@[line_index as int] == (PreviewLine { node, depth, branch }),
            out@.subrange(0, old(out)@.len() as int) == old(out)@,
            preview_state(parents@, visited@, out@, max_nodes as nat),
            visited@[node as int],
            forall|j: int| line_index < j < out@.len() ==> #[trigger] out@[j].depth >= depth + 1,
            forall|a: int|
                line_index < a < out@.len() && #[trigger] out@[a].depth == depth + 1 ==> t > 0 && out@[a].node
                    <= kids@[t - 1],
            forall|i: int| 0 <= i < parents@.len() && #[trigger] old(visited)@[i] ==> visited@[i],
            unvisited(visited@) < unvisited(old(visited)@),
            entry_visited == old(visited)@,
            fuel > unvisited(old(visited)@),
            preview_visit_kids(parents@, max_nodes as nat, fuel, node as int, depth as int, t as int, (visited@, out@))
                == target,
        decreases kids@.len() - t,
    {
        let c = kids[t];
        let b = if t + 1 == kids.len() {
            TreeBranch::Last
        } else {
            TreeBranch::Branch
        };
        let ghost before_out = out@;
        let ghost before_visited = visited@;
        proof {
            lemma_children_upto(parents@, node as int, parents@.len() as int);
            let l = PreviewLine { node: c, depth: (depth + 1) as usize, branch: b };
            let w = out@.push(l);
            assert(kids@[t as int] == c);
            assert(parents@[c as int] == node);
            assert(w[line_index as int].node == node);
            assert(w[out@.len() as int] == l);
            assert forall|m: int| line_index < m < out@.len() implies #[trigger] w[m].depth >= l.depth by {
                assert(w[m] == out@[m]);
            }
            assert(attached_at(parents@, w, out@.len() as int, line_index as int));
            assert(c == kids@.last() <==> t + 1 == kids@.len()) by {
                if c == kids@.last() && t + 1 != kids@.len() {
                    assert(kids@[t as int] < kids@[kids@.len() - 1]);
                }
            }
            assert(line_ok(parents@, w, out@.len() as int));
            assert forall|a: int|
                0 <= a < out@.len() && #[trigger] out@[a].depth > 0 && parents@[out@[a].node as int] == node implies out@[a].node
                    < c by {
                assert(line_ok(parents@, out@, a));
                let i = choose|i: int| #[trigger] attached_at(parents@, out@, a, i);
                assert(out@[i].node == node);
                assert(out@[line_index as int].node == node);
                if i != line_index {
                    if i < line_index {
                        assert(out@[i].node != out@[line_index as int].node);
                    } else {
                        assert(out@[line_index as int].node != out@[i].node);
                    }
                }
                assert(out@[a].depth == depth + 1);
                assert(kids@[t - 1] < kids@[t as int]);
            }
            assert(siblings_before(parents@, out@, parents@[c as int] as int, c as int));
        }
        visit_preview(parents, children, c, depth + 1, b, visited, out, max_nodes, Ghost((fuel - 1) as nat));
        proof {
            lemma_unvisited_mono(before_visited, visited@);
            assert(out@.subrange(0, old(out)@.len() as int) =~= old(out)@) by {
                assert(out@.subrange(0, before_out.len() as int) == before_out);
                assert forall|q: int| 0 <= q < old(out)@.len() implies out@[q] == old(out)@[q] by {
                    assert(out@[q] == out@.subrange(0, before_out.len() as int)[q]);
                    assert(before_out[q] == before_out.subrange(0, old(out)@.len() as int)[q]);
                }
            }
            assert(out@[line_index as int] == before_out[line_index as int]) by {
                assert(out@.subrange(0, before_out.len() as int)[line_index as int] == before_out[line_index as int]);
            }
            assert forall|j: int| line_index < j < out@.len() implies #[trigger] out@[j].depth >= depth + 1 by {
                if j < before_out.len() {
                    assert(out@.subrange(0, before_out.len() as int)[j] == before_out[j]);
                }
            }
            lemma_children_upto(parents@, node as int, parents@.len() as int);
            assert forall|a: int| line_index < a < out@.len() && #[trigger] out@[a].depth == depth + 1 implies t + 1
                > 0 && out@[a].node <= kids@[t as int] by {
                if a < before_out.len() {
                    assert(out@.subrange(0, before_out.len() as int)[a] == before_out[a]);
                    assert(before_out[a].node <= kids@[t - 1]);
                    assert(kids@[t - 1] < kids@[t as int]);
                } else if a > before_out.len() {
                    assert(out@[a].depth > depth + 1);
                }
            }
        }
        t = t + 1;
    }
    proof {
        assert((visited@, out@) == target);
        assert forall|j: int| old(out)@.len() <= j < out@.len() implies #[trigger] out@[j].depth >= depth by {
            if j > line_index {
                assert(out@[j].depth >= depth + 1);
            }
        }
    }
}

/// The lines of the scene tree preview: the trees of `preview_roots` drawn depth
/// first, children in index order, then every node still without a line as a
/// tree of its own, stopping once `max_nodes` lines exist. No node is drawn twice.
pub fn scene_preview_lines(parents: &[i32], root_node: i32, max_nodes: usize) -> (r: Vec<PreviewLine>)
    ensures
        r@ == spec_scene_preview(parents@, root_node, max_nodes as nat),
        parents@.len() == 0 ==> r@.len() == 0,
        r@.len() <= max_nodes,
        lines_distinct(r@),
        forall|j: int| 0 <= j < r@.len() ==> #[trigger] line_ok(parents@, r@, j),
        siblings_in_order(parents@, r@),
        r@.len() < max_nodes ==> forall|i: int| 0 <= i < parents@.len() ==> #[trigger] shown(r@, i),
        parents@.len() > 0 && max_nodes > 0 ==> r@.len() > 0 && r@[0] == (PreviewLine {
            node: preview_roots(parents@, root_node)[0],
            depth: 0,
            branch: TreeBranch::Root,
        }),
{
    let n = parents.len();
    let mut out: Vec<PreviewLine> = Vec::new();
    if n == 0 {
        return out;
    }
    let hierarchy = scene_hierarchy(parents);
    let ordered = ordered_preview_roots(parents, root_node);
    let mut visited: Vec<bool> = Vec::new();
    let mut i: usize = 0;
    while i < n
        invariant
            n == parents@.len(),
            i <= n,
            visited@.len() == i,
            forall|q: int| 0 <= q < i ==> !#[trigger] visited@[q],
        decreases n - i,
    {
        visited.push(false);
        i = i + 1;
    }
    assert(preview_state(parents@, visited@, out@, max_nodes as nat));
    let ghost init: PreviewProgress = (visited@, out@);
    assert(init == (Seq::new(parents@.len(), |i: int| false), Seq::<PreviewLine>::empty()));
    let ghost roots_target = preview_from_roots(parents@, max_nodes as nat, ordered@, 0, init);
    assert forall|q: int| 0 <= q < ordered@.len() implies #[trigger] ordered@[q] < n by {
        lemma_roots_except_upto(parents@, if parent_in_range(root_node, n as nat) {
            root_node as int
        } else {
            -1
        }, n as int);
    }
    let mut pos: usize = 0;
    while pos < ordered.len() && out.len() < max_nodes
        invariant
            n == parents@.len(),
            n > 0,
            is_hierarchy(parents@, hierarchy.children@),
            ordered@ == preview_roots(parents@, root_node),
            forall|q: int| 0 <= q < ordered@.len() ==> #[trigger] ordered@[q] < n,
            pos <= ordered@.len(),
            ordered@.len() > 0,
            pos == 0 ==> out@.len() == 0,
            preview_state(parents@, visited@, out@, max_nodes as nat),
            pos > 0 && max_nodes > 0 ==> out@.len() > 0 && out@[0] == (PreviewLine {
                node: preview_roots(parents@, root_node)[0],
                depth: 0,
                branch: TreeBranch::Root,
            }),
            preview_from_roots(parents@, max_nodes as nat, ordered@, pos as int, (visited@, out@)) == roots_target,
        decreases ordered@.len() - pos,
    {
        let root = ordered[pos];
        let ghost before = out@;
        proof {
            lemma_unvisited_bound(visited@);
        }
        visit_preview(
            parents,
            &hierarchy.children,
            root,
            0,
            TreeBranch::Root,
            &mut visited,
            &mut out,
            max_nodes,
            Ghost((n + 1) as nat),
        );
        proof {
            if pos > 0 {
                assert(out@[0] == out@.subrange(0, before.len() as int)[0]);
            }
        }
        pos = pos + 1;
    }
    assert((visited@, out@) == roots_target);
    let ghost rest_target = preview_rest(parents@, max_nodes as nat, 0, roots_target);
    let mut k: usize = 0;
    while k < n && out.len() < max_nodes
        invariant
            preview_rest(parents@, max_nodes as nat, k as int, (visited@, out@)) == rest_target,
            n == parents@.len(),
            is_hierarchy(parents@, hierarchy.children@),
            k <= n,
            preview_state(parents@, visited@, out@, max_nodes as nat),
            forall|q: int| 0 <= q < k && out@.len() < max_nodes ==> #[trigger] visited@[q],
            max_nodes > 0 ==> out@.len() > 0 && out@[0] == (PreviewLine {
                node: preview_roots(parents@, root_node)[0],
                depth: 0,
                branch: TreeBranch::Root,
            }),
        decreases n - k,
    {
        if !visited[k] {
            let ghost before = out@;
            let ghost before_visited = visited@;
            proof {
                lemma_unvisited_bound(visited@);
            }
            visit_preview(
                parents,
                &hierarchy.children,
                k,
                0,
                TreeBranch::Root,
                &mut visited,
                &mut out,
                max_nodes,
                Ghost((n + 1) as nat),
            );
            proof {
                if max_nodes > 0 {
                    assert(out@[0] == out@.subrange(0, before.len() as int)[0]);
                }
                assert forall|q: int| 0 <= q < k + 1 && out@.len() < max_nodes implies #[trigger] visited@[q] by {
                    if q < k {
                        assert(before_visited[q]);
                    }
                }
            }
        }
        k = k + 1;
    }
    proof {
        assert((visited@, out@) == rest_target);
        if out@.len() < max_nodes {
            assert forall|q: int| 0 <= q < parents@.len() implies #[trigger] shown(out@, q) by {
                assert(visited@[q]);
            }
        }
    }
    out
}

proof fn lemma_roots_except_upto(parents: Seq<i32>, skip: int, k: int)
    requires
        0 <= k <= parents.len(),
        parents.len() <= usize::MAX,
    ensures
        forall|t: int|
            0 <= t < roots_except_upto(parents, skip, k).len() ==> #[trigger] roots_except_upto(
                parents,
                skip,
                k,
            )[t] < k,
    decreases k,
{
    if k > 0 {
        lemma_roots_except_upto(parents, skip, k - 1);
        let prev = roots_except_upto(parents, skip, k - 1);
        let cur = roots_except_upto(parents, skip, k);
        assert forall|t: int| 0 <= t < cur.len() implies #[trigger] cur[t] < k by {
            if t < prev.len() {
                assert(cur[t] == prev[t]);
            }
        }
    }
}

} // verus!
