//! Filesystem sizer: the input is a transcript of `cd` and `ls` commands.
//! Replaying it builds a tree of named files and directories, held in an
//! arena of nodes indexed by integer handles, with the current path kept as a
//! stack of handles. A directory's size is the sum of all file sizes beneath
//! it. The solver reports the sum of the sizes of every directory of size at
//! most 100000, and the size (and name) of the smallest single directory
//! whose deletion would bring free space up to the required amount, given the
//! fixed capacity 70000000 and requirement 30000000. Structural problems in
//! the transcript (an unknown `cd` target, an entry colliding with one of the
//! other kind, an unreadable line) are recoverable: the offending line is
//! skipped and counted.

use vstd::prelude::*;

use crate::text::{digits_value, is_u64_number, parse_u64, puzzle_lines, split_bytes, split_lines,
    split_seq};

verus! {

/// Total disk capacity.
pub const CAPACITY: u64 = 70000000;

/// Free space the update needs.
pub const NEEDED_FREE: u64 = 30000000;

/// Directories of at most this size count toward the small-directory total.
pub const SMALL_LIMIT: u64 = 100000;

/// One tree node as the specification sees it.
pub struct NodeView {
    /// Entry name within its directory.
    pub name: Seq<u8>,
    /// Handle of the containing directory (the root is its own parent).
    pub parent: int,
    /// Whether this node is a directory.
    pub is_dir: bool,
    /// File size; zero for directories.
    pub size: int,
    /// Handles of the entries of a directory.
    pub children: Seq<int>,
}

/// One tree node: a file with a size or a directory with children, plus its
/// name and the handle of its parent.
pub struct FsNode {
    /// Entry name within its directory.
    pub name: Vec<u8>,
    /// Handle of the containing directory (the root is its own parent).
    pub parent: usize,
    /// Whether this node is a directory.
    pub is_dir: bool,
    /// File size; zero for directories.
    pub size: u64,
    /// Handles of the entries of a directory.
    pub children: Vec<usize>,
}

impl View for FsNode {
    type V = NodeView;

    open spec fn view(&self) -> NodeView {
        NodeView {
            name: self.name@,
            parent: self.parent as int,
            is_dir: self.is_dir,
            size: self.size as int,
            children: self.children@.map_values(|c: usize| c as int),
        }
    }
}

/// The whole arena as the specification sees it.
pub open spec fn arena_view(a: Seq<FsNode>) -> Seq<NodeView> {
    a.map_values(|n: FsNode| n@)
}

/// The replay state: the arena, the current path as a stack of handles,
/// whether listing lines are expected, and how many lines were skipped.
pub struct SpecFs {
    /// All nodes created so far; handle 0 is the root directory.
    pub arena: Seq<NodeView>,
    /// The current path, root excluded (an empty cursor means the root).
    pub cursor: Seq<int>,
    /// Whether an `ls` is in progress, so listing lines are meaningful.
    pub listing: bool,
    /// Number of lines skipped as structural errors.
    pub skipped: int,
}

/// The replay starts at a lone root directory.
pub open spec fn fs_init() -> SpecFs {
    SpecFs {
        arena: seq![
            NodeView {
                name: seq![47u8],
                parent: 0,
                is_dir: true,
                size: 0,
                children: Seq::empty(),
            },
        ],
        cursor: Seq::empty(),
        listing: false,
        skipped: 0,
    }
}

/// The directory the cursor stands in.
pub open spec fn cwd_of(st: SpecFs) -> int {
    if st.cursor.len() == 0 {
        0
    } else {
        st.cursor.last()
    }
}

/// The handle of the child of `d` named `name`, searching from child
/// position `k` on; `-1` when there is none.
pub open spec fn child_named(a: Seq<NodeView>, d: int, name: Seq<u8>, k: int) -> int
    decreases (if 0 <= d < a.len() {
        a[d].children.len() as int
    } else {
        0
    }) - k,
{
    if 0 <= d < a.len() && 0 <= k < a[d].children.len() {
        let c = a[d].children[k];
        if 0 <= c < a.len() && a[c].name == name {
            c
        } else {
            child_named(a, d, name, k + 1)
        }
    } else {
        -1
    }
}

/// The handle of the child of `d` named `name`, or `-1`.
pub open spec fn find_child(a: Seq<NodeView>, d: int, name: Seq<u8>) -> int {
    child_named(a, d, name, 0)
}

/// Append a fresh node under directory `d`.
pub open spec fn add_node(st: SpecFs, node: NodeView, d: int) -> SpecFs {
    let idx = st.arena.len() as int;
    let parent_node = st.arena[d];
    SpecFs {
        arena: st.arena.push(node).update(
            d,
            NodeView { children: parent_node.children.push(idx), ..parent_node },
        ),
        ..st
    }
}

/// Declare an entry of directory `d` in the arena, as one `ls` output line
/// does. A fresh name creates a node; re-declaring a directory is a no-op;
/// re-declaring a file updates its size; a collision between the two kinds is
/// a structural error, flagged in the second component.
pub open spec fn declare_arena(
    a: Seq<NodeView>,
    d: int,
    name: Seq<u8>,
    is_dir: bool,
    size: int,
) -> (Seq<NodeView>, bool) {
    let c = find_child(a, d, name);
    if c >= 0 {
        let node = a[c];
        if node.is_dir == is_dir {
            if is_dir {
                (a, false)
            } else {
                (a.update(c, NodeView { size: size, ..node }), false)
            }
        } else {
            (a, true)
        }
    } else {
        let idx = a.len() as int;
        let parent_node = a[d];
        let fresh = NodeView {
            name: name,
            parent: d,
            is_dir: is_dir,
            size: size,
            children: Seq::empty(),
        };
        (
            a.push(fresh).update(
                d,
                NodeView { children: parent_node.children.push(idx), ..parent_node },
            ),
            false,
        )
    }
}

/// Declare an entry of the current directory.
pub open spec fn declare_entry(st: SpecFs, name: Seq<u8>, is_dir: bool, size: int) -> SpecFs {
    let r = declare_arena(st.arena, cwd_of(st), name, is_dir, size);
    SpecFs {
        arena: r.0,
        skipped: st.skipped + if r.1 {
            1int
        } else {
            0int
        },
        ..st
    }
}

/// Replay one transcript line.
pub open spec fn fs_step(st: SpecFs, l: Seq<u8>) -> SpecFs {
    if l.len() == 0 {
        st
    } else {
        let toks = split_seq(l, 32);
        if toks[0] == seq![36u8] {
            if toks.len() == 3 && toks[1] == seq![99u8, 100u8] {
                let name = toks[2];
                if name == seq![47u8] {
                    SpecFs { cursor: Seq::empty(), listing: false, ..st }
                } else if name == seq![46u8, 46u8] {
                    SpecFs {
                        cursor: if st.cursor.len() == 0 {
                            st.cursor
                        } else {
                            st.cursor.drop_last()
                        },
                        listing: false,
                        ..st
                    }
                } else {
                    let c = find_child(st.arena, cwd_of(st), name);
                    if c >= 0 && st.arena[c].is_dir {
                        SpecFs { cursor: st.cursor.push(c), listing: false, ..st }
                    } else {
                        SpecFs { listing: false, skipped: st.skipped + 1, ..st }
                    }
                }
            } else if toks.len() == 2 && toks[1] == seq![108u8, 115u8] {
                SpecFs { listing: true, ..st }
            } else {
                SpecFs { listing: false, skipped: st.skipped + 1, ..st }
            }
        } else if st.listing {
            if toks.len() == 2 && toks[0] == seq![100u8, 105u8, 114u8] {
                declare_entry(st, toks[1], true, 0)
            } else if toks.len() == 2 && is_u64_number(toks[0]) {
                declare_entry(st, toks[1], false, digits_value(toks[0]))
            } else {
                SpecFs { skipped: st.skipped + 1, ..st }
            }
        } else {
            SpecFs { skipped: st.skipped + 1, ..st }
        }
    }
}

/// The state after replaying the first `t` lines.
pub open spec fn replay_upto(lines: Seq<Seq<u8>>, t: int) -> SpecFs
    decreases t,
{
    if t <= 0 {
        fs_init()
    } else {
        fs_step(replay_upto(lines, t - 1), lines[t - 1])
    }
}

/// The state after replaying the whole transcript.
pub open spec fn replay(lines: Seq<Seq<u8>>) -> SpecFs {
    replay_upto(lines, lines.len() as int)
}

/// Whether node `d` lies on the parent chain of node `j` (inclusively).
pub open spec fn is_under(a: Seq<NodeView>, j: int, d: int) -> bool
    decreases j,
{
    if j == d {
        true
    } else if j <= 0 || j >= a.len() {
        false
    } else {
        let p = a[j].parent;
        if 0 <= p < j {
            is_under(a, p, d)
        } else {
            false
        }
    }
}

/// The combined size of the files among the first `t` nodes that lie under
/// directory `d`.
pub open spec fn dir_size_upto(a: Seq<NodeView>, d: int, t: int) -> int
    decreases t,
{
    if t <= 0 {
        0
    } else {
        dir_size_upto(a, d, t - 1) + if !a[t - 1].is_dir && is_under(a, t - 1, d) {
            a[t - 1].size
        } else {
            0
        }
    }
}

/// The aggregate size of directory `d`: the sum of every file beneath it.
pub open spec fn dir_size(a: Seq<NodeView>, d: int) -> int {
    dir_size_upto(a, d, a.len() as int)
}

/// The sum over the first `t` nodes of every directory size of at most
/// `SMALL_LIMIT` (nested directories count once each).
pub open spec fn small_total_upto(a: Seq<NodeView>, t: int) -> int
    decreases t,
{
    if t <= 0 {
        0
    } else {
        small_total_upto(a, t - 1) + if a[t - 1].is_dir && dir_size(a, t - 1) <= SMALL_LIMIT {
            dir_size(a, t - 1)
        } else {
            0int
        }
    }
}

/// The small-directory total of the whole tree.
pub open spec fn small_dir_total(a: Seq<NodeView>) -> int {
    small_total_upto(a, a.len() as int)
}

/// The additional free space a deletion must provide: what the requirement
/// exceeds the currently free space by.
pub open spec fn space_needed(a: Seq<NodeView>) -> int {
    NEEDED_FREE - (CAPACITY - dir_size(a, 0))
}

/// The best directory to delete among the first `t` nodes: the smallest one
/// of size at least `need`, earliest handle on ties. Returns `(handle, size)`
/// with handle `-1` while none qualifies.
pub open spec fn best_delete_upto(a: Seq<NodeView>, need: int, t: int) -> (int, int)
    decreases t,
{
    if t <= 0 {
        (-1, 0)
    } else {
        let prev = best_delete_upto(a, need, t - 1);
        if a[t - 1].is_dir && dir_size(a, t - 1) >= need && (prev.0 == -1 || dir_size(a, t - 1)
            < prev.1) {
            (t - 1, dir_size(a, t - 1))
        } else {
            prev
        }
    }
}

/// The best directory to delete in the whole tree.
pub open spec fn best_delete(a: Seq<NodeView>) -> (int, int) {
    best_delete_upto(a, space_needed(a), a.len() as int)
}

/// A healthy arena: the root is a directory and its own parent, every other
/// node's parent precedes it, child handles are in range, and sizes are
/// machine sizes.
pub open spec fn wf_arena(a: Seq<NodeView>) -> bool {
    &&& a.len() >= 1
    &&& a[0].is_dir
    &&& a[0].parent == 0
    &&& forall|j: int| 1 <= j < a.len() ==> 0 <= #[trigger] a[j].parent < j
    &&& forall|j: int, k: int|
        0 <= j < a.len() && 0 <= k < a[j].children.len() ==> 0 <= #[trigger] a[j].children[k]
            < a.len()
    &&& forall|j: int| 0 <= j < a.len() ==> 0 <= #[trigger] a[j].size <= u64::MAX
}

/// A healthy replay state: a healthy arena and a cursor of directory handles.
pub open spec fn wf_fs(st: SpecFs) -> bool {
    &&& wf_arena(st.arena)
    &&& forall|k: int|
        0 <= k < st.cursor.len() ==> 0 <= #[trigger] st.cursor[k] < st.arena.len()
            && st.arena[st.cursor[k]].is_dir
    &&& 0 <= st.skipped
}

/// The initial state is healthy.
pub proof fn lemma_init_wf()
    ensures
        wf_fs(fs_init()),
{
}

/// Replaying one line preserves health, grows the arena and the skip count
/// by at most one, and never shrinks either.
pub proof fn lemma_step_wf(st: SpecFs, l: Seq<u8>)
    requires
        wf_fs(st),
    ensures
        wf_fs(fs_step(st, l)),
        st.skipped <= fs_step(st, l).skipped <= st.skipped + 1,
        st.arena.len() <= fs_step(st, l).arena.len() <= st.arena.len() + 1,
{
    let st2 = fs_step(st, l);
    if l.len() == 0 {
    } else {
        let toks = split_seq(l, 32);
        let d = cwd_of(st);
        assert(0 <= d < st.arena.len() && st.arena[d].is_dir);
        if toks[0] == seq![36u8] {
            if toks.len() == 3 && toks[1] == seq![99u8, 100u8] {
                let name = toks[2];
                if name == seq![47u8] {
                } else if name == seq![46u8, 46u8] {
                    assert(forall|k: int|
                        0 <= k < st2.cursor.len() ==> st2.cursor[k] == #[trigger] st.cursor[k]);
                } else {
                    let c = find_child(st.arena, d, name);
                    if c >= 0 && st.arena[c].is_dir {
                        lemma_child_named_range(st.arena, d, name, 0);
                    }
                }
            }
        } else if st.listing {
            if toks.len() == 2 && toks[0] == seq![100u8, 105u8, 114u8] {
                lemma_declare_wf(st, toks[1], true, 0);
            } else if toks.len() == 2 && is_u64_number(toks[0]) {
                crate::text::lemma_digits_value_nonneg(toks[0]);
                lemma_declare_wf(st, toks[1], false, digits_value(toks[0]));
            }
        }
    }
}

/// A found child handle is a real handle.
proof fn lemma_child_named_range(a: Seq<NodeView>, d: int, name: Seq<u8>, k: int)
    ensures
        child_named(a, d, name, k) == -1 || 0 <= child_named(a, d, name, k) < a.len(),
    decreases (if 0 <= d < a.len() {
        a[d].children.len() as int
    } else {
        0
    }) - k,
{
    if 0 <= d < a.len() && 0 <= k < a[d].children.len() {
        let c = a[d].children[k];
        if !(0 <= c < a.len() && a[c].name == name) {
            lemma_child_named_range(a, d, name, k + 1);
        }
    }
}

proof fn lemma_declare_wf(st: SpecFs, name: Seq<u8>, is_dir: bool, size: int)
    requires
        wf_fs(st),
        0 <= size <= u64::MAX,
    ensures
        wf_fs(declare_entry(st, name, is_dir, size)),
        st.skipped <= declare_entry(st, name, is_dir, size).skipped <= st.skipped + 1,
        st.arena.len() <= declare_entry(st, name, is_dir, size).arena.len() <= st.arena.len() + 1,
{
    let d = cwd_of(st);
    assert(0 <= d < st.arena.len() && st.arena[d].is_dir);
    let c = find_child(st.arena, d, name);
    lemma_child_named_range(st.arena, d, name, 0);
    if c >= 0 {
        let node = st.arena[c];
        if node.is_dir == is_dir && !is_dir {
            let a2 = st.arena.update(c, NodeView { size: size, ..node });
            assert(wf_arena(a2)) by {
                assert(forall|j: int|
                    0 <= j < a2.len() && j != c ==> a2[j] == #[trigger] st.arena[j]);
                assert(a2[c].parent == node.parent && a2[c].children == node.children
                    && a2[c].is_dir == node.is_dir);
            }
            assert(forall|k: int|
                0 <= k < st.cursor.len() ==> a2[#[trigger] st.cursor[k]].is_dir
                    == st.arena[st.cursor[k]].is_dir);
        }
    } else {
        let st2 = declare_entry(st, name, is_dir, size);
        let idx = st.arena.len() as int;
        let parent_node = st.arena[d];
        let a2 = st2.arena;
        assert(a2 == st.arena.push(
            NodeView { name: name, parent: d, is_dir: is_dir, size: size, children: Seq::empty() },
        ).update(d, NodeView { children: parent_node.children.push(idx), ..parent_node }));
        assert(wf_arena(a2)) by {
            assert(a2.len() == st.arena.len() + 1);
            assert(forall|j: int|
                0 <= j < st.arena.len() && j != d ==> a2[j] == #[trigger] st.arena[j]);
            assert(a2[idx].parent == d && a2[idx].children =~= Seq::<int>::empty());
            assert(a2[d].parent == parent_node.parent && a2[d].is_dir == parent_node.is_dir
                && a2[d].size == parent_node.size);
            assert(a2[d].children =~= parent_node.children.push(idx));
            assert(forall|j: int, k: int|
                0 <= j < a2.len() && 0 <= k < a2[j].children.len() ==> 0 <= #[trigger] a2[j].children[k]
                    < a2.len()) by {
                assert(forall|k: int|
                    0 <= k < parent_node.children.len() ==> #[trigger] a2[d].children[k]
                        == parent_node.children[k]);
            }
        }
        assert(forall|k: int|
            0 <= k < st.cursor.len() ==> a2[#[trigger] st.cursor[k]].is_dir
                == st.arena[st.cursor[k]].is_dir);
    }
}

/// The whole replay is healthy, and skips at most one line per line.
pub proof fn lemma_replay_wf(lines: Seq<Seq<u8>>, t: int)
    requires
        0 <= t <= lines.len(),
    ensures
        wf_fs(replay_upto(lines, t)),
        replay_upto(lines, t).skipped <= t,
    decreases t,
{
    if t > 0 {
        lemma_replay_wf(lines, t - 1);
        lemma_step_wf(replay_upto(lines, t - 1), lines[t - 1]);
    }
}

/// Directory sizes are non-negative and bounded by one machine size per node.
pub proof fn lemma_dir_size_upto_bound(a: Seq<NodeView>, d: int, t: int)
    requires
        wf_arena(a),
        0 <= t <= a.len(),
    ensures
        0 <= dir_size_upto(a, d, t) <= t * (u64::MAX as int),
    decreases t,
{
    if t > 0 {
        lemma_dir_size_upto_bound(a, d, t - 1);
    }
}

/// A node's ancestors never lie above it in the arena.
proof fn lemma_under_le(a: Seq<NodeView>, j: int, d: int)
    requires
        is_under(a, j, d),
    ensures
        d <= j,
    decreases j,
{
    if j != d {
        lemma_under_le(a, a[j].parent, d);
    }
}

/// The parent chain continues: whatever lies over `cur` lies over its parent
/// too, as long as `cur` is not the root.
proof fn lemma_under_parent(a: Seq<NodeView>, j: int, cur: int)
    requires
        wf_arena(a),
        is_under(a, j, cur),
        1 <= cur < a.len(),
    ensures
        is_under(a, j, a[cur].parent),
    decreases j,
{
    if j == cur {
        assert(is_under(a, a[cur].parent, a[cur].parent));
    } else {
        lemma_under_parent(a, a[j].parent, cur);
    }
}

/// The sizing report for one transcript.
#[derive(Debug, PartialEq, Eq)]
pub struct FsReport {
    /// Number of nodes in the tree, the root included.
    pub node_count: usize,
    /// Aggregate size of the root directory.
    pub root_size: u128,
    /// Sum of the sizes of every directory of size at most `SMALL_LIMIT`.
    pub small_dir_total: u128,
    /// Size of the smallest directory whose deletion frees enough space.
    pub delete_size: u128,
    /// Name of the first such directory (by handle order).
    pub delete_name: Vec<u8>,
    /// Number of transcript lines skipped as structural errors.
    pub skipped: usize,
}

/// Everything the sizer promises of its result.
pub open spec fn size_post(input: Seq<u8>, r: FsReport) -> bool {
    let st = replay(puzzle_lines(input));
    let a = st.arena;
    &&& r.node_count == a.len()
    &&& r.root_size == dir_size(a, 0)
    &&& r.small_dir_total == small_dir_total(a)
    &&& 0 <= best_delete(a).0 < a.len()
    &&& r.delete_size == best_delete(a).1
    &&& r.delete_name@ == a[best_delete(a).0].name
    &&& r.skipped == st.skipped
}

/// Law (idempotence): the sizer's contract pins its result down completely,
/// so re-running it on the same input yields an identical result.
pub proof fn lemma_size_deterministic(input: Seq<u8>, r1: FsReport, r2: FsReport)
    requires
        size_post(input, r1),
        size_post(input, r2),
    ensures
        r1.node_count == r2.node_count && r1.root_size == r2.root_size && r1.small_dir_total
            == r2.small_dir_total && r1.delete_size == r2.delete_size && r1.delete_name@
            == r2.delete_name@ && r1.skipped == r2.skipped,
{
}

proof fn lemma_token_eq1(s: Seq<u8>, b0: u8)
    ensures
        (s == seq![b0]) <==> (s.len() == 1 && s[0] == b0),
{
    if s.len() == 1 && s[0] == b0 {
        assert(s =~= seq![b0]);
    }
}

proof fn lemma_token_eq2(s: Seq<u8>, b0: u8, b1: u8)
    ensures
        (s == seq![b0, b1]) <==> (s.len() == 2 && s[0] == b0 && s[1] == b1),
{
    if s.len() == 2 && s[0] == b0 && s[1] == b1 {
        assert(s =~= seq![b0, b1]);
    }
}

proof fn lemma_token_eq3(s: Seq<u8>, b0: u8, b1: u8, b2: u8)
    ensures
        (s == seq![b0, b1, b2]) <==> (s.len() == 3 && s[0] == b0 && s[1] == b1 && s[2] == b2),
{
    if s.len() == 3 && s[0] == b0 && s[1] == b1 && s[2] == b2 {
        assert(s =~= seq![b0, b1, b2]);
    }
}

/// Find the child of `d` named `name`.
fn find_child_exec(arena: &Vec<FsNode>, d: usize, name: &[u8]) -> (r: Option<usize>)
    requires
        wf_arena(arena_view(arena@)),
        d < arena@.len(),
    ensures
        r matches Some(c) ==> c < arena@.len() && find_child(arena_view(arena@), d as int, name@)
            == c,
        r is None ==> find_child(arena_view(arena@), d as int, name@) == -1,
{
    let ghost av = arena_view(arena@);
    proof {
        assert(av[d as int] == arena@[d as int]@);
    }
    let node = &arena[d];
    let m = node.children.len();
    let mut k: usize = 0;
    while k < m
        invariant
            0 <= k <= m,
            av == arena_view(arena@),
            wf_arena(av),
            d < arena@.len(),
            node.children@ == arena@[d as int].children@,
            m == av[d as int].children.len(),
            child_named(av, d as int, name@, 0) == child_named(av, d as int, name@, k as int),
        decreases m - k,
    {
        proof {
            assert(av[d as int].children[k as int] == node.children@[k as int] as int);
        }
        let c = node.children[k];
        proof {
            assert(0 <= c < av.len());
            assert(av[c as int] == arena@[c as int]@);
        }
        if crate::text::bytes_equal(arena[c].name.as_slice(), name) {
            proof {
                assert(av[c as int].name == name@);
                assert(child_named(av, d as int, name@, k as int) == c);
            }
            return Some(c);
        }
        proof {
            assert(av[c as int].name != name@);
        }
        k = k + 1;
    }
    None
}

/// Whether the exec state mirrors the specification state.
pub open spec fn state_matches(
    arena: Seq<FsNode>,
    cursor: Seq<usize>,
    listing: bool,
    skipped: int,
    st: SpecFs,
) -> bool {
    &&& arena_view(arena) == st.arena
    &&& cursor.map_values(|c: usize| c as int) == st.cursor
    &&& listing == st.listing
    &&& skipped == st.skipped
}

/// Declare an entry of directory `d`, mutating the arena; returns whether the
/// line had to be skipped as a collision.
fn declare_exec(arena: &mut Vec<FsNode>, d: usize, name: &Vec<u8>, is_dir: bool, size: u64) -> (skip:
    bool)
    requires
        wf_arena(arena_view(old(arena)@)),
        d < old(arena)@.len(),
    ensures
        ({
            let r = declare_arena(arena_view(old(arena)@), d as int, name@, is_dir, size as int);
            arena_view(final(arena)@) == r.0 && skip == r.1
        }),
{
    let ghost av = arena_view(arena@);
    let ghost spec_r = declare_arena(av, d as int, name@, is_dir, size as int);
    match find_child_exec(arena, d, name.as_slice()) {
        Some(c) => {
            proof {
                assert(av[c as int] == arena@[c as int]@);
            }
            if arena[c].is_dir == is_dir {
                if is_dir {
                    proof {
                        assert(arena_view(arena@) == spec_r.0);
                    }
                    false
                } else {
                    let old_node = &arena[c];
                    let replacement = FsNode {
                        name: old_node.name.clone(),
                        parent: old_node.parent,
                        is_dir: old_node.is_dir,
                        size: size,
                        children: old_node.children.clone(),
                    };
                    proof {
                        assert(replacement@ == NodeView { size: size as int, ..av[c as int] });
                    }
                    arena.set(c, replacement);
                    proof {
                        assert(arena_view(arena@) =~= av.update(
                            c as int,
                            NodeView { size: size as int, ..av[c as int] },
                        ));
                    }
                    false
                }
            } else {
                true
            }
        },
        None => {
            let idx = arena.len();
            let fresh = FsNode {
                name: name.clone(),
                parent: d,
                is_dir: is_dir,
                size: size,
                children: Vec::new(),
            };
            let ghost fresh_view = NodeView {
                name: name@,
                parent: d as int,
                is_dir: is_dir,
                size: size as int,
                children: Seq::empty(),
            };
            proof {
                assert(fresh@.children =~= fresh_view.children);
                assert(fresh@ == fresh_view);
            }
            arena.push(fresh);
            let parent_node = &arena[d];
            let mut new_children = parent_node.children.clone();
            new_children.push(idx);
            let updated = FsNode {
                name: parent_node.name.clone(),
                parent: parent_node.parent,
                is_dir: parent_node.is_dir,
                size: parent_node.size,
                children: new_children,
            };
            proof {
                assert(updated@.children =~= av[d as int].children.push(idx as int));
                assert(updated@ == NodeView {
                    children: av[d as int].children.push(idx as int),
                    ..av[d as int]
                });
            }
            arena.set(d, updated);
            proof {
                assert(arena_view(arena@) =~= av.push(fresh_view).update(
                    d as int,
                    NodeView { children: av[d as int].children.push(idx as int), ..av[d as int] },
                ));
            }
            false
        },
    }
}

/// Compute every node's aggregate size: each file adds its size to every
/// directory on its parent chain.
fn compute_sizes(arena: &Vec<FsNode>) -> (sizes: Vec<u128>)
    requires
        wf_arena(arena_view(arena@)),
    ensures
        sizes@.len() == arena@.len(),
        forall|d: int|
            0 <= d < arena@.len() ==> sizes@[d] == dir_size(arena_view(arena@), d),
{
    let ghost av = arena_view(arena@);
    let ghost umax: int = u64::MAX as int;
    let n = arena.len();
    let mut sizes: Vec<u128> = Vec::new();
    let mut z: usize = 0;
    while z < n
        invariant
            0 <= z <= n,
            sizes@.len() == z,
            forall|d: int| 0 <= d < z ==> sizes@[d] == 0,
        decreases n - z,
    {
        sizes.push(0);
        z = z + 1;
    }
    let mut j: usize = 0;
    while j < n
        invariant
            0 <= j <= n,
            av == arena_view(arena@),
            wf_arena(av),
            n == av.len(),
            sizes@.len() == n,
            umax == u64::MAX as int,
            forall|d: int| 0 <= d < n ==> sizes@[d] == dir_size_upto(av, d, j as int),
        decreases n - j,
    {
        proof {
            assert(av[j as int] == arena@[j as int]@);
        }
        let node = &arena[j];
        if !node.is_dir {
            let sz = node.size;
            let ghost base = sizes@;
            let mut cur: usize = j;
            loop
                invariant_except_break
                    forall|d: int|
                        0 <= d < n ==> sizes@[d] == base[d] + (if is_under(av, j as int, d)
                            && !is_under(av, cur as int, d) {
                            sz as int
                        } else {
                            0int
                        }),
                invariant
                    0 <= cur < n,
                    av == arena_view(arena@),
                    wf_arena(av),
                    n == av.len(),
                    sizes@.len() == n,
                    umax == u64::MAX as int,
                    0 <= j < n,
                    sz == av[j as int].size,
                    !av[j as int].is_dir,
                    is_under(av, j as int, cur as int),
                    forall|d: int| 0 <= d < n ==> base[d] == dir_size_upto(av, d, j as int),
                ensures
                    forall|d: int|
                        0 <= d < n ==> sizes@[d] == base[d] + (if is_under(av, j as int, d) {
                            sz as int
                        } else {
                            0int
                        }),
                decreases cur,
            {
                proof {
                    lemma_dir_size_upto_bound(av, cur as int, j as int);
                    assert(base[cur as int] <= (j as int) * umax);
                    assert((j as int) * umax <= (n as int) * umax) by (nonlinear_arith)
                        requires
                            0 <= j as int <= n as int && umax >= 0,
                    ;
                    vstd::arithmetic::mul::lemma_mul_upper_bound(
                        n as int,
                        usize::MAX as int,
                        umax,
                        umax,
                    );
                    vstd::arithmetic::mul::lemma_mul_upper_bound(
                        usize::MAX as int,
                        u64::MAX as int,
                        umax,
                        umax,
                    );
                    assert(!is_under(av, cur as int, cur as int) == false);
                }
                let ghost before = sizes@;
                let added = sizes[cur] + (sz as u128);
                sizes.set(cur, added);
                proof {
                    // The current node is now counted; nothing else changed.
                    assert forall|d: int|
                        0 <= d < n implies sizes@[d] == base[d] + (if is_under(av, j as int, d)
                            && (d == cur as int || !is_under(av, cur as int, d)) {
                            sz as int
                        } else {
                            0int
                        }) by {
                        if d == cur as int {
                            assert(!is_under(av, cur as int, cur as int) ==> false);
                        } else {
                            assert(sizes@[d] == before[d]);
                        }
                    }
                }
                if cur == 0 {
                    proof {
                        assert forall|d: int|
                            0 <= d < n implies sizes@[d] == base[d] + (if is_under(
                            av,
                            j as int,
                            d,
                        ) {
                            sz as int
                        } else {
                            0int
                        }) by {
                            if is_under(av, j as int, d) && d != 0 {
                                if is_under(av, 0, d) {
                                    lemma_under_le(av, 0, d);
                                }
                                assert(!is_under(av, 0, d));
                            }
                        }
                    }
                    break;
                }
                let parent = arena[cur].parent;
                proof {
                    assert(av[cur as int] == arena@[cur as int]@);
                    assert(0 <= av[cur as int].parent < cur as int);
                    // Moving to the parent leaves exactly the handles at or
                    // below `cur` counted.
                    assert forall|d: int|
                        0 <= d < n implies ((d == cur as int || !is_under(av, cur as int, d))
                        <==> !is_under(av, parent as int, d)) by {
                        if d == cur as int {
                            if is_under(av, parent as int, d) {
                                lemma_under_le(av, parent as int, d);
                            }
                        } else {
                            assert(is_under(av, cur as int, d) == (cur as int == d || is_under(
                                av,
                                parent as int,
                                d,
                            )));
                        }
                    }
                    lemma_under_parent(av, j as int, cur as int);
                }
                cur = parent;
            }
            proof {
                assert forall|d: int|
                    0 <= d < n implies sizes@[d] == dir_size_upto(av, d, j as int + 1) by {
                    assert(dir_size_upto(av, d, j as int + 1) == dir_size_upto(av, d, j as int)
                        + if !av[j as int].is_dir && is_under(av, j as int, d) {
                        av[j as int].size
                    } else {
                        0int
                    });
                }
            }
        } else {
            proof {
                assert forall|d: int|
                    0 <= d < n implies sizes@[d] == dir_size_upto(av, d, j as int + 1) by {
                    assert(dir_size_upto(av, d, j as int + 1) == dir_size_upto(av, d, j as int));
                }
            }
        }
        j = j + 1;
    }
    sizes
}

/// Size a filesystem transcript: replay it into a tree, then report the
/// small-directory total and the smallest directory worth deleting.
pub fn size(input: &[u8]) -> (r: FsReport)
    ensures
        size_post(input@, r),
{
    let lines = split_lines(input);
    let ghost all = puzzle_lines(input@);
    let n = lines.len();
    let mut arena: Vec<FsNode> = Vec::new();
    arena.push(FsNode {
        name: {
            let mut root_name: Vec<u8> = Vec::new();
            root_name.push(47);
            root_name
        },
        parent: 0,
        is_dir: true,
        size: 0,
        children: Vec::new(),
    });
    let mut cursor: Vec<usize> = Vec::new();
    let mut listing = false;
    let mut skipped: usize = 0;
    proof {
        assert(arena@[0]@.name =~= seq![47u8]);
        assert(arena@[0]@.children =~= Seq::<int>::empty());
        assert(arena@[0]@ == fs_init().arena[0]);
        assert(arena_view(arena@) =~= fs_init().arena);
        assert(cursor@.map_values(|c: usize| c as int) =~= fs_init().cursor);
        assert(state_matches(arena@, cursor@, listing, skipped as int, replay_upto(all, 0)));
    }
    let mut i: usize = 0;
    while i < n
        invariant
            0 <= i <= n,
            all == puzzle_lines(input@),
            n == all.len(),
            lines.deep_view() == all,
            state_matches(arena@, cursor@, listing, skipped as int, replay_upto(all, i as int)),
            skipped <= i,
            arena@.len() <= i + 1,
        decreases n - i,
    {
        let ghost st = replay_upto(all, i as int);
        let ghost st2 = replay_upto(all, i as int + 1);
        proof {
            lemma_replay_wf(all, i as int);
            lemma_step_wf(st, all[i as int]);
            assert(st2 == fs_step(st, all[i as int]));
            assert(lines@[i as int]@ =~= all[i as int]);
        }
        let line = &lines[i];
        if line.len() == 0 {
            // Blank lines carry nothing.
        } else {
            let toks = split_bytes(line.as_slice(), 32);
            let ghost tv = split_seq(all[i as int], 32);
            proof {
                assert(forall|k: int|
                    0 <= k < toks@.len() ==> toks@[k]@ =~= #[trigger] toks.deep_view()[k]);
                crate::text::lemma_split_seq_len(all[i as int], 32);
            }
            let cwd = if cursor.len() == 0 {
                0
            } else {
                cursor[cursor.len() - 1]
            };
            proof {
                assert(cwd as int == cwd_of(st));
                assert(cwd < arena@.len());
            }
            let t0 = &toks[0];
            proof {
                lemma_token_eq1(tv[0], 36);
            }
            if t0.len() == 1 && t0[0] == 36 {
                proof {
                    if toks@.len() == 3 {
                        lemma_token_eq2(tv[1], 99, 100);
                    }
                }
                let mut handled = false;
                if toks.len() == 3 {
                    let t1 = &toks[1];
                    if t1.len() == 2 && t1[0] == 99 && t1[1] == 100 {
                        handled = true;
                        let name = &toks[2];
                        proof {
                            lemma_token_eq1(tv[2], 47);
                            lemma_token_eq2(tv[2], 46, 46);
                        }
                        if name.len() == 1 && name[0] == 47 {
                            cursor = Vec::new();
                            listing = false;
                            proof {
                                assert(cursor@.map_values(|c: usize| c as int) =~= st2.cursor);
                            }
                        } else if name.len() == 2 && name[0] == 46 && name[1] == 46 {
                            let ghost cv = cursor@;
                            if cursor.len() > 0 {
                                cursor.pop();
                                proof {
                                    assert(cursor@ =~= cv.drop_last());
                                    assert(cursor@.map_values(|c: usize| c as int) =~= st2.cursor);
                                }
                            }
                            listing = false;
                        } else {
                            match find_child_exec(&arena, cwd, name.as_slice()) {
                                Some(c) => {
                                    proof {
                                        assert(arena_view(arena@)[c as int] == arena@[c as int]@);
                                    }
                                    if arena[c].is_dir {
                                        let ghost cv = cursor@;
                                        cursor.push(c);
                                        proof {
                                            assert(cursor@.map_values(|x: usize| x as int)
                                                =~= cv.map_values(|x: usize| x as int).push(
                                                c as int,
                                            ));
                                        }
                                    } else {
                                        skipped = skipped + 1;
                                    }
                                },
                                None => {
                                    skipped = skipped + 1;
                                },
                            }
                            listing = false;
                        }
                    }
                }
                if !handled {
                    proof {
                        if toks@.len() == 2 {
                            lemma_token_eq2(tv[1], 108, 115);
                        }
                    }
                    let mut is_ls = false;
                    if toks.len() == 2 {
                        let t1 = &toks[1];
                        if t1.len() == 2 && t1[0] == 108 && t1[1] == 115 {
                            is_ls = true;
                        }
                    }
                    if is_ls {
                        listing = true;
                    } else {
                        listing = false;
                        skipped = skipped + 1;
                    }
                }
            } else if listing {
                proof {
                    lemma_token_eq3(tv[0], 100, 105, 114);
                }
                let mut handled = false;
                if toks.len() == 2 {
                    if t0.len() == 3 && t0[0] == 100 && t0[1] == 105 && t0[2] == 114 {
                        handled = true;
                        let skip = declare_exec(&mut arena, cwd, &toks[1], true, 0);
                        if skip {
                            skipped = skipped + 1;
                        }
                    } else {
                        match crate::text::parse_u64(t0.as_slice()) {
                            Some(v) => {
                                handled = true;
                                let skip = declare_exec(&mut arena, cwd, &toks[1], false, v);
                                if skip {
                                    skipped = skipped + 1;
                                }
                            },
                            None => {},
                        }
                    }
                }
                if !handled {
                    skipped = skipped + 1;
                }
            } else {
                skipped = skipped + 1;
            }
            proof {
                assert(state_matches(arena@, cursor@, listing, skipped as int, st2));
            }
        }
        i = i + 1;
    }
    let ghost fin = replay(all);
    proof {
        assert(replay_upto(all, n as int) == fin);
        lemma_replay_wf(all, n as int);
    }
    // Aggregate sizes, then the two derived answers.
    let sizes = compute_sizes(&arena);
    let ghost av = fin.arena;
    let node_count = arena.len();
    let root_size = sizes[0];
    let mut small: u128 = 0;
    let mut d: usize = 0;
    while d < node_count
        invariant
            0 <= d <= node_count,
            av == arena_view(arena@),
            wf_arena(av),
            node_count == av.len(),
            sizes@.len() == node_count,
            forall|q: int| 0 <= q < node_count ==> sizes@[q] == dir_size(av, q),
            small == small_total_upto(av, d as int),
            small <= d * (SMALL_LIMIT as int),
        decreases node_count - d,
    {
        proof {
            assert(av[d as int] == arena@[d as int]@);
        }
        if arena[d].is_dir {
            let s = sizes[d];
            if s <= (SMALL_LIMIT as u128) {
                small = small + s;
            }
        }
        d = d + 1;
    }
    // The update needs this much more free space; any directory at least
    // that large qualifies, and the root always does.
    let ghost need = space_needed(av);
    proof {
        lemma_dir_size_upto_bound(av, 0, av.len() as int);
        vstd::arithmetic::mul::lemma_mul_upper_bound(
            av.len() as int,
            usize::MAX as int,
            u64::MAX as int,
            u64::MAX as int,
        );
        vstd::arithmetic::mul::lemma_mul_upper_bound(
            usize::MAX as int,
            u64::MAX as int,
            u64::MAX as int,
            u64::MAX as int,
        );
    }
    let threshold: u128 = if root_size + (NEEDED_FREE as u128) > (CAPACITY as u128) {
        root_size + (NEEDED_FREE as u128) - (CAPACITY as u128)
    } else {
        0
    };
    let mut best_idx: usize = 0;
    let mut best_size: u128 = root_size;
    let mut have = false;
    let mut d: usize = 0;
    proof {
        lemma_dir_size_upto_bound(av, 0, av.len() as int);
    }
    while d < node_count
        invariant
            0 <= d <= node_count,
            av == arena_view(arena@),
            wf_arena(av),
            node_count == av.len(),
            sizes@.len() == node_count,
            forall|q: int| 0 <= q < node_count ==> sizes@[q] == dir_size(av, q),
            need == space_needed(av),
            root_size == dir_size(av, 0),
            threshold == if need > 0 {
                need
            } else {
                0int
            },
            have <==> best_delete_upto(av, need, d as int).0 >= 0,
            have ==> best_idx == best_delete_upto(av, need, d as int).0 && best_idx < node_count
                && best_size == best_delete_upto(av, need, d as int).1,
            d >= 1 ==> have,
        decreases node_count - d,
    {
        proof {
            assert(av[d as int] == arena@[d as int]@);
            lemma_dir_size_upto_bound(av, d as int, av.len() as int);
        }
        if arena[d].is_dir {
            let s = sizes[d];
            if s >= threshold && (!have || s < best_size) {
                best_idx = d;
                best_size = s;
                have = true;
            }
        }
        d = d + 1;
    }
    let delete_name = arena[best_idx].name.clone();
    proof {
        assert(av[best_idx as int] == arena@[best_idx as int]@);
        assert(best_delete(av).0 == best_idx as int && best_delete(av).1 == best_size);
    }
    FsReport {
        node_count,
        root_size,
        small_dir_total: small,
        delete_size: best_size,
        delete_name,
        skipped,
    }
}

} // verus!
