//! The merge tree: nodes, classified entries, their mathematical models, and
//! the per-entry merge step that folds one classified entry into the tree.

use vstd::prelude::*;

verus! {

broadcast use vstd::std_specs::vec::group_vec_axioms, vstd::seq::group_seq_axioms;

/// The kind of a node in the merged tree: the three physical kinds, plus
/// `Whiteout`, a tombstone meaning the path must appear deleted in the
/// merged view.
#[derive(Debug, Clone, Copy, PartialEq, Eq, Structural)]
pub enum NodeFileType {
    Directory,
    RegularFile,
    Symlink,
    Whiteout,
}

impl NodeFileType {
    /// Classifies a physical filesystem entry by kind: directories and
    /// symlinks keep their kind, and everything else (regular files, pipes,
    /// devices, sockets) collapses to `RegularFile`. `Whiteout` is never
    /// derived from a physical kind; it is decided out of band.
    pub fn from_physical(is_dir: bool, is_symlink: bool) -> (t: Self)
        ensures
            t == (if is_dir {
                NodeFileType::Directory
            } else if is_symlink {
                NodeFileType::Symlink
            } else {
                NodeFileType::RegularFile
            }),
    {
        if is_dir {
            NodeFileType::Directory
        } else if is_symlink {
            NodeFileType::Symlink
        } else {
            NodeFileType::RegularFile
        }
    }
}

/// One entry of the virtual merged tree. Each node exclusively owns its
/// children; a child's `name` always equals the name it is found under.
#[derive(Debug)]
pub struct Node {
    /// This node's own path segment.
    pub name: String,
    /// The merged kind, `Whiteout` included.
    pub file_type: NodeFileType,
    /// The on-disk location supplying content; `None` for whiteouts and for
    /// directories materialized on demand.
    pub source_path: Option<String>,
    /// The children, at most one per name.
    pub children: Vec<Node>,
    /// Sticky directory-replacement marker: once set, never cleared.
    pub replace: bool,
    /// Owned by surrounding policy; the merge never assigns it.
    pub skip: bool,
}

/// A classified entry handed to the merge: the on-disk location that supplies
/// content, the virtual path as its ordered segments, the physical kind, and
/// the two out-of-band flags.
#[derive(Debug, Clone)]
pub struct ModuleFile {
    /// Absolute on-disk location of the file supplying content.
    pub real_path: String,
    /// The virtual path under the module root, as ordered segments.
    pub relative_path: Vec<String>,
    /// The kind derived from the physical entry (never `Whiteout`).
    pub file_type: NodeFileType,
    /// This entry is a deletion tombstone.
    pub is_whiteout: bool,
    /// This entry carries a directory-replacement marker.
    pub is_replace: bool,
}

/// The mathematical model of a tree node.
#[verifier::ext_equal]
pub struct NodeView {
    pub name: Seq<char>,
    pub file_type: NodeFileType,
    pub source_path: Option<Seq<char>>,
    pub children: Seq<NodeView>,
    pub replace: bool,
    pub skip: bool,
}

/// The mathematical model of a classified entry.
#[verifier::ext_equal]
pub struct ModuleFileView {
    pub real_path: Seq<char>,
    pub relative_path: Seq<Seq<char>>,
    pub file_type: NodeFileType,
    pub is_whiteout: bool,
    pub is_replace: bool,
}

impl Node {
    /// The mathematical model of this node.
    pub open spec fn model(&self) -> NodeView
        decreases self,
    {
        NodeView {
            name: self.name@,
            file_type: self.file_type,
            source_path: match self.source_path {
                Some(p) => Some(p@),
                None => None,
            },
            // The out-of-range branch is never observed; the bounds test
            // keeps the recursion within the children, which terminates.
            children: Seq::new(
                self.children@.len(),
                |i: int|
                    if 0 <= i < self.children@.len() {
                        self.children@[i].model()
                    } else {
                        arbitrary()
                    },
            ),
            replace: self.replace,
            skip: self.skip,
        }
    }
}

impl View for Node {
    type V = NodeView;

    open spec fn view(&self) -> NodeView {
        self.model()
    }
}

impl View for ModuleFile {
    type V = ModuleFileView;

    open spec fn view(&self) -> ModuleFileView {
        ModuleFileView {
            real_path: self.real_path@,
            relative_path: Seq::new(
                self.relative_path@.len(),
                |i: int| self.relative_path@[i]@,
            ),
            file_type: self.file_type,
            is_whiteout: self.is_whiteout,
            is_replace: self.is_replace,
        }
    }
}

/// Whether some child of `cs` is named `name`.
pub open spec fn has_child_name(cs: Seq<NodeView>, name: Seq<char>) -> bool {
    exists|i: int| 0 <= i < cs.len() && cs[i].name == name
}

/// The position of the child of `cs` named `name` (meaningful only when
/// `has_child_name(cs, name)` holds and names are unique).
pub open spec fn child_index(cs: Seq<NodeView>, name: Seq<char>) -> int {
    choose|i: int| 0 <= i < cs.len() && cs[i].name == name
}

/// The child of `cs` named `name`.
pub open spec fn child_named(cs: Seq<NodeView>, name: Seq<char>) -> NodeView {
    cs[child_index(cs, name)]
}

/// At most one child per name.
pub open spec fn unique_names(cs: Seq<NodeView>) -> bool {
    forall|i: int, j: int|
        0 <= i < cs.len() && 0 <= j < cs.len() && i != j ==> cs[i].name != cs[j].name
}

impl NodeView {
    /// Well-formedness: throughout the tree, sibling names are unique, so
    /// each name identifies at most one child.
    pub open spec fn wf(self) -> bool
        decreases self,
    {
        unique_names(self.children) && (forall|i: int|
            0 <= i < self.children.len() ==> (#[trigger] self.children[i]).wf())
    }
}

/// A node materialized on demand: no content, no children, both flags unset.
pub open spec fn fresh_node(name: Seq<char>, file_type: NodeFileType) -> NodeView {
    NodeView {
        name: name,
        file_type: file_type,
        source_path: None,
        children: Seq::empty(),
        replace: false,
        skip: false,
    }
}

/// The kind an entry stamps on its terminal node: `Whiteout` for tombstones,
/// otherwise the entry's derived kind.
pub open spec fn entry_type(e: ModuleFileView) -> NodeFileType {
    if e.is_whiteout {
        NodeFileType::Whiteout
    } else {
        e.file_type
    }
}

/// The overwrite rules applied to the terminal node `n` of entry `e`: a
/// whiteout forces the kind but leaves content untouched; any other entry
/// overwrites both kind and content; `replace` is a monotonic or; `skip`
/// and the children are never touched.
pub open spec fn apply_entry(n: NodeView, e: ModuleFileView) -> NodeView {
    NodeView {
        file_type: entry_type(e),
        source_path: if e.is_whiteout {
            n.source_path
        } else {
            Some(e.real_path)
        },
        replace: n.replace || e.is_replace,
        ..n
    }
}

/// Folds entry `e` into `node` along the remaining path segments `segs`:
/// intermediate segments fetch or materialize a directory child, the last
/// segment fetches or creates the terminal node and applies the overwrite
/// rules to it.
pub open spec fn merge_segs(node: NodeView, segs: Seq<Seq<char>>, e: ModuleFileView) -> NodeView
    decreases segs.len(),
{
    if segs.len() == 0 {
        node
    } else {
        let seg = segs[0];
        let found = has_child_name(node.children, seg);
        let base = if found {
            child_named(node.children, seg)
        } else if segs.len() == 1 {
            fresh_node(seg, entry_type(e))
        } else {
            fresh_node(seg, NodeFileType::Directory)
        };
        let updated = if segs.len() == 1 {
            apply_entry(base, e)
        } else {
            merge_segs(base, segs.drop_first(), e)
        };
        let new_children = if found {
            node.children.update(child_index(node.children, seg), updated)
        } else {
            node.children.push(updated)
        };
        NodeView { children: new_children, ..node }
    }
}

/// One whole per-entry merge step: entry `e` folded into `node` along the
/// entry's full relative path. An entry with an empty path leaves the tree
/// unchanged.
pub open spec fn merge_entry(node: NodeView, e: ModuleFileView) -> NodeView {
    merge_segs(node, e.relative_path, e)
}

/// The node reached from `t` by following the path segments `segs`, if every
/// segment names a child on the way down.
pub open spec fn node_at(t: NodeView, segs: Seq<Seq<char>>) -> Option<NodeView>
    decreases segs.len(),
{
    if segs.len() == 0 {
        Some(t)
    } else if has_child_name(t.children, segs[0]) {
        node_at(child_named(t.children, segs[0]), segs.drop_first())
    } else {
        None
    }
}

/// The `choose` behind `child_index` picks a real occurrence of `name`.
pub proof fn lemma_child_index_some(cs: Seq<NodeView>, name: Seq<char>)
    requires
        has_child_name(cs, name),
    ensures
        0 <= child_index(cs, name) < cs.len(),
        cs[child_index(cs, name)].name == name,
{
    let i = choose|i: int| 0 <= i < cs.len() && cs[i].name == name;
    assert(0 <= i < cs.len() && cs[i].name == name);
}

/// With unique sibling names, any occurrence of `name` is the child's index.
pub proof fn lemma_child_index_unique(cs: Seq<NodeView>, name: Seq<char>, i: int)
    requires
        unique_names(cs),
        0 <= i < cs.len(),
        cs[i].name == name,
    ensures
        has_child_name(cs, name),
        child_index(cs, name) == i,
        child_named(cs, name) == cs[i],
{
    assert(has_child_name(cs, name));
    lemma_child_index_some(cs, name);
}

/// Replacing the child at `name`'s index by a node of the same name keeps
/// sibling names unique and leaves every other child untouched.
pub proof fn lemma_update_child(cs: Seq<NodeView>, name: Seq<char>, v: NodeView)
    requires
        unique_names(cs),
        has_child_name(cs, name),
        v.name == name,
    ensures
        ({
            let cs2 = cs.update(child_index(cs, name), v);
            &&& unique_names(cs2)
            &&& cs2.len() == cs.len()
            &&& has_child_name(cs2, name)
            &&& child_index(cs2, name) == child_index(cs, name)
            &&& child_named(cs2, name) == v
            &&& (forall|nm: Seq<char>|
                nm != name ==> #[trigger] has_child_name(cs2, nm) == has_child_name(cs, nm))
            &&& (forall|nm: Seq<char>|
                nm != name && has_child_name(cs, nm) ==> #[trigger] child_named(cs2, nm)
                    == child_named(cs, nm))
        }),
{
    let k = child_index(cs, name);
    lemma_child_index_some(cs, name);
    let cs2 = cs.update(k, v);
    assert(forall|j: int| 0 <= j < cs2.len() ==> cs2[j].name == cs[j].name);
    lemma_child_index_unique(cs2, name, k);
    assert forall|nm: Seq<char>| nm != name implies #[trigger] has_child_name(cs2, nm)
        == has_child_name(cs, nm) by {
        if has_child_name(cs, nm) {
            let i = choose|i: int| 0 <= i < cs.len() && cs[i].name == nm;
            assert(cs2[i].name == nm);
        }
        if has_child_name(cs2, nm) {
            let i = choose|i: int| 0 <= i < cs2.len() && cs2[i].name == nm;
            assert(cs[i].name == nm);
        }
    }
    assert forall|nm: Seq<char>| nm != name && has_child_name(cs, nm) implies #[trigger] child_named(
        cs2,
        nm,
    ) == child_named(cs, nm) by {
        lemma_child_index_some(cs, nm);
        let i = child_index(cs, nm);
        assert(cs2[i] == cs[i]);
        lemma_child_index_unique(cs2, nm, i);
    }
}

/// Appending a child under a name no sibling carries keeps names unique and
/// leaves every existing child untouched.
pub proof fn lemma_push_child(cs: Seq<NodeView>, v: NodeView)
    requires
        unique_names(cs),
        !has_child_name(cs, v.name),
    ensures
        ({
            let cs2 = cs.push(v);
            &&& unique_names(cs2)
            &&& cs2.len() == cs.len() + 1
            &&& has_child_name(cs2, v.name)
            &&& child_index(cs2, v.name) == cs.len()
            &&& child_named(cs2, v.name) == v
            &&& (forall|nm: Seq<char>|
                nm != v.name ==> #[trigger] has_child_name(cs2, nm) == has_child_name(cs, nm))
            &&& (forall|nm: Seq<char>|
                nm != v.name && has_child_name(cs, nm) ==> #[trigger] child_named(cs2, nm)
                    == child_named(cs, nm))
        }),
{
    let cs2 = cs.push(v);
    assert(cs2[cs.len() as int] == v);
    assert(forall|j: int| 0 <= j < cs.len() ==> cs2[j] == cs[j]);
    assert forall|i: int, j: int|
        0 <= i < cs2.len() && 0 <= j < cs2.len() && i != j implies cs2[i].name != cs2[j].name by {
        if i < cs.len() && j < cs.len() {
        } else if i < cs.len() && j == cs.len() {
            assert(cs2[i].name != v.name) by {
                if cs2[i].name == v.name {
                    assert(cs[i].name == v.name);
                    assert(has_child_name(cs, v.name));
                }
            }
        } else if j < cs.len() && i == cs.len() {
            assert(cs2[j].name != v.name) by {
                if cs2[j].name == v.name {
                    assert(cs[j].name == v.name);
                    assert(has_child_name(cs, v.name));
                }
            }
        }
    }
    lemma_child_index_unique(cs2, v.name, cs.len() as int);
    assert forall|nm: Seq<char>| nm != v.name implies #[trigger] has_child_name(cs2, nm)
        == has_child_name(cs, nm) by {
        if has_child_name(cs, nm) {
            let i = choose|i: int| 0 <= i < cs.len() && cs[i].name == nm;
            assert(cs2[i].name == nm);
        }
        if has_child_name(cs2, nm) {
            let i = choose|i: int| 0 <= i < cs2.len() && cs2[i].name == nm;
            assert(i < cs.len());
            assert(cs[i].name == nm);
        }
    }
    assert forall|nm: Seq<char>| nm != v.name && has_child_name(cs, nm) implies #[trigger] child_named(
        cs2,
        nm,
    ) == child_named(cs, nm) by {
        lemma_child_index_some(cs, nm);
        let i = child_index(cs, nm);
        lemma_child_index_unique(cs2, nm, i);
    }
}

/// The per-entry merge step keeps the tree well-formed, and never touches
/// the fields of the node it starts from: only its descendants change.
pub proof fn lemma_merge_segs_wf(node: NodeView, segs: Seq<Seq<char>>, e: ModuleFileView)
    requires
        node.wf(),
    ensures
        ({
            let m = merge_segs(node, segs, e);
            &&& m.wf()
            &&& m.name == node.name
            &&& m.file_type == node.file_type
            &&& m.source_path == node.source_path
            &&& m.replace == node.replace
            &&& m.skip == node.skip
        }),
    decreases segs.len(),
{
    if segs.len() == 0 {
    } else {
        let seg = segs[0];
        let found = has_child_name(node.children, seg);
        let base = if found {
            child_named(node.children, seg)
        } else if segs.len() == 1 {
            fresh_node(seg, entry_type(e))
        } else {
            fresh_node(seg, NodeFileType::Directory)
        };
        if found {
            lemma_child_index_some(node.children, seg);
            assert(node.children[child_index(node.children, seg)].wf());
            assert(base.wf());
        } else {
            assert(base.wf());
        }
        assert(base.name == seg);
        let updated = if segs.len() == 1 {
            apply_entry(base, e)
        } else {
            merge_segs(base, segs.drop_first(), e)
        };
        if segs.len() == 1 {
            assert(updated.children == base.children);
            assert(updated.wf());
        } else {
            lemma_merge_segs_wf(base, segs.drop_first(), e);
        }
        assert(updated.name == seg);
        let m = merge_segs(node, segs, e);
        if found {
            lemma_update_child(node.children, seg, updated);
            let k = child_index(node.children, seg);
            assert(m.children == node.children.update(k, updated));
            assert forall|i: int| 0 <= i < m.children.len() implies #[trigger] m.children[i].wf() by {
                if i == k {
                    assert(m.children[i] == updated);
                    assert(updated.wf());
                } else {
                    assert(m.children[i] == node.children[i]);
                    assert(node.children[i].wf());
                }
            }
        } else {
            lemma_push_child(node.children, updated);
            assert forall|i: int| 0 <= i < m.children.len() implies #[trigger] m.children[i].wf() by {
                if i == node.children.len() {
                    assert(m.children[i] == updated);
                } else {
                    assert(m.children[i] == node.children[i]);
                }
            }
        }
        assert(m.wf());
    }
}

impl Node {
    /// The terminal initial state of a merge session: a directory with no
    /// content, no children, and both flags unset.
    pub fn new_root(name: &str) -> (root: Self)
        ensures
            root@ == fresh_node(name@, NodeFileType::Directory),
            root@.wf(),
    {
        let root = Node {
            name: String::from_str(name),
            file_type: NodeFileType::Directory,
            source_path: None,
            children: Vec::new(),
            replace: false,
            skip: false,
        };
        proof {
            assert(root@.children =~= Seq::<NodeView>::empty());
            assert(root@ =~= fresh_node(name@, NodeFileType::Directory));
        }
        root
    }

    /// Folds one classified entry into the tree rooted at `self`: the
    /// per-entry merge step. Intermediate path segments fetch or materialize
    /// a directory child (an existing child of any kind is descended into
    /// unchanged); the last segment fetches or creates the terminal node and
    /// applies the overwrite rules: the latest entry wins for kind, content
    /// and whiteout state, `replace` is a monotonic or, `skip` and existing
    /// children are untouched. An entry with an empty path is a no-op.
    pub fn add_module_file(&mut self, module_file: ModuleFile)
        requires
            old(self)@.wf(),
        ensures
            final(self)@.wf(),
            final(self)@ == merge_entry(old(self)@, module_file@),
    {
        if module_file.relative_path.len() == 0 {
            proof {
                assert(module_file@.relative_path.len() == 0);
            }
            return ;
        }
        self.add_at(&module_file, 0);
        proof {
            assert(module_file@.relative_path.subrange(0, module_file@.relative_path.len() as int)
                =~= module_file@.relative_path);
            lemma_merge_segs_wf(old(self)@, module_file@.relative_path, module_file@);
        }
    }

    /// Looks for a child named `seg`, returning its position.
    fn find_child(&self, seg: &String) -> (r: Option<usize>)
        ensures
            (match r {
                Some(k) => k < self@.children.len() && self@.children[k as int].name == seg@,
                None => !has_child_name(self@.children, seg@),
            }),
    {
        let mut i: usize = 0;
        while i < self.children.len()
            invariant
                i <= self.children.len(),
                forall|j: int| 0 <= j < i ==> self@.children[j].name != seg@,
            decreases self.children.len() - i,
        {
            if self.children[i].name == *seg {
                proof {
                    assert(self@.children[i as int] == self.children@[i as int]@);
                }
                return Some(i);
            }
            proof {
                assert(self@.children[i as int] == self.children@[i as int]@);
            }
            i += 1;
        }
        proof {
            assert(!has_child_name(self@.children, seg@)) by {
                if has_child_name(self@.children, seg@) {
                    let w = choose|w: int|
                        0 <= w < self@.children.len() && self@.children[w].name == seg@;
                    assert(self@.children[w].name != seg@);
                }
            }
        }
        None
    }

    /// Folds the entry's path segments from `depth` on into the subtree
    /// rooted at `self`.
    #[verifier::rlimit(60)]
    fn add_at(&mut self, mf: &ModuleFile, depth: usize)
        requires
            old(self)@.wf(),
            depth < mf.relative_path@.len(),
        ensures
            final(self)@ == merge_segs(
                old(self)@,
                mf@.relative_path.subrange(depth as int, mf@.relative_path.len() as int),
                mf@,
            ),
        decreases mf.relative_path@.len() - depth,
    {
        let ghost segs = mf@.relative_path.subrange(
            depth as int,
            mf@.relative_path.len() as int,
        );
        let seg: &String = &mf.relative_path[depth];
        let is_last = depth == mf.relative_path.len() - 1;
        proof {
            assert(segs.len() == mf@.relative_path.len() - depth);
            assert(segs[0] == mf@.relative_path[depth as int]);
            assert(segs[0] == seg@);
            assert(is_last <==> segs.len() == 1);
        }

        let found_idx = self.find_child(seg);
        let ghost cs0 = old(self)@.children;
        let ghost found = has_child_name(cs0, seg@);
        let ghost e = mf@;
        proof {
            assert(cs0 == self@.children);
            assert(unique_names(cs0));
        }

        // Fetch the child's position, creating the child if there is none.
        let idx: usize;
        match found_idx {
            Some(k) => {
                idx = k;
                proof {
                    lemma_child_index_unique(cs0, seg@, k as int);
                    assert(found);
                }
            },
            None => {
                proof {
                    assert(!found);
                }
                let ft = if !is_last {
                    NodeFileType::Directory
                } else if mf.is_whiteout {
                    NodeFileType::Whiteout
                } else {
                    mf.file_type
                };
                let fresh = Node {
                    name: seg.clone(),
                    file_type: ft,
                    source_path: None,
                    children: Vec::new(),
                    replace: false,
                    skip: false,
                };
                proof {
                    assert(fresh@.children =~= Seq::<NodeView>::empty());
                    assert(fresh@ =~= (if is_last {
                        fresh_node(seg@, entry_type(e))
                    } else {
                        fresh_node(seg@, NodeFileType::Directory)
                    }));
                }
                idx = self.children.len();
                self.children.push(fresh);
                proof {
                    assert(self@.children =~= cs0.push(fresh@));
                }
            },
        }
        let ghost cs1 = self@.children;
        let ghost base = if found {
            child_named(cs0, seg@)
        } else if is_last {
            fresh_node(seg@, entry_type(e))
        } else {
            fresh_node(seg@, NodeFileType::Directory)
        };
        proof {
            if found {
                assert(cs1 == cs0);
                lemma_child_index_some(cs0, seg@);
                assert(cs1[idx as int] == base);
            } else {
                assert(cs1[idx as int] == base);
            }
            assert(base.wf()) by {
                if found {
                    assert(cs0[child_index(cs0, seg@)].wf());
                }
            }
        }

        // Apply the entry to the fetched-or-created child.
        let mut child = self.children.remove(idx);
        proof {
            assert(child@ == base);
        }
        if is_last {
            if mf.is_whiteout {
                child.file_type = NodeFileType::Whiteout;
            } else {
                child.source_path = Some(mf.real_path.clone());
                child.file_type = mf.file_type;
            }
            if mf.is_replace {
                child.replace = true;
            }
            proof {
                assert(child@ =~= apply_entry(base, e));
            }
        } else {
            child.add_at(mf, depth + 1);
            proof {
                assert(segs.drop_first() =~= mf@.relative_path.subrange(
                    depth as int + 1,
                    mf@.relative_path.len() as int,
                ));
                assert(child@ == merge_segs(base, segs.drop_first(), e));
            }
        }
        let ghost updated = child@;
        self.children.insert(idx, child);

        proof {
            assert(self@.children =~= cs1.update(idx as int, updated));
            if found {
                assert(child_index(cs0, seg@) == idx);
                assert(self@.children == cs0.update(child_index(cs0, seg@), updated));
            } else {
                assert(self@.children =~= cs0.push(updated));
            }
            assert(self@ =~= merge_segs(old(self)@, segs, e));
        }
    }
}

} // verus!
