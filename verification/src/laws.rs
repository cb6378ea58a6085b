//! The merge semantics, stated and proved once and for all: what one merge
//! step leaves at the entry's own path, that the latest entry wins there,
//! that `replace` only ever accumulates, that intermediate nodes materialize
//! as directories and existing ones pass through untouched, and that the
//! merge never assigns `skip`.

use vstd::prelude::*;

use crate::node::{
    apply_entry, child_index, child_named, entry_type, fresh_node, has_child_name,
    lemma_child_index_some, lemma_merge_segs_wf, lemma_push_child, lemma_update_child,
    merge_entry, merge_segs, node_at, ModuleFileView, NodeFileType, NodeView,
};

verus! {

/// What one merge step leaves at the entry's own path: the node exists, it
/// carries the entry's kind (`Whiteout` for tombstones), the entry's content
/// unless the entry is a whiteout (a whiteout leaves content as it was),
/// `replace` as the or of before and the entry's marker, and the `skip` flag
/// and the children exactly as they were.
pub proof fn lemma_merge_lookup(node: NodeView, segs: Seq<Seq<char>>, e: ModuleFileView)
    requires
        node.wf(),
        segs.len() > 0,
    ensures
        ({
            let m = merge_segs(node, segs, e);
            let prev = node_at(node, segs);
            let r = node_at(m, segs);
            &&& r is Some
            &&& r->0.name == segs.last()
            &&& r->0.file_type == entry_type(e)
            &&& r->0.source_path == (if e.is_whiteout {
                if prev is Some {
                    prev->0.source_path
                } else {
                    None
                }
            } else {
                Some(e.real_path)
            })
            &&& r->0.replace == ((prev is Some && prev->0.replace) || e.is_replace)
            &&& r->0.skip == (prev is Some && prev->0.skip)
            &&& r->0.children == (if prev is Some {
                prev->0.children
            } else {
                Seq::<NodeView>::empty()
            })
        }),
    decreases segs.len(),
{
    let m = merge_segs(node, segs, e);
    let seg = segs[0];
    let rest = segs.drop_first();
    let found = has_child_name(node.children, seg);
    let base = if found {
        child_named(node.children, seg)
    } else if segs.len() == 1 {
        fresh_node(seg, entry_type(e))
    } else {
        fresh_node(seg, NodeFileType::Directory)
    };
    if found {
        lemma_child_index_some(node.children, seg);
        assert(node.children[child_index(node.children, seg)].wf());
        assert(base.wf());
    }
    let updated = if segs.len() == 1 {
        apply_entry(base, e)
    } else {
        merge_segs(base, rest, e)
    };
    if segs.len() > 1 {
        lemma_merge_segs_wf(base, rest, e);
    }
    assert(updated.name == seg);
    if found {
        lemma_update_child(node.children, seg, updated);
        assert(m.children == node.children.update(child_index(node.children, seg), updated));
    } else {
        lemma_push_child(node.children, updated);
        assert(m.children == node.children.push(updated));
    }
    assert(has_child_name(m.children, seg));
    assert(child_named(m.children, seg) == updated);
    assert(node_at(m, segs) == node_at(updated, rest));
    if segs.len() == 1 {
        assert(rest.len() == 0);
        assert(node_at(m, segs) == Some(updated));
        if found {
            assert(node_at(node, segs) == Some(base));
        } else {
            assert(node_at(node, segs) is None);
        }
    } else {
        lemma_merge_lookup(base, rest, e);
        assert(rest.last() == segs.last());
        if found {
            assert(node_at(node, segs) == node_at(base, rest));
        } else {
            assert(node_at(node, segs) is None);
            assert(rest.len() > 0);
            assert(!has_child_name(base.children, rest[0])) by {
                if has_child_name(base.children, rest[0]) {
                    let w = choose|w: int|
                        0 <= w < base.children.len() && base.children[w].name == rest[0];
                }
            }
            assert(node_at(base, rest) is None);
        }
    }
}

/// Last wins: after two entries at the same path, the node carries the later
/// entry's kind; a later content entry overwrites an earlier whiteout with
/// its content, and a later whiteout leaves the earlier entry's content in
/// place under the `Whiteout` kind.
pub proof fn lemma_last_entry_wins(node: NodeView, e1: ModuleFileView, e2: ModuleFileView)
    requires
        node.wf(),
        e1.relative_path.len() > 0,
        e2.relative_path == e1.relative_path,
    ensures
        ({
            let m = merge_entry(merge_entry(node, e1), e2);
            let r = node_at(m, e2.relative_path);
            &&& r is Some
            &&& r->0.file_type == entry_type(e2)
            &&& (!e2.is_whiteout ==> r->0.source_path == Some(e2.real_path))
            &&& ((e2.is_whiteout && !e1.is_whiteout) ==> r->0.source_path == Some(e1.real_path))
        }),
{
    lemma_merge_segs_wf(node, e1.relative_path, e1);
    lemma_merge_lookup(node, e1.relative_path, e1);
    lemma_merge_lookup(merge_entry(node, e1), e2.relative_path, e2);
}

/// A whole sequence of per-entry merge steps, applied first to last.
pub open spec fn merge_entries(node: NodeView, es: Seq<ModuleFileView>) -> NodeView
    decreases es.len(),
{
    if es.len() == 0 {
        node
    } else {
        merge_entry(merge_entries(node, es.drop_last()), es.last())
    }
}

/// Any sequence of merge steps keeps the tree well-formed.
pub proof fn lemma_merge_entries_wf(node: NodeView, es: Seq<ModuleFileView>)
    requires
        node.wf(),
    ensures
        merge_entries(node, es).wf(),
    decreases es.len(),
{
    if es.len() > 0 {
        lemma_merge_entries_wf(node, es.drop_last());
        lemma_merge_segs_wf(
            merge_entries(node, es.drop_last()),
            es.last().relative_path,
            es.last(),
        );
    }
}

/// Monotonic replace: for any interleaving of entries at one path, the node
/// ends with `replace` set iff it was set before or at least one entry
/// carried the marker.
pub proof fn lemma_replace_monotonic(
    node: NodeView,
    es: Seq<ModuleFileView>,
    path: Seq<Seq<char>>,
)
    requires
        node.wf(),
        path.len() > 0,
        es.len() > 0,
        forall|i: int| 0 <= i < es.len() ==> (#[trigger] es[i]).relative_path == path,
    ensures
        ({
            let r = node_at(merge_entries(node, es), path);
            let prev = node_at(node, path);
            &&& r is Some
            &&& (r->0.replace <==> ((prev is Some && prev->0.replace) || exists|i: int|
                0 <= i < es.len() && (#[trigger] es[i]).is_replace))
        }),
    decreases es.len(),
{
    let t1 = merge_entries(node, es.drop_last());
    let last = es.last();
    assert(es[es.len() - 1].relative_path == path);
    lemma_merge_entries_wf(node, es.drop_last());
    lemma_merge_lookup(t1, path, last);
    if es.len() == 1 {
        assert(t1 == node);
        assert((exists|i: int| 0 <= i < es.len() && (#[trigger] es[i]).is_replace)
            <==> last.is_replace) by {
            if exists|i: int| 0 <= i < es.len() && (#[trigger] es[i]).is_replace {
                let w = choose|w: int| 0 <= w < es.len() && es[w].is_replace;
                assert(w == 0);
            }
            if last.is_replace {
                assert(es[0].is_replace);
            }
        }
    } else {
        lemma_replace_monotonic(node, es.drop_last(), path);
        assert((exists|i: int| 0 <= i < es.len() && (#[trigger] es[i]).is_replace) <==> ((exists|
            i: int,
        |
            0 <= i < es.drop_last().len() && (#[trigger] es.drop_last()[i]).is_replace)
            || last.is_replace)) by {
            if exists|i: int| 0 <= i < es.len() && (#[trigger] es[i]).is_replace {
                let w = choose|w: int| 0 <= w < es.len() && es[w].is_replace;
                if w == es.len() - 1 {
                    assert(last.is_replace);
                } else {
                    assert(es.drop_last()[w].is_replace);
                }
            }
            if exists|i: int|
                0 <= i < es.drop_last().len() && (#[trigger] es.drop_last()[i]).is_replace {
                let w = choose|w: int|
                    0 <= w < es.drop_last().len() && es.drop_last()[w].is_replace;
                assert(es[w].is_replace);
            }
            if last.is_replace {
                assert(es[es.len() - 1].is_replace);
            }
        }
    }
}

/// Intermediate materialization, and untouched pass-through: after one merge
/// step, every proper prefix of the entry's path names a node. One that was
/// materialized on demand is a directory with no content and unset flags;
/// one that already existed keeps its kind, content and flags, whatever its
/// kind was — a non-directory is descended into unchanged.
pub proof fn lemma_intermediate_nodes(
    node: NodeView,
    segs: Seq<Seq<char>>,
    e: ModuleFileView,
    k: int,
)
    requires
        node.wf(),
        0 <= k < segs.len() - 1,
    ensures
        ({
            let m = merge_segs(node, segs, e);
            let prefix = segs.subrange(0, k + 1);
            let r = node_at(m, prefix);
            let prev = node_at(node, prefix);
            &&& r is Some
            &&& (prev is None ==> {
                &&& r->0.file_type == NodeFileType::Directory
                &&& r->0.source_path is None
                &&& r->0.replace == false
                &&& r->0.skip == false
            })
            &&& (prev is Some ==> {
                &&& r->0.file_type == prev->0.file_type
                &&& r->0.source_path == prev->0.source_path
                &&& r->0.replace == prev->0.replace
                &&& r->0.skip == prev->0.skip
            })
        }),
    decreases k,
{
    let m = merge_segs(node, segs, e);
    let prefix = segs.subrange(0, k + 1);
    let seg = segs[0];
    let rest = segs.drop_first();
    let found = has_child_name(node.children, seg);
    let base = if found {
        child_named(node.children, seg)
    } else {
        fresh_node(seg, NodeFileType::Directory)
    };
    if found {
        lemma_child_index_some(node.children, seg);
        assert(node.children[child_index(node.children, seg)].wf());
        assert(base.wf());
    }
    let updated = merge_segs(base, rest, e);
    lemma_merge_segs_wf(base, rest, e);
    if found {
        lemma_update_child(node.children, seg, updated);
        assert(m.children == node.children.update(child_index(node.children, seg), updated));
    } else {
        lemma_push_child(node.children, updated);
        assert(m.children == node.children.push(updated));
    }
    assert(has_child_name(m.children, seg));
    assert(child_named(m.children, seg) == updated);
    assert(prefix[0] == seg);
    assert(node_at(m, prefix) == node_at(updated, prefix.drop_first()));
    if k == 0 {
        assert(prefix.drop_first().len() == 0);
        assert(node_at(m, prefix) == Some(updated));
        if found {
            assert(node_at(node, prefix) == Some(base));
        } else {
            assert(node_at(node, prefix) is None);
        }
    } else {
        lemma_intermediate_nodes(base, rest, e, k - 1);
        assert(prefix.drop_first() =~= rest.subrange(0, k));
        if found {
            assert(node_at(node, prefix) == node_at(base, prefix.drop_first()));
        } else {
            assert(node_at(node, prefix) is None);
            assert(rest.subrange(0, k).len() > 0);
            assert(!has_child_name(base.children, rest.subrange(0, k)[0])) by {
                if has_child_name(base.children, rest.subrange(0, k)[0]) {
                    let w = choose|w: int|
                        0 <= w < base.children.len() && base.children[w].name == rest.subrange(
                            0,
                            k,
                        )[0];
                }
            }
            assert(node_at(base, rest.subrange(0, k)) is None);
        }
    }
}

/// No node of `t` carries the `skip` mark.
pub open spec fn all_skip_unset(t: NodeView) -> bool
    decreases t,
{
    !t.skip && (forall|i: int|
        0 <= i < t.children.len() ==> all_skip_unset(#[trigger] t.children[i]))
}

/// Skip untouched: the merge never assigns `skip`, so a tree in which no
/// node carries the mark stays that way through any merge step.
pub proof fn lemma_merge_skip_untouched(node: NodeView, segs: Seq<Seq<char>>, e: ModuleFileView)
    requires
        all_skip_unset(node),
    ensures
        all_skip_unset(merge_segs(node, segs, e)),
    decreases segs.len(),
{
    if segs.len() == 0 {
    } else {
        let m = merge_segs(node, segs, e);
        let seg = segs[0];
        let rest = segs.drop_first();
        let found = has_child_name(node.children, seg);
        let base = if found {
            child_named(node.children, seg)
        } else if segs.len() == 1 {
            fresh_node(seg, entry_type(e))
        } else {
            fresh_node(seg, NodeFileType::Directory)
        };
        if found {
            lemma_child_index_some(node.children, seg);
            assert(all_skip_unset(node.children[child_index(node.children, seg)]));
            assert(all_skip_unset(base));
        } else {
            assert(all_skip_unset(base));
        }
        let updated = if segs.len() == 1 {
            apply_entry(base, e)
        } else {
            merge_segs(base, rest, e)
        };
        if segs.len() == 1 {
            assert(updated.skip == base.skip);
            assert(updated.children == base.children);
            assert(all_skip_unset(updated));
        } else {
            lemma_merge_skip_untouched(base, rest, e);
        }
        assert forall|i: int| 0 <= i < m.children.len() implies all_skip_unset(
            #[trigger] m.children[i],
        ) by {
            if found {
                let kdx = child_index(node.children, seg);
                assert(m.children == node.children.update(kdx, updated));
                if i == kdx {
                    assert(m.children[i] == updated);
                } else {
                    assert(m.children[i] == node.children[i]);
                    assert(all_skip_unset(node.children[i]));
                }
            } else {
                assert(m.children == node.children.push(updated));
                if i == node.children.len() {
                    assert(m.children[i] == updated);
                } else {
                    assert(m.children[i] == node.children[i]);
                    assert(all_skip_unset(node.children[i]));
                }
            }
        }
        assert(all_skip_unset(m));
    }
}

} // verus!
