//! The traversal cursor: given the index stack and the node it points at,
//! find the next directory to visit in depth-first pre-order — descend to
//! the first directory child while the depth bound allows, otherwise move
//! to a later directory sibling, otherwise unwind towards the root.

use vstd::prelude::*;
use crate::files::FileType;
use crate::tree::{Tree, is_dir_at, lemma_path_node_depth, lemma_path_node_in_range, parent_idx,
    path_node, valid_stack};

verus! {

/// The position of the first directory at or after `from` in the child
/// list of node `n`, or `-1` when there is none.
pub open spec fn first_dir_child(v: Seq<crate::files::GNode>, n: int, from: int) -> int
    decreases v[n].kids.len() - from,
{
    if from < 0 || from >= v[n].kids.len() {
        -1
    } else if is_dir_at(v, v[n].kids[from] as int) {
        from
    } else {
        first_dir_child(v, n, from + 1)
    }
}

/// The stack after looking for a later directory sibling, unwinding one
/// level at a time; empty when the traversal is complete.
pub open spec fn sib_or_up(v: Seq<crate::files::GNode>, stack: Seq<usize>) -> Seq<usize>
    decreases stack.len(),
{
    if stack.len() <= 1 {
        Seq::empty()
    } else {
        let p = path_node(v, stack.drop_last());
        let j = first_dir_child(v, p, stack.last() + 1);
        if j >= 0 {
            stack.drop_last().push(j as usize)
        } else {
            sib_or_up(v, stack.drop_last())
        }
    }
}

/// What one cursor step does to the index stack: a first call places the
/// cursor on the root; afterwards it descends to the first directory child
/// while fewer than `deep` levels are open, and otherwise advances to a
/// later directory sibling, unwinding levels as they are exhausted.
pub open spec fn spec_traverse(v: Seq<crate::files::GNode>, stack: Seq<usize>, deep: nat) -> Seq<
    usize,
> {
    if stack.len() == 0 {
        seq![0usize]
    } else {
        let cur = path_node(v, stack);
        let j = if stack.len() < deep {
            first_dir_child(v, cur, 0)
        } else {
            -1
        };
        if j >= 0 {
            stack.push(j as usize)
        } else {
            sib_or_up(v, stack)
        }
    }
}

/// Advances the cursor by one step.
///
/// The first call (empty stack) yields the root itself. Every later
/// successful step yields a directory: the first directory child of the
/// current node if fewer than `deep` levels are open, else the next
/// directory sibling found while unwinding. `None` means the traversal is
/// complete; the stack is then empty.
pub fn traverse(tree: &Tree, index_stack: &mut Vec<usize>, deep: usize, current: usize) -> (r:
    Option<usize>)
    requires
        tree.wf(),
        valid_stack(tree@, old(index_stack)@),
        old(index_stack)@.len() == 0 ==> current == 0,
        old(index_stack)@.len() >= 1 ==> current as int == path_node(tree@, old(index_stack)@),
        current < tree@.len(),
    ensures
        final(index_stack)@ == spec_traverse(tree@, old(index_stack)@, deep as nat),
        valid_stack(tree@, final(index_stack)@),
        (r is Some) <==> final(index_stack)@.len() >= 1,
        r matches Some(n) ==> n < tree@.len() && n as int == path_node(tree@, final(index_stack)@),
        r matches Some(n) ==> (old(index_stack)@.len() >= 1 ==> is_dir_at(tree@, n as int)
            && n >= 1),
        old(index_stack)@.len() >= 1 && final(index_stack)@.len() > old(index_stack)@.len()
            ==> final(index_stack)@.len() == old(index_stack)@.len() + 1 && old(
            index_stack,
        )@.len() < deep,
{
    let ghost v = tree@;
    let ghost orig = index_stack@;
    if index_stack.len() == 0 {
        index_stack.push(0);
        proof {
            assert(index_stack@ =~= seq![0usize]);
            assert(valid_stack(v, index_stack@));
        }
        return Some(current);
    }
    let cur = current;
    proof {
        assert(v[cur as int] == tree.nodes@[cur as int]@);
    }
    if index_stack.len() < deep {
        // Try to descend: find the first directory child of `cur`.
        let clen = tree.nodes[cur].child.len();
        let mut j: usize = 0;
        while j < clen
            invariant
                tree.wf(),
                v == tree@,
                cur < v.len(),
                clen == v[cur as int].kids.len(),
                j <= clen,
                index_stack@ == orig,
                orig == old(index_stack)@,
                orig.len() >= 1,
                orig.len() < deep,
                valid_stack(v, orig),
                cur as int == path_node(v, orig),
                first_dir_child(v, cur as int, 0) == first_dir_child(v, cur as int, j as int),
            decreases clen - j,
        {
            let c = tree.nodes[cur].child[j];
            proof {
                assert(v[cur as int].kids[j as int] == c);
                assert(cur < c < v.len());
                assert(v[c as int] == tree.nodes@[c as int]@);
            }
            if matches!(tree.nodes[c].file_type, FileType::Directory) {
                index_stack.push(j);
                proof {
                    assert(is_dir_at(v, c as int));
                    assert(first_dir_child(v, cur as int, j as int) == j);
                    assert(index_stack@.drop_last() =~= orig);
                    assert(index_stack@.last() == j);
                    assert(index_stack@.len() == orig.len() + 1);
                    assert(orig.len() >= 1);
                    assert(valid_stack(v, orig));
                    assert(path_node(v, orig) == cur as int);
                    assert(path_node(v, index_stack@) == v[path_node(
                        v,
                        index_stack@.drop_last(),
                    )].kids[index_stack@.last() as int] as int);
                    assert(path_node(v, index_stack@) == c);
                    assert(valid_stack(v, index_stack@));
                    assert(index_stack@ == spec_traverse(v, orig, deep as nat));
                }
                return Some(c);
            }
            proof {
                assert(!is_dir_at(v, c as int));
                assert(first_dir_child(v, cur as int, j as int) == first_dir_child(
                    v,
                    cur as int,
                    j + 1,
                ));
            }
            j = j + 1;
        }
        proof {
            assert(first_dir_child(v, cur as int, 0) == -1);
        }
    }
    // No descent: look for a later directory sibling, unwinding as needed.
    let mut cur = cur;
    loop
        invariant
            tree.wf(),
            v == tree@,
            valid_stack(v, index_stack@),
            index_stack@.len() >= 1,
            cur < v.len(),
            cur as int == path_node(v, index_stack@),
            index_stack@.len() <= orig.len(),
            orig == old(index_stack)@,
            orig.len() >= 1,
            spec_traverse(v, orig, deep as nat) == sib_or_up(v, index_stack@),
        decreases index_stack@.len(),
    {
        let ghost before = index_stack@;
        if index_stack.len() <= 1 {
            index_stack.clear();
            proof {
                assert(sib_or_up(v, before) =~= Seq::<usize>::empty());
                assert(index_stack@ =~= Seq::<usize>::empty());
            }
            return None;
        }
        proof {
            lemma_path_node_depth(v, before);
            assert(v[cur as int] == tree.nodes@[cur as int]@);
            assert(v[cur as int].parent is Some);
        }
        let p = tree.nodes[cur].parent.unwrap();
        proof {
            assert(p as int == parent_idx(v, cur as int));
            assert(p as int == path_node(v, before.drop_last()));
            lemma_path_node_in_range(v, before.drop_last());
            assert(v[p as int] == tree.nodes@[p as int]@);
        }
        let top = index_stack[index_stack.len() - 1];
        proof {
            assert(top == before.last());
            assert((top as int) < v[p as int].kids.len());
        }
        let klen = tree.nodes[p].child.len();
        let mut j: usize = top + 1;
        while j < klen
            invariant
                tree.wf(),
                v == tree@,
                p < v.len(),
                klen == v[p as int].kids.len(),
                top + 1 <= j <= klen,
                index_stack@ == before,
                before.len() >= 2,
                before.len() <= orig.len(),
                orig == old(index_stack)@,
                orig.len() >= 1,
                cur as int == path_node(v, before),
                p as int == path_node(v, before.drop_last()),
                top == before.last(),
                valid_stack(v, before),
                spec_traverse(v, orig, deep as nat) == sib_or_up(v, before),
                first_dir_child(v, p as int, top + 1) == first_dir_child(v, p as int, j as int),
            decreases klen - j,
        {
            let c = tree.nodes[p].child[j];
            proof {
                assert(v[p as int].kids[j as int] == c);
                assert(p < c < v.len());
                assert(v[c as int] == tree.nodes@[c as int]@);
            }
            if matches!(tree.nodes[c].file_type, FileType::Directory) {
                let _ = index_stack.pop();
                index_stack.push(j);
                proof {
                    assert(is_dir_at(v, c as int));
                    assert(first_dir_child(v, p as int, j as int) == j);
                    assert(first_dir_child(v, p as int, top + 1) >= 0);
                    assert(index_stack@ =~= before.drop_last().push(j));
                    assert(index_stack@.drop_last() =~= before.drop_last());
                    assert(sib_or_up(v, before) == index_stack@);
                    assert(path_node(v, index_stack@) == c);
                    assert(valid_stack(v, index_stack@));
                }
                return Some(c);
            }
            proof {
                assert(!is_dir_at(v, c as int));
                assert(first_dir_child(v, p as int, j as int) == first_dir_child(
                    v,
                    p as int,
                    j + 1,
                ));
            }
            j = j + 1;
        }
        // No directory sibling at this level: unwind one level.
        let _ = index_stack.pop();
        cur = p;
        proof {
            assert(first_dir_child(v, p as int, top + 1) == -1);
            assert(index_stack@ =~= before.drop_last());
            assert(sib_or_up(v, before) == sib_or_up(v, index_stack@));
        }
    }
}

} // verus!
