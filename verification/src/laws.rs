//! The laws of the library: what holds of every scanned tree and of
//! every rendering — depth bounds, sibling order, connectors, counts,
//! hidden entries and determinism.

use vstd::prelude::*;
use crate::files::{GMeta, GNode};
use crate::render::{GLine, count_dirs, count_files, lemma_render_nodes, spec_lines,
    spec_render_from};
use crate::scanner::{GListing, gchild_of, keep_entry, lemma_dedup_all_distinct,
    lemma_dedup_props, lemma_sort_path_nodup, lemma_sort_props, root_node_of, scan_fuel,
    spec_children, spec_dedup, spec_scan, spec_sort};
use crate::text::{hidden_name, lex_le};
use crate::tree::{Tree, depth_of, is_dir_at, links_ok, parent_idx, parents_ok};

verus! {

/// No rendered line shows a node deeper than the depth bound the tree
/// was scanned with: the walk shows only nodes of the tree, and the
/// scanner never creates a node below the bound.
pub proof fn lemma_depth_bounded(t: Tree)
    requires
        t.wf(),
    ensures
        forall|k: int|
            0 <= k < spec_lines(t@).len() ==> depth_of(
                t@,
                (#[trigger] spec_lines(t@)[k]).node as int,
            ) <= t.deep,
{
    if t@[0].kids.len() > 0 {
        lemma_render_nodes(t@, 0, 0, Seq::<char>::empty());
    }
}

/// Every line of a walk below node `n` shows a node whose parent lies at
/// or below `n` in the arena order.
proof fn lemma_render_parents(v: Seq<GNode>, n: int, j: int, prefix: Seq<char>)
    requires
        parents_ok(v),
        links_ok(v),
        0 <= n < v.len(),
        0 <= j,
    ensures
        forall|k: int|
            0 <= k < spec_render_from(v, n, j, prefix).len() ==> n <= parent_idx(
                v,
                (#[trigger] spec_render_from(v, n, j, prefix)[k]).node as int,
            ),
    decreases v.len() - n, v[n].kids.len() - j,
{
    let r = spec_render_from(v, n, j, prefix);
    if j < v[n].kids.len() {
        let c = v[n].kids[j] as int;
        let isl = j == v[n].kids.len() - 1;
        let glyph: Seq<char> = if isl {
            "  "@
        } else {
            "│ "@
        };
        let sub = if is_dir_at(v, c) && v[c].kids.len() > 0 {
            spec_render_from(v, c, 0, prefix + glyph)
        } else {
            Seq::<GLine>::empty()
        };
        let rest = spec_render_from(v, n, j + 1, prefix);
        if is_dir_at(v, c) && v[c].kids.len() > 0 {
            lemma_render_parents(v, c, 0, prefix + glyph);
        }
        lemma_render_parents(v, n, j + 1, prefix);
        assert forall|k: int| 0 <= k < r.len() implies n <= parent_idx(
            v,
            (#[trigger] r[k]).node as int,
        ) by {
            if k == 0 {
                assert(parent_idx(v, c) == n);
            } else if k < 1 + sub.len() {
                assert(r[k] == sub[k - 1]);
            } else {
                assert(r[k] == rest[k - 1 - sub.len()]);
            }
        }
    }
}

/// Within the walk of node `n`'s children from position `j`, the lines
/// showing children of `n` are exactly the child list from `j` on, in
/// order, and exactly the line of the final child carries the terminal
/// connector.
/// One structural step of the walk: among the lines from position `j`
/// on, the first child's line is the only one of the leading block that
/// shows a child of `n`; everything below the first child belongs to its
/// subtree.
#[verifier::rlimit(100)]
#[verifier::spinoff_prover]
proof fn lemma_filter_step(v: Seq<GNode>, n: int, j: int, prefix: Seq<char>)
    requires
        parents_ok(v),
        links_ok(v),
        0 <= n < v.len(),
        0 <= j < v[n].kids.len(),
    ensures
        spec_render_from(v, n, j, prefix).filter(|l: GLine| parent_idx(v, l.node as int) == n)
            =~= seq![
            GLine {
                node: v[n].kids[j],
                last: j == v[n].kids.len() - 1,
                prefix,
            },
        ] + spec_render_from(v, n, j + 1, prefix).filter(
            |l: GLine| parent_idx(v, l.node as int) == n,
        ),
{
    let pred = |l: GLine| parent_idx(v, l.node as int) == n;
    let r = spec_render_from(v, n, j, prefix);
    let c = v[n].kids[j] as int;
    let isl = j == v[n].kids.len() - 1;
    let glyph: Seq<char> = if isl {
        "  "@
    } else {
        "│ "@
    };
    let head = GLine { node: v[n].kids[j], last: isl, prefix };
    let sub = if is_dir_at(v, c) && v[c].kids.len() > 0 {
        spec_render_from(v, c, 0, prefix + glyph)
    } else {
        Seq::<GLine>::empty()
    };
    let rest = spec_render_from(v, n, j + 1, prefix);
    assert(r == seq![head] + sub + rest);
    assert(parent_idx(v, c) == n);
    assert(pred(head));
    if is_dir_at(v, c) && v[c].kids.len() > 0 {
        lemma_render_parents(v, c, 0, prefix + glyph);
        assert forall|k: int| 0 <= k < sub.len() implies !pred(#[trigger] sub[k]) by {
            assert(parent_idx(v, sub[k].node as int) >= c);
        }
    }
    assert(sub.all(|l: GLine| !pred(l)));
    sub.lemma_all_neg_filter_empty(pred);
    Seq::filter_distributes_over_add(seq![head] + sub, rest, pred);
    Seq::filter_distributes_over_add(seq![head], sub, pred);
    reveal(Seq::filter);
    assert(seq![head].drop_last() =~= Seq::<GLine>::empty());
    assert(seq![head].filter(pred) =~= seq![head]);
    assert(sub.filter(pred) =~= Seq::<GLine>::empty());
    assert((seq![head] + sub).filter(pred) =~= seq![head]);
}

#[verifier::rlimit(100)]
#[verifier::spinoff_prover]
pub proof fn lemma_children_in_order(v: Seq<GNode>, n: int, j: int, prefix: Seq<char>)
    requires
        parents_ok(v),
        links_ok(v),
        0 <= n < v.len(),
        0 <= j <= v[n].kids.len(),
    ensures
        ({
            let f = spec_render_from(v, n, j, prefix).filter(
                |l: GLine| parent_idx(v, l.node as int) == n,
            );
            &&& f.map_values(|l: GLine| l.node) =~= v[n].kids.skip(j)
            &&& forall|k: int|
                0 <= k < f.len() ==> ((#[trigger] f[k]).last <==> j + k == v[n].kids.len() - 1)
        }),
    decreases v[n].kids.len() - j,
{
    let pred = |l: GLine| parent_idx(v, l.node as int) == n;
    let r = spec_render_from(v, n, j, prefix);
    let f = r.filter(pred);
    if j == v[n].kids.len() {
        reveal(Seq::filter);
        assert(r =~= Seq::<GLine>::empty());
        assert(f =~= Seq::<GLine>::empty());
        assert(f.map_values(|l: GLine| l.node) =~= v[n].kids.skip(j));
    } else {
        let c = v[n].kids[j] as int;
        let isl = j == v[n].kids.len() - 1;
        let glyph: Seq<char> = if isl {
            "  "@
        } else {
            "│ "@
        };
        let head = GLine { node: v[n].kids[j], last: isl, prefix };
        let rest = spec_render_from(v, n, j + 1, prefix);
        lemma_filter_step(v, n, j, prefix);
        lemma_children_in_order(v, n, j + 1, prefix);
        assert(f =~= seq![head] + rest.filter(pred));
        let frest = rest.filter(pred);
        assert(frest.map_values(|l: GLine| l.node) =~= v[n].kids.skip(j + 1));
        assert forall|k: int| 0 <= k < f.len() implies f.map_values(|l: GLine| l.node)[k]
            == #[trigger] v[n].kids.skip(j)[k] by {
            assert(f.map_values(|l: GLine| l.node)[k] == f[k].node);
            if k == 0 {
                assert(f[0] == head);
            } else {
                assert(f[k] == frest[k - 1]);
                assert(frest.map_values(|l: GLine| l.node)[k - 1] == frest[k - 1].node);
                assert(v[n].kids.skip(j + 1)[k - 1] == v[n].kids.skip(j)[k]);
            }
        }
        assert(f.map_values(|l: GLine| l.node).len() == v[n].kids.skip(j).len());
        assert(f.map_values(|l: GLine| l.node) =~= v[n].kids.skip(j));
        assert forall|k: int| 0 <= k < f.len() implies ((#[trigger] f[k]).last <==> j + k
            == v[n].kids.len() - 1) by {
            if k == 0 {
                assert(f[0] == head);
            } else {
                assert(f[k] == frest[k - 1]);
            }
        }
    }
}

/// Sibling order in the output is exactly the lexicographic path order:
/// the lines showing children of a parent appear in child-list order,
/// and the child list is sorted by path.
pub proof fn lemma_sibling_order(t: Tree, n: usize, prefix: Seq<char>)
    requires
        t.wf(),
        n < t@.len(),
    ensures
        ({
            let f = spec_render_from(t@, n as int, 0, prefix).filter(
                |l: GLine| parent_idx(t@, l.node as int) == n as int,
            );
            &&& f.map_values(|l: GLine| l.node) =~= t@[n as int].kids
            &&& forall|k1: int, k2: int|
                0 <= k1 < k2 < f.len() ==> lex_le(
                    t@[(#[trigger] f[k1]).node as int].path,
                    t@[(#[trigger] f[k2]).node as int].path,
                )
        }),
{
    let v = t@;
    lemma_children_in_order(v, n as int, 0, prefix);
    let f = spec_render_from(v, n as int, 0, prefix).filter(
        |l: GLine| parent_idx(v, l.node as int) == n as int,
    );
    assert(v[n as int].kids.skip(0) =~= v[n as int].kids);
    assert forall|k1: int, k2: int| 0 <= k1 < k2 < f.len() implies lex_le(
        v[(#[trigger] f[k1]).node as int].path,
        v[(#[trigger] f[k2]).node as int].path,
    ) by {
        assert(f.map_values(|l: GLine| l.node)[k1] == f[k1].node);
        assert(f.map_values(|l: GLine| l.node)[k2] == f[k2].node);
        assert(f[k1].node == v[n as int].kids[k1]);
        assert(f[k2].node == v[n as int].kids[k2]);
    }
}

/// Exactly one line among a parent's children carries the terminal
/// connector: the line of the final child, which shows the
/// lexicographically greatest path among the siblings.
pub proof fn lemma_terminal_branch(t: Tree, n: usize, prefix: Seq<char>)
    requires
        t.wf(),
        n < t@.len(),
        t@[n as int].kids.len() > 0,
    ensures
        ({
            let f = spec_render_from(t@, n as int, 0, prefix).filter(
                |l: GLine| parent_idx(t@, l.node as int) == n as int,
            );
            &&& f.len() == t@[n as int].kids.len()
            &&& forall|k: int| 0 <= k < f.len() ==> ((#[trigger] f[k]).last <==> k == f.len() - 1)
            &&& forall|k: int|
                0 <= k < f.len() ==> lex_le(
                    t@[(#[trigger] f[k]).node as int].path,
                    t@[f[f.len() - 1].node as int].path,
                )
        }),
{
    let v = t@;
    lemma_children_in_order(v, n as int, 0, prefix);
    let f = spec_render_from(v, n as int, 0, prefix).filter(
        |l: GLine| parent_idx(v, l.node as int) == n as int,
    );
    assert(v[n as int].kids.skip(0) =~= v[n as int].kids);
    assert(f.map_values(|l: GLine| l.node).len() == f.len());
    assert forall|k: int| 0 <= k < f.len() implies lex_le(
        v[(#[trigger] f[k]).node as int].path,
        v[f[f.len() - 1].node as int].path,
    ) by {
        assert(f.map_values(|l: GLine| l.node)[k] == f[k].node);
        assert(f.map_values(|l: GLine| l.node)[f.len() - 1] == f[f.len() - 1].node);
        assert(f[k].node == v[n as int].kids[k]);
        assert(f[f.len() - 1].node == v[n as int].kids[f.len() - 1]);
        if k < f.len() - 1 {
            assert(lex_le(
                v[v[n as int].kids[k] as int].path,
                v[v[n as int].kids[f.len() - 1] as int].path,
            ));
        } else {
            crate::text::lemma_lex_le_total(
                v[v[n as int].kids[k] as int].path,
                v[v[n as int].kids[k] as int].path,
            );
        }
    }
}

proof fn lemma_count_split(v: Seq<GNode>, lines: Seq<GLine>)
    ensures
        count_dirs(v, lines) + count_files(v, lines) == lines.len(),
    decreases lines.len(),
{
    if lines.len() > 0 {
        lemma_count_split(v, lines.drop_last());
    }
}

/// Every rendered line is counted exactly once — the directory and file
/// counters add up to the number of lines — and the root never appears
/// among the lines, so counting it as a file when it is childless never
/// counts it twice (it is then the only count at all).
pub proof fn lemma_counts_partition(t: Tree)
    requires
        t.wf(),
    ensures
        count_dirs(t@, spec_lines(t@)) + count_files(t@, spec_lines(t@)) == spec_lines(t@).len(),
        forall|k: int| 0 <= k < spec_lines(t@).len() ==> (#[trigger] spec_lines(t@)[k]).node != 0,
        t@[0].kids.len() == 0 ==> spec_lines(t@).len() == 0,
{
    lemma_count_split(t@, spec_lines(t@));
    if t@[0].kids.len() > 0 {
        lemma_render_nodes(t@, 0, 0, Seq::<char>::empty());
    }
}

/// Without `all`, no rendered line shows a hidden name: the scanner
/// filtered every such entry out, at every depth.
pub proof fn lemma_hidden_filtered(t: Tree)
    requires
        t.wf(),
        !t.all,
    ensures
        forall|k: int|
            0 <= k < spec_lines(t@).len() ==> !hidden_name(
                t@[(#[trigger] spec_lines(t@)[k]).node as int].name,
            ),
{
    if t@[0].kids.len() > 0 {
        lemma_render_nodes(t@, 0, 0, Seq::<char>::empty());
    }
}

proof fn lemma_filter_keep_all(metas: Seq<GMeta>)
    ensures
        metas.filter(|m: GMeta| keep_entry(m, true)) =~= metas,
    decreases metas.len(),
{
    reveal(Seq::filter);
    if metas.len() > 0 {
        lemma_filter_keep_all(metas.drop_last());
    }
}

/// With `all`, expansion keeps every listing entry: a child carrying
/// the entry's path is always present (several entries of one path
/// collapse into a single child), and when the listed names are pairwise
/// distinct — as a filesystem directory's names always are — the
/// children are exactly one per entry. Hidden names therefore appear
/// exactly when they were asked for.
pub proof fn lemma_hidden_kept(v: Seq<GNode>, d: int, metas: Seq<GMeta>)
    requires
        0 <= d < v.len(),
    ensures
        forall|k: int|
            0 <= k < metas.len() ==> exists|jj: int|
                0 <= jj < spec_children(v, d, metas, true).len() && (#[trigger] spec_children(
                    v,
                    d,
                    metas,
                    true,
                )[jj]).path == gchild_of(v[d].path, #[trigger] metas[k]).path,
        (forall|k1: int, k2: int|
            0 <= k1 < k2 < metas.len() ==> (#[trigger] metas[k1]).name != (
            #[trigger] metas[k2]).name) ==> ({
            &&& spec_children(v, d, metas, true).len() == metas.len()
            &&& forall|k: int|
                0 <= k < metas.len() ==> spec_children(v, d, metas, true).contains(
                    gchild_of(v[d].path, #[trigger] metas[k]),
                )
        }),
{
    lemma_filter_keep_all(metas);
    let mapped = metas.filter(|m: GMeta| keep_entry(m, true)).map_values(
        |m: GMeta| gchild_of(v[d].path, m),
    );
    lemma_sort_props(mapped);
    let srt = spec_sort(mapped);
    lemma_dedup_props(srt);
    assert forall|k: int| 0 <= k < metas.len() implies exists|jj: int|
        0 <= jj < spec_children(v, d, metas, true).len() && (#[trigger] spec_children(
            v,
            d,
            metas,
            true,
        )[jj]).path == gchild_of(v[d].path, #[trigger] metas[k]).path by {
        assert(mapped[k] == gchild_of(v[d].path, metas[k]));
        assert(mapped.contains(mapped[k]));
        assert(srt.contains(mapped[k]));
        let ks = choose|ks: int| 0 <= ks < srt.len() && srt[ks] == mapped[k];
        assert(exists|jj: int|
            0 <= jj < spec_dedup(srt).len() && (#[trigger] spec_dedup(srt)[jj]).path
                == srt[ks].path);
        let jj = choose|jj: int|
            0 <= jj < spec_dedup(srt).len() && (#[trigger] spec_dedup(srt)[jj]).path
                == srt[ks].path;
        assert(spec_children(v, d, metas, true) == spec_dedup(srt));
        assert(spec_children(v, d, metas, true)[jj].path == gchild_of(
            v[d].path,
            metas[k],
        ).path);
    }
    if forall|k1: int, k2: int|
        0 <= k1 < k2 < metas.len() ==> (#[trigger] metas[k1]).name != (
        #[trigger] metas[k2]).name {
        // Distinct names give distinct paths below one directory.
        assert forall|k1: int, k2: int|
            0 <= k1 < k2 < mapped.len() implies (#[trigger] mapped[k1].path) != (
            #[trigger] mapped[k2].path) by {
            assert(mapped[k1] == gchild_of(v[d].path, metas[k1]));
            assert(mapped[k2] == gchild_of(v[d].path, metas[k2]));
            let pre = v[d].path + "/"@;
            let n1 = metas[k1].name;
            let n2 = metas[k2].name;
            if mapped[k1].path == mapped[k2].path {
                assert(mapped[k1].path == pre + n1);
                assert(mapped[k2].path == pre + n2);
                assert((pre + n1).len() == pre.len() + n1.len());
                assert((pre + n2).len() == pre.len() + n2.len());
                assert(n1.len() == n2.len());
                assert forall|x: int| 0 <= x < n1.len() implies n1[x] == n2[x] by {
                    assert((pre + n1)[pre.len() + x] == n1[x]);
                    assert((pre + n2)[pre.len() + x] == n2[x]);
                }
                assert(n1 =~= n2);
            }
        }
        lemma_sort_path_nodup(mapped);
        lemma_dedup_all_distinct(srt);
        assert(spec_children(v, d, metas, true) == srt);
        assert forall|k: int| 0 <= k < metas.len() implies spec_children(
            v,
            d,
            metas,
            true,
        ).contains(gchild_of(v[d].path, #[trigger] metas[k])) by {
            assert(mapped[k] == gchild_of(v[d].path, metas[k]));
            assert(mapped.contains(mapped[k]));
        }
    }
}

/// The round-trip law: the scanner's postcondition pins its whole
/// result as `spec_scan`, a function of the root's metadata, the
/// listings and the arguments alone — so two scans of an unchanged
/// snapshot with the same arguments build view-identical trees: the
/// same paths, sibling order, kinds and permission strings at every
/// position.
pub proof fn lemma_scan_deterministic(
    t1: Tree,
    t2: Tree,
    root: GMeta,
    gls: Seq<GListing>,
    deep: nat,
    all: bool,
)
    requires
        t1@ == spec_scan(
            seq![root_node_of(root)],
            Seq::<usize>::empty(),
            gls,
            deep,
            all,
            scan_fuel(gls),
        ),
        t2@ == spec_scan(
            seq![root_node_of(root)],
            Seq::<usize>::empty(),
            gls,
            deep,
            all,
            scan_fuel(gls),
        ),
    ensures
        t1@ == t2@,
{
}

/// The two sibling laws, read off the whole output: among all rendered
/// lines, those showing children of the root are exactly the root's
/// child list in order, sorted by path, and exactly the final one
/// carries the terminal connector.
pub proof fn lemma_root_level_output(t: Tree)
    requires
        t.wf(),
    ensures
        ({
            let f = spec_lines(t@).filter(|l: GLine| parent_idx(t@, l.node as int) == 0);
            &&& f.map_values(|l: GLine| l.node) =~= t@[0].kids
            &&& forall|k1: int, k2: int|
                0 <= k1 < k2 < f.len() ==> lex_le(
                    t@[(#[trigger] f[k1]).node as int].path,
                    t@[(#[trigger] f[k2]).node as int].path,
                )
            &&& forall|k: int| 0 <= k < f.len() ==> ((#[trigger] f[k]).last <==> k == f.len() - 1)
        }),
{
    let v = t@;
    let pred = |l: GLine| parent_idx(v, l.node as int) == 0;
    if v[0].kids.len() == 0 {
        reveal(Seq::filter);
        assert(spec_lines(v) =~= Seq::<GLine>::empty());
        assert(spec_lines(v).filter(pred) =~= Seq::<GLine>::empty());
        assert(spec_lines(v).filter(pred).map_values(|l: GLine| l.node) =~= v[0].kids);
    } else {
        lemma_sibling_order(t, 0, Seq::<char>::empty());
        lemma_children_in_order(v, 0, 0, Seq::<char>::empty());
        assert(v[0].kids.skip(0) =~= v[0].kids);
        let f = spec_lines(v).filter(pred);
        assert(f.map_values(|l: GLine| l.node).len() == f.len());
        assert forall|k: int| 0 <= k < f.len() implies ((#[trigger] f[k]).last <==> k == f.len()
            - 1) by {
            assert(f.map_values(|l: GLine| l.node).len() == v[0].kids.len());
        }
    }
}

} // verus!
