//! The scanner: turns directory listings into tree nodes. Entries are
//! filtered (hidden names drop out unless asked for), given their full
//! path, sorted by path, and attached to the directory being expanded.
//! A directory is expanded at most once, and only while it sits above the
//! depth bound.

use vstd::prelude::*;
use crate::files::{FileType, Files, GMeta, GNode, RawMeta, spec_classify, spec_mode_str};
use crate::text::{hidden_name, is_hidden_name, lemma_lex_le_antisym, lemma_lex_le_total,
    lemma_lex_le_trans, lex_le, str_lex_le};
use crate::tree::{Tree, depth_of, is_dir_at, lemma_stack_stable, links_ok, parents_ok,
    parent_idx, path_node, valid_stack};
use crate::file_traverse::{spec_traverse, traverse};

verus! {

/// One entry of a directory listing, already carrying its full path.
pub struct Child {
    /// The full path: the directory's path, a separator, the entry name.
    pub path: String,
    /// The entry's metadata report.
    pub meta: RawMeta,
}

/// The ghost image of a listing entry.
pub struct GChild {
    pub path: Seq<char>,
    pub meta: GMeta,
}

impl View for Child {
    type V = GChild;

    open spec fn view(&self) -> GChild {
        GChild { path: self.path@, meta: self.meta@ }
    }
}

/// Inserting one entry into a list sorted by path: it goes behind every
/// entry whose path is not greater, so equal paths keep their order.
pub open spec fn spec_insert(s: Seq<GChild>, c: GChild) -> Seq<GChild>
    decreases s.len(),
{
    if s.len() == 0 {
        seq![c]
    } else if lex_le(s[0].path, c.path) {
        seq![s[0]] + spec_insert(s.skip(1), c)
    } else {
        seq![c] + s
    }
}

/// Sorting a listing by path, stably, by inserting one entry at a time.
pub open spec fn spec_sort(s: Seq<GChild>) -> Seq<GChild>
    decreases s.len(),
{
    if s.len() == 0 {
        Seq::<GChild>::empty()
    } else {
        spec_insert(spec_sort(s.drop_last()), s.last())
    }
}

/// Paths appear in ascending order.
pub open spec fn sorted_by_path(s: Seq<GChild>) -> bool {
    forall|i: int, j: int|
        0 <= i < j < s.len() ==> lex_le(#[trigger] s[i].path, #[trigger] s[j].path)
}

pub proof fn lemma_insert_props(s: Seq<GChild>, c: GChild)
    ensures
        spec_insert(s, c).len() == s.len() + 1,
        forall|x: GChild|
            #[trigger] spec_insert(s, c).contains(x) <==> (s.contains(x) || x == c),
        sorted_by_path(s) ==> sorted_by_path(spec_insert(s, c)),
    decreases s.len(),
{
    if s.len() == 0 {
        assert forall|x: GChild| #[trigger]
            spec_insert(s, c).contains(x) <==> (s.contains(x) || x == c) by {
            if spec_insert(s, c).contains(x) {
                assert(x == spec_insert(s, c)[0]);
            }
            if x == c {
                assert(spec_insert(s, c)[0] == x);
            }
        }
    } else if lex_le(s[0].path, c.path) {
        let tail = s.skip(1);
        lemma_insert_props(tail, c);
        let r = spec_insert(s, c);
        let rt = spec_insert(tail, c);
        assert(r == seq![s[0]] + rt);
        assert forall|x: GChild| #[trigger] r.contains(x) <==> (s.contains(x) || x == c) by {
            if r.contains(x) {
                let i = choose|i: int| 0 <= i < r.len() && r[i] == x;
                if i == 0 {
                    assert(s[0] == x);
                    assert(s.contains(x));
                } else {
                    assert(rt[i - 1] == x);
                    assert(rt.contains(x));
                    if tail.contains(x) {
                        let j = choose|j: int| 0 <= j < tail.len() && tail[j] == x;
                        assert(s[j + 1] == x);
                        assert(s.contains(x));
                    }
                }
            }
            if s.contains(x) {
                let i = choose|i: int| 0 <= i < s.len() && s[i] == x;
                if i == 0 {
                    assert(r[0] == x);
                } else {
                    assert(tail[i - 1] == x);
                    assert(tail.contains(x));
                    assert(rt.contains(x));
                    let j = choose|j: int| 0 <= j < rt.len() && rt[j] == x;
                    assert(r[j + 1] == x);
                }
            }
            if x == c {
                assert(rt.contains(x));
                let j = choose|j: int| 0 <= j < rt.len() && rt[j] == x;
                assert(r[j + 1] == x);
            }
        }
        if sorted_by_path(s) {
            assert forall|i: int, j: int| 0 <= i < j < tail.len() implies lex_le(
                #[trigger] tail[i].path,
                #[trigger] tail[j].path,
            ) by {
                assert(s[i + 1] == tail[i]);
                assert(s[j + 1] == tail[j]);
            }
            assert(sorted_by_path(tail));
            assert forall|i: int, j: int| 0 <= i < j < r.len() implies lex_le(
                #[trigger] r[i].path,
                #[trigger] r[j].path,
            ) by {
                if i == 0 {
                    // r[j] is either c or an element of the tail; s[0] is
                    // below both.
                    assert(rt.contains(r[j]));
                    if tail.contains(r[j]) {
                        let k = choose|k: int| 0 <= k < tail.len() && tail[k] == r[j];
                        assert(s[k + 1] == r[j]);
                        assert(lex_le(s[0].path, r[j].path));
                    } else {
                        assert(r[j] == c);
                    }
                } else {
                    assert(r[i] == rt[i - 1]);
                    assert(r[j] == rt[j - 1]);
                }
            }
        }
    } else {
        lemma_lex_le_total(s[0].path, c.path);
        let r = spec_insert(s, c);
        assert(r == seq![c] + s);
        assert forall|x: GChild| #[trigger] r.contains(x) <==> (s.contains(x) || x == c) by {
            if r.contains(x) {
                let i = choose|i: int| 0 <= i < r.len() && r[i] == x;
                if i > 0 {
                    assert(s[i - 1] == x);
                }
            }
            if s.contains(x) {
                let i = choose|i: int| 0 <= i < s.len() && s[i] == x;
                assert(r[i + 1] == x);
            }
            if x == c {
                assert(r[0] == x);
            }
        }
        if sorted_by_path(s) {
            assert forall|i: int, j: int| 0 <= i < j < r.len() implies lex_le(
                #[trigger] r[i].path,
                #[trigger] r[j].path,
            ) by {
                if i == 0 {
                    assert(r[j] == s[j - 1]);
                    if j == 1 {
                        assert(lex_le(c.path, s[0].path));
                    } else {
                        assert(lex_le(s[0].path, s[j - 1].path));
                        lemma_lex_le_trans(c.path, s[0].path, s[j - 1].path);
                    }
                } else {
                    assert(r[i] == s[i - 1]);
                    assert(r[j] == s[j - 1]);
                }
            }
        }
    }
}

pub proof fn lemma_sort_props(s: Seq<GChild>)
    ensures
        spec_sort(s).len() == s.len(),
        sorted_by_path(spec_sort(s)),
        forall|x: GChild| #[trigger] spec_sort(s).contains(x) <==> s.contains(x),
    decreases s.len(),
{
    if s.len() == 0 {
    } else {
        let head = s.drop_last();
        lemma_sort_props(head);
        lemma_insert_props(spec_sort(head), s.last());
        assert forall|x: GChild| #[trigger] spec_sort(s).contains(x) <==> s.contains(x) by {
            if spec_sort(s).contains(x) {
                if spec_sort(head).contains(x) {
                    assert(head.contains(x));
                    let i = choose|i: int| 0 <= i < head.len() && head[i] == x;
                    assert(s[i] == x);
                } else {
                    assert(x == s.last());
                }
            }
            if s.contains(x) {
                let i = choose|i: int| 0 <= i < s.len() && s[i] == x;
                if i < s.len() - 1 {
                    assert(head[i] == x);
                    assert(head.contains(x));
                }
            }
        }
    }
}

/// Where an entry lands when inserted into a sorted list: after every
/// entry whose path is not greater.
proof fn lemma_insert_at(s: Seq<GChild>, c: GChild, pos: int)
    requires
        0 <= pos <= s.len(),
        forall|k: int| 0 <= k < pos ==> lex_le(#[trigger] s[k].path, c.path),
        pos < s.len() ==> !lex_le(s[pos].path, c.path),
    ensures
        spec_insert(s, c) =~= s.take(pos) + seq![c] + s.skip(pos),
    decreases s.len(),
{
    if s.len() == 0 {
    } else if pos == 0 {
    } else {
        let tail = s.skip(1);
        assert(lex_le(s[0].path, c.path));
        assert forall|k: int| 0 <= k < pos - 1 implies lex_le(#[trigger] tail[k].path, c.path) by {
            assert(s[k + 1] == tail[k]);
        }
        assert(pos - 1 < tail.len() ==> !lex_le(tail[pos - 1].path, c.path));
        lemma_insert_at(tail, c, pos - 1);
        assert(spec_insert(s, c) =~= seq![s[0]] + (tail.take(pos - 1) + seq![c] + tail.skip(
            pos - 1,
        )));
    }
}

/// Inserts one entry into a child list kept sorted by path.
fn insert_child(out: &mut Vec<Child>, c: Child)
    ensures
        final(out)@.map_values(|ch: Child| ch@) == spec_insert(
            old(out)@.map_values(|ch: Child| ch@),
            c@,
        ),
{
    let ghost gs = out@.map_values(|ch: Child| ch@);
    let mut i: usize = 0;
    loop
        invariant_except_break
            out@.map_values(|ch: Child| ch@) == gs,
            i <= out@.len(),
            gs.len() == out@.len(),
            forall|k: int| 0 <= k < i ==> lex_le(#[trigger] gs[k].path, c@.path),
        ensures
            out@.map_values(|ch: Child| ch@) == gs,
            gs.len() == out@.len(),
            i <= out@.len(),
            forall|k: int| 0 <= k < i ==> lex_le(#[trigger] gs[k].path, c@.path),
            (i as int) < gs.len() ==> !lex_le(gs[i as int].path, c@.path),
        decreases out@.len() - i,
    {
        if i == out.len() {
            break ;
        }
        proof {
            assert(gs[i as int] == out@[i as int]@);
        }
        if !str_lex_le(out[i].path.as_str(), c.path.as_str()) {
            break ;
        }
        i = i + 1;
    }
    proof {
        lemma_insert_at(gs, c@, i as int);
    }
    out.insert(i, c);
    proof {
        assert(out@.map_values(|ch: Child| ch@) =~= gs.take(i as int) + seq![c@] + gs.skip(
            i as int,
        ));
    }
}

/// Sorts a listing's entries by path, stably.
fn sort_children(v: Vec<Child>) -> (r: Vec<Child>)
    ensures
        r@.map_values(|ch: Child| ch@) == spec_sort(v@.map_values(|ch: Child| ch@)),
{
    let ghost gv = v@.map_values(|ch: Child| ch@);
    let mut src = v;
    let mut out: Vec<Child> = Vec::new();
    let ghost k: int = 0;
    proof {
        assert(out@.map_values(|ch: Child| ch@) =~= spec_sort(gv.take(0)));
    }
    loop
        invariant_except_break
            0 <= k <= gv.len(),
            src@.map_values(|ch: Child| ch@) =~= gv.skip(k),
            out@.map_values(|ch: Child| ch@) == spec_sort(gv.take(k)),
        ensures
            out@.map_values(|ch: Child| ch@) == spec_sort(gv),
        decreases gv.len() - k,
    {
        if src.len() == 0 {
            proof {
                assert(src@.map_values(|ch: Child| ch@).len() == src@.len());
                assert(gv.skip(k).len() == 0);
                assert(gv.take(k) =~= gv);
            }
            break ;
        }
        proof {
            assert(src@.map_values(|ch: Child| ch@).len() == src@.len());
            assert(gv.skip(k).len() == gv.len() - k);
            assert(k < gv.len());
            assert(src@.map_values(|ch: Child| ch@)[0] == src@[0]@);
            assert(gv.skip(k)[0] == gv[k]);
        }
        let ghost presrc = src@;
        let c = src.remove(0);
        proof {
            assert(c == presrc[0]);
            assert(c@ == gv[k]);
            assert(src@ == presrc.remove(0));
            assert(src@.len() == presrc.len() - 1);
            assert forall|ii: int| 0 <= ii < src@.len() implies src@.map_values(|ch: Child| ch@)[ii]
                == #[trigger] gv.skip(k + 1)[ii] by {
                assert(src@[ii] == presrc[ii + 1]);
                assert(presrc.map_values(|ch: Child| ch@)[ii + 1] == presrc[ii + 1]@);
                assert(gv.skip(k)[ii + 1] == gv[k + 1 + ii]);
                assert(gv.skip(k + 1)[ii] == gv[k + 1 + ii]);
            }
            assert(src@.map_values(|ch: Child| ch@) =~= gv.skip(k + 1));
            assert(gv.take(k + 1).drop_last() =~= gv.take(k));
            assert(gv.take(k + 1).last() == gv[k]);
        }
        insert_child(&mut out, c);
        proof {
            assert(spec_sort(gv.take(k + 1)) == spec_insert(spec_sort(gv.take(k)), gv[k]));
            k = k + 1;
        }
    }
    out
}


/// No two entries share a path.
pub open spec fn path_nodup(s: Seq<GChild>) -> bool {
    forall|i: int, j: int|
        0 <= i < j < s.len() ==> (#[trigger] s[i].path) != (#[trigger] s[j].path)
}

/// Drops every entry whose path repeats an earlier one; on a sorted list
/// equal paths stand together, so the first of each run is kept.
pub open spec fn spec_dedup(s: Seq<GChild>) -> Seq<GChild>
    decreases s.len(),
{
    if s.len() == 0 {
        Seq::<GChild>::empty()
    } else {
        let d = spec_dedup(s.drop_last());
        if d.len() > 0 && d.last().path == s.last().path {
            d
        } else {
            d.push(s.last())
        }
    }
}

pub proof fn lemma_dedup_props(s: Seq<GChild>)
    requires
        sorted_by_path(s),
    ensures
        spec_dedup(s).len() <= s.len(),
        s.len() > 0 ==> spec_dedup(s).len() >= 1 && spec_dedup(s).last().path == s.last().path,
        sorted_by_path(spec_dedup(s)),
        path_nodup(spec_dedup(s)),
        forall|x: GChild| #[trigger] spec_dedup(s).contains(x) ==> s.contains(x),
        forall|k: int|
            0 <= k < s.len() ==> exists|jj: int|
                0 <= jj < spec_dedup(s).len() && (#[trigger] spec_dedup(s)[jj]).path == (
                #[trigger] s[k]).path,
    decreases s.len(),
{
    if s.len() == 0 {
        assert forall|x: GChild| #[trigger] spec_dedup(s).contains(x) implies s.contains(x) by {
            assert(spec_dedup(s).len() == 0);
        }
    } else {
        let h = s.drop_last();
        assert forall|i: int, j: int| 0 <= i < j < h.len() implies lex_le(
            #[trigger] h[i].path,
            #[trigger] h[j].path,
        ) by {
            assert(h[i] == s[i]);
            assert(h[j] == s[j]);
        }
        lemma_dedup_props(h);
        let d = spec_dedup(h);
        let r = spec_dedup(s);
        // Every kept entry is one of the originals.
        assert forall|x: GChild| #[trigger] r.contains(x) implies s.contains(x) by {
            let i = choose|i: int| 0 <= i < r.len() && r[i] == x;
            if i < d.len() {
                assert(d.contains(x));
                assert(h.contains(x));
                let k = choose|k: int| 0 <= k < h.len() && h[k] == x;
                assert(s[k] == x);
            } else {
                assert(x == s.last());
                assert(s[s.len() - 1] == x);
            }
        }
        if d.len() > 0 && d.last().path == s.last().path {
            assert(r == d);
            assert forall|k: int| 0 <= k < s.len() implies exists|jj: int|
                0 <= jj < r.len() && (#[trigger] r[jj]).path == (#[trigger] s[k]).path by {
                if k < s.len() - 1 {
                    assert(h[k] == s[k]);
                } else {
                    assert(r[r.len() - 1].path == s[k].path);
                }
            }
        } else {
            assert(r == d.push(s.last()));
            // Everything already kept lies at or below the new last path.
            assert forall|i: int| 0 <= i < d.len() implies lex_le(
                (#[trigger] d[i]).path,
                s.last().path,
            ) by {
                assert(d.contains(d[i]));
                assert(h.contains(d[i]));
                let k = choose|k: int| 0 <= k < h.len() && h[k] == d[i];
                assert(s[k] == d[i]);
                if k < s.len() - 1 {
                    assert(lex_le(s[k].path, s[s.len() - 1].path));
                }
                if k == s.len() - 1 {
                    lemma_lex_le_total(d[i].path, d[i].path);
                }
            }
            assert forall|i: int, j: int| 0 <= i < j < r.len() implies lex_le(
                #[trigger] r[i].path,
                #[trigger] r[j].path,
            ) by {
                if j < d.len() {
                    assert(r[i] == d[i] && r[j] == d[j]);
                } else {
                    assert(r[j] == s.last());
                    assert(r[i] == d[i]);
                }
            }
            // And strictly below it: otherwise the kept last entry would
            // already carry the new path.
            assert forall|i: int| 0 <= i < d.len() implies (#[trigger] d[i]).path
                != s.last().path by {
                if d[i].path == s.last().path {
                    assert(h.len() > 0);
                    assert(d.last().path == h.last().path);
                    assert(lex_le(d[i].path, d.last().path));
                    assert(h[h.len() - 1] == s[s.len() - 2]);
                    assert(lex_le(s[s.len() - 2].path, s[s.len() - 1].path));
                    assert(lex_le(d.last().path, s.last().path));
                    lemma_lex_le_antisym(d.last().path, s.last().path);
                    assert(false);
                }
            }
            assert forall|i: int, j: int|
                0 <= i < j < r.len() implies (#[trigger] r[i].path) != (#[trigger] r[j].path) by {
                if j < d.len() {
                    assert(r[i] == d[i] && r[j] == d[j]);
                } else {
                    assert(r[j] == s.last());
                    assert(r[i] == d[i]);
                }
            }
            assert forall|k: int| 0 <= k < s.len() implies exists|jj: int|
                0 <= jj < r.len() && (#[trigger] r[jj]).path == (#[trigger] s[k]).path by {
                if k < s.len() - 1 {
                    assert(h[k] == s[k]);
                    let jj = choose|jj: int|
                        0 <= jj < d.len() && (#[trigger] d[jj]).path == h[k].path;
                    assert(r[jj].path == s[k].path);
                } else {
                    assert(r[r.len() - 1].path == s[k].path);
                }
            }
        }
    }
}

/// When no two entries share a path, nothing is dropped.
pub proof fn lemma_dedup_all_distinct(s: Seq<GChild>)
    requires
        path_nodup(s),
    ensures
        spec_dedup(s) == s,
    decreases s.len(),
{
    if s.len() == 0 {
        assert(spec_dedup(s) =~= s);
    } else {
        let h = s.drop_last();
        assert forall|i: int, j: int|
            0 <= i < j < h.len() implies (#[trigger] h[i].path) != (#[trigger] h[j].path) by {
            assert(h[i] == s[i]);
            assert(h[j] == s[j]);
        }
        lemma_dedup_all_distinct(h);
        if h.len() > 0 {
            assert(spec_dedup(h).last().path == h[h.len() - 1].path);
            assert(h[h.len() - 1] == s[s.len() - 2]);
            assert(s[s.len() - 2].path != s[s.len() - 1].path);
        }
        assert(spec_dedup(s) =~= s);
    }
}

/// The position an entry lands at: behind every entry whose path is
/// not greater.
spec fn insert_pos(s: Seq<GChild>, c: GChild, from: int) -> int
    decreases s.len() - from,
{
    if from < 0 || from >= s.len() {
        s.len() as int
    } else if !lex_le(s[from].path, c.path) {
        from
    } else {
        insert_pos(s, c, from + 1)
    }
}

proof fn lemma_insert_pos_props(s: Seq<GChild>, c: GChild, from: int)
    requires
        0 <= from <= s.len(),
    ensures
        from <= insert_pos(s, c, from) <= s.len(),
        forall|k: int| from <= k < insert_pos(s, c, from) ==> lex_le(#[trigger] s[k].path, c.path),
        insert_pos(s, c, from) < s.len() ==> !lex_le(s[insert_pos(s, c, from) as int].path, c.path),
    decreases s.len() - from,
{
    if from < s.len() && lex_le(s[from].path, c.path) {
        lemma_insert_pos_props(s, c, from + 1);
    }
}

/// Inserting an entry with a fresh path keeps paths pairwise distinct.
proof fn lemma_insert_path_nodup(s: Seq<GChild>, c: GChild)
    requires
        path_nodup(s),
        forall|i: int| 0 <= i < s.len() ==> (#[trigger] s[i].path) != c.path,
    ensures
        path_nodup(spec_insert(s, c)),
{
    let ip = insert_pos(s, c, 0);
    lemma_insert_pos_props(s, c, 0);
    lemma_insert_at(s, c, ip);
    let r = spec_insert(s, c);
    assert forall|i: int, j: int|
        0 <= i < j < r.len() implies (#[trigger] r[i].path) != (#[trigger] r[j].path) by {
        assert(r[i] == (if i < ip {
            s[i]
        } else if i == ip {
            c
        } else {
            s[i - 1]
        }));
        assert(r[j] == (if j < ip {
            s[j]
        } else if j == ip {
            c
        } else {
            s[j - 1]
        }));
    }
}

/// Sorting entries whose paths are pairwise distinct keeps them so.
pub proof fn lemma_sort_path_nodup(s: Seq<GChild>)
    requires
        path_nodup(s),
    ensures
        path_nodup(spec_sort(s)),
    decreases s.len(),
{
    if s.len() > 0 {
        let h = s.drop_last();
        assert forall|i: int, j: int|
            0 <= i < j < h.len() implies (#[trigger] h[i].path) != (#[trigger] h[j].path) by {
            assert(h[i] == s[i]);
            assert(h[j] == s[j]);
        }
        lemma_sort_path_nodup(h);
        lemma_sort_props(h);
        assert forall|i: int| 0 <= i < spec_sort(h).len() implies (#[trigger] spec_sort(
            h,
        )[i]).path != s.last().path by {
            assert(spec_sort(h).contains(spec_sort(h)[i]));
            assert(h.contains(spec_sort(h)[i]));
            let k = choose|k: int| 0 <= k < h.len() && h[k] == spec_sort(h)[i];
            assert(s[k] == spec_sort(h)[i]);
            assert(s[k].path != s[s.len() - 1].path);
        }
        lemma_insert_path_nodup(spec_sort(h), s.last());
    }
}

/// An entry survives filtering when hidden entries are asked for or its
/// name does not mark it hidden.
pub open spec fn keep_entry(m: GMeta, all: bool) -> bool {
    all || !hidden_name(m.name)
}

/// A listing entry extended with its full path below `dirpath`.
pub open spec fn gchild_of(dirpath: Seq<char>, m: GMeta) -> GChild {
    GChild { path: dirpath + "/"@ + m.name, meta: m }
}

/// The node a listing entry becomes, as a child of node `d`.
pub open spec fn gnode_of(c: GChild, d: usize) -> GNode {
    GNode {
        path: c.path,
        name: c.meta.name,
        kind: spec_classify(c.meta),
        mode: spec_mode_str(c.meta.mode),
        parent: Some(d),
        kids: Seq::<usize>::empty(),
    }
}

/// A directory is expanded only when it is a directory, has not been
/// expanded yet, and sits strictly above the depth bound.
pub open spec fn spec_expandable(v: Seq<GNode>, d: int, deep: nat) -> bool {
    &&& is_dir_at(v, d)
    &&& v[d].kids.len() == 0
    &&& depth_of(v, d) < deep
}

/// The children a listing produces: filtered, given full paths, sorted,
/// and with later entries of a repeated path dropped — no two children
/// of one directory ever share a path.
pub open spec fn spec_children(v: Seq<GNode>, d: int, metas: Seq<GMeta>, all: bool) -> Seq<
    GChild,
> {
    spec_dedup(
        spec_sort(
            metas.filter(|m: GMeta| keep_entry(m, all)).map_values(
                |m: GMeta| gchild_of(v[d].path, m),
            ),
        ),
    )
}

/// What expanding node `d` with a listing does to the arena: nothing when
/// `d` is not expandable; otherwise the new nodes are appended in sorted
/// order and `d` receives their indices as its child list.
pub open spec fn spec_expand(
    v: Seq<GNode>,
    d: int,
    metas: Seq<GMeta>,
    deep: nat,
    all: bool,
) -> Seq<GNode> {
    if !spec_expandable(v, d, deep) {
        v
    } else {
        let sorted = spec_children(v, d, metas, all);
        let dnode = GNode {
            kids: Seq::new(sorted.len(), |t: int| (v.len() + t) as usize),
            ..v[d]
        };
        v.update(d, dnode) + sorted.map_values(|c: GChild| gnode_of(c, d as usize))
    }
}

proof fn lemma_filter_push<A>(s: Seq<A>, x: A, pred: spec_fn(A) -> bool)
    ensures
        s.push(x).filter(pred) == if pred(x) {
            s.filter(pred).push(x)
        } else {
            s.filter(pred)
        },
{
    reveal(Seq::filter);
    assert(s.push(x).drop_last() =~= s);
    assert(s.push(x).last() == x);
}

/// Depth only reads parent pointers, so extending the arena or changing
/// child lists leaves every old node at its depth.
proof fn lemma_depth_stable(v1: Seq<GNode>, v2: Seq<GNode>, i: int)
    requires
        parents_ok(v1),
        parents_ok(v2),
        v1.len() <= v2.len(),
        0 <= i < v1.len(),
        forall|k: int| 0 <= k < v1.len() ==> v2[k].parent == #[trigger] v1[k].parent,
    ensures
        depth_of(v2, i) == depth_of(v1, i),
    decreases i,
{
    if i > 0 {
        lemma_depth_stable(v1, v2, parent_idx(v1, i));
    }
}

/// Expansion preserves every invariant of the tree: the appended nodes
/// point back at `d`, sit one level below it (still within the bound),
/// come sorted by path, and carry no hidden name unless asked for.
proof fn lemma_expand_wf(
    v0: Seq<GNode>,
    v1: Seq<GNode>,
    d: usize,
    gsorted: Seq<GChild>,
    deep: nat,
    all: bool,
    gmetas: Seq<GMeta>,
)
    requires
        parents_ok(v0),
        links_ok(v0),
        forall|i: int| 0 <= i < v0.len() ==> #[trigger] depth_of(v0, i) <= deep,
        !all ==> forall|i: int| 1 <= i < v0.len() ==> !hidden_name(#[trigger] v0[i].name),
        d < v0.len(),
        v0.len() + gsorted.len() <= usize::MAX,
        spec_expandable(v0, d as int, deep),
        gsorted == spec_children(v0, d as int, gmetas, all),
        v1 == v0.update(
            d as int,
            GNode {
                kids: Seq::new(gsorted.len(), |x: int| (v0.len() + x) as usize),
                ..v0[d as int]
            },
        ) + gsorted.map_values(|c: GChild| gnode_of(c, d)),
    ensures
        parents_ok(v1),
        links_ok(v1),
        forall|i: int| 0 <= i < v1.len() ==> #[trigger] depth_of(v1, i) <= deep,
        !all ==> forall|i: int| 1 <= i < v1.len() ==> !hidden_name(#[trigger] v1[i].name),
{
    let ll = v0.len() as int;
    let kk = gsorted.len() as int;
    let input = gmetas.filter(|m: GMeta| keep_entry(m, all)).map_values(
        |m: GMeta| gchild_of(v0[d as int].path, m),
    );
    lemma_sort_props(input);
    lemma_dedup_props(spec_sort(input));
    assert(v1.len() == ll + kk);
    assert forall|i: int| 0 <= i < v1.len() implies #[trigger] v1[i] == (if i < ll {
        if i == d {
            GNode {
                kids: Seq::new(gsorted.len(), |x: int| (v0.len() + x) as usize),
                ..v0[d as int]
            }
        } else {
            v0[i]
        }
    } else {
        gnode_of(gsorted[i - ll], d)
    }) by {
        if i >= ll {
            assert(gsorted.map_values(|c: GChild| gnode_of(c, d))[i - ll] == gnode_of(
                gsorted[i - ll],
                d,
            ));
        }
    }
    assert forall|i: int|
        1 <= i < v1.len() implies (#[trigger] v1[i].parent) is Some && 0 <= parent_idx(v1, i)
        < i by {
        if i >= ll {
            assert(v1[i].parent == Some(d));
        }
    }
    assert forall|n: int, j: int|
        0 <= n < v1.len() && 0 <= j < v1[n].kids.len() implies n < #[trigger] v1[n].kids[j]
        < v1.len() by {
        if n == d {
            assert(v1[n].kids[j] == (v0.len() + j) as usize);
            assert(v1[n].kids[j] == ll + j);
        } else if n < ll {
            assert(v1[n].kids == v0[n].kids);
        }
    }
    assert(parents_ok(v1));
    // Linkage: every new child points back at `d`; old lists unchanged.
    assert forall|n: int, j: int|
        0 <= n < v1.len() && 0 <= j < v1[n].kids.len() implies parent_idx(
        v1,
        #[trigger] v1[n].kids[j] as int,
    ) == n by {
        if n == d {
            assert(v1[n].kids[j] == (v0.len() + j) as usize);
            assert(v1[n].kids[j] == ll + j);
            assert(v1[ll + j].parent == Some(d));
        } else if n < ll {
            assert(v1[n].kids == v0[n].kids);
            assert(parent_idx(v0, v0[n].kids[j] as int) == n);
        }
    }
    assert forall|n: int, j1: int, j2: int|
        0 <= n < v1.len() && 0 <= j1 < j2 < v1[n].kids.len() implies #[trigger] v1[n].kids[j1]
        != #[trigger] v1[n].kids[j2] by {
        if n == d {
            assert(v1[n].kids[j1] == (v0.len() + j1) as usize);
            assert(v1[n].kids[j2] == (v0.len() + j2) as usize);
        } else if n < ll {
            assert(v1[n].kids == v0[n].kids);
        }
    }
    assert forall|n: int, j1: int, j2: int|
        0 <= n < v1.len() && 0 <= j1 < j2 < v1[n].kids.len() implies lex_le(
        v1[#[trigger] v1[n].kids[j1] as int].path,
        v1[#[trigger] v1[n].kids[j2] as int].path,
    ) by {
        if n == d {
            assert(v1[n].kids[j1] == (v0.len() + j1) as usize);
            assert(v1[n].kids[j2] == (v0.len() + j2) as usize);
            assert(v1[n].kids[j1] == ll + j1);
            assert(v1[n].kids[j2] == ll + j2);
            assert(v1[ll + j1].path == gsorted[j1].path);
            assert(v1[ll + j2].path == gsorted[j2].path);
            assert(lex_le(gsorted[j1].path, gsorted[j2].path));
        } else if n < ll {
            assert(v1[n].kids == v0[n].kids);
            let c1 = v0[n].kids[j1] as int;
            let c2 = v0[n].kids[j2] as int;
            assert(lex_le(v0[c1].path, v0[c2].path));
            assert(c1 < ll && c2 < ll);
            assert(v1[c1].path == v0[c1].path);
            assert(v1[c2].path == v0[c2].path);
        }
    }
    assert forall|n: int, j1: int, j2: int|
        0 <= n < v1.len() && 0 <= j1 < j2 < v1[n].kids.len() implies v1[#[trigger] v1[n].kids[j1] as int].path
        != v1[#[trigger] v1[n].kids[j2] as int].path by {
        if n == d {
            assert(v1[n].kids[j1] == (v0.len() + j1) as usize);
            assert(v1[n].kids[j2] == (v0.len() + j2) as usize);
            assert(v1[n].kids[j1] == ll + j1);
            assert(v1[n].kids[j2] == ll + j2);
            assert(v1[ll + j1].path == gsorted[j1].path);
            assert(v1[ll + j2].path == gsorted[j2].path);
            assert(gsorted[j1].path != gsorted[j2].path);
        } else if n < ll {
            assert(v1[n].kids == v0[n].kids);
            let c1 = v0[n].kids[j1] as int;
            let c2 = v0[n].kids[j2] as int;
            assert(v0[c1].path != v0[c2].path);
            assert(c1 < ll && c2 < ll);
            assert(v1[c1].path == v0[c1].path);
            assert(v1[c2].path == v0[c2].path);
        }
    }
    assert(links_ok(v1));
    // Depth: old nodes keep their depth, new nodes sit one level below d.
    assert forall|i: int| 0 <= i < v1.len() implies #[trigger] depth_of(v1, i) <= deep by {
        if i < ll {
            lemma_depth_stable(v0, v1, i);
        } else {
            assert(parent_idx(v1, i) == d);
            lemma_depth_stable(v0, v1, d as int);
            assert(depth_of(v1, i) == 1 + depth_of(v1, d as int));
            assert(depth_of(v0, d as int) < deep);
        }
    }
    // Hidden names: a kept entry passed the filter.
    if !all {
        assert forall|i: int| 1 <= i < v1.len() implies !hidden_name(#[trigger] v1[i].name) by {
            if i < ll {
                assert(v1[i].name == v0[i].name);
            } else {
                let x = i - ll;
                assert(v1[i] == gnode_of(gsorted[x], d));
                assert(spec_dedup(spec_sort(input))[x] == gsorted[x]);
                assert(spec_dedup(spec_sort(input)).contains(gsorted[x]));
                assert(spec_sort(input).contains(gsorted[x]));
                assert(input.contains(gsorted[x]));
                let jj = choose|jj: int| 0 <= jj < input.len() && input[jj] == gsorted[x];
                let fl = gmetas.filter(|m: GMeta| keep_entry(m, all));
                assert(input[jj] == gchild_of(v0[d as int].path, fl[jj]));
                assert(fl.map_values(
                    |m: GMeta| gchild_of(v0[d as int].path, m),
                ).len() == fl.len());
                gmetas.lemma_filter_pred(|m: GMeta| keep_entry(m, all), jj);
                assert(keep_entry(fl[jj], all));
                assert(gsorted[x].meta == fl[jj]);
            }
        }
    }
}


/// Drops the later entries of every run of equal paths in a sorted list.
fn dedup_children(v: Vec<Child>) -> (r: Vec<Child>)
    ensures
        r@.map_values(|ch: Child| ch@) == spec_dedup(v@.map_values(|ch: Child| ch@)),
{
    let ghost gv = v@.map_values(|ch: Child| ch@);
    let mut src = v;
    let mut out: Vec<Child> = Vec::new();
    let ghost k: int = 0;
    proof {
        assert(gv.take(0) =~= Seq::<GChild>::empty());
        assert(out@.map_values(|ch: Child| ch@) =~= spec_dedup(gv.take(0)));
    }
    loop
        invariant_except_break
            0 <= k <= gv.len(),
            src@.map_values(|ch: Child| ch@) =~= gv.skip(k),
            out@.map_values(|ch: Child| ch@) == spec_dedup(gv.take(k)),
        ensures
            out@.map_values(|ch: Child| ch@) == spec_dedup(gv),
        decreases gv.len() - k,
    {
        if src.len() == 0 {
            proof {
                assert(src@.map_values(|ch: Child| ch@).len() == src@.len());
                assert(gv.skip(k).len() == 0);
                assert(gv.take(k) =~= gv);
            }
            break ;
        }
        proof {
            assert(src@.map_values(|ch: Child| ch@).len() == src@.len());
            assert(gv.skip(k).len() == gv.len() - k);
            assert(k < gv.len());
            assert(src@.map_values(|ch: Child| ch@)[0] == src@[0]@);
            assert(gv.skip(k)[0] == gv[k]);
        }
        let ghost presrc = src@;
        let c = src.remove(0);
        proof {
            assert(c == presrc[0]);
            assert(c@ == gv[k]);
            assert forall|ii: int| 0 <= ii < src@.len() implies src@.map_values(|x: Child| x@)[ii]
                == #[trigger] gv.skip(k + 1)[ii] by {
                assert(src@[ii] == presrc[ii + 1]);
                assert(presrc.map_values(|x: Child| x@)[ii + 1] == presrc[ii + 1]@);
                assert(gv.skip(k)[ii + 1] == gv[k + 1 + ii]);
                assert(gv.skip(k + 1)[ii] == gv[k + 1 + ii]);
            }
            assert(src@.map_values(|x: Child| x@) =~= gv.skip(k + 1));
            assert(gv.take(k + 1).drop_last() =~= gv.take(k));
            assert(gv.take(k + 1).last() == gv[k]);
        }
        let repeat = out.len() > 0 && out[out.len() - 1].path == c.path;
        proof {
            let d = spec_dedup(gv.take(k));
            assert(out@.map_values(|ch: Child| ch@).len() == out@.len());
            if out@.len() > 0 {
                assert(out@.map_values(|ch: Child| ch@)[out@.len() - 1] == out@[out@.len() - 1]@);
                assert(d.last() == out@[out@.len() - 1]@);
            }
            assert(repeat == (d.len() > 0 && d.last().path == gv[k].path));
        }
        if !repeat {
            let ghost preout = out@;
            out.push(c);
            proof {
                assert(out@ =~= preout.push(c));
                assert forall|ii: int| 0 <= ii < out@.len() implies out@.map_values(
                    |ch: Child| ch@,
                )[ii] == #[trigger] spec_dedup(gv.take(k + 1))[ii] by {
                    assert(out@.map_values(|ch: Child| ch@)[ii] == out@[ii]@);
                    if ii < out@.len() - 1 {
                        assert(out@[ii] == preout[ii]);
                        assert(preout.map_values(|ch: Child| ch@)[ii] == preout[ii]@);
                    }
                }
                assert(out@.map_values(|ch: Child| ch@) =~= spec_dedup(gv.take(k + 1)));
            }
        }
        proof {
            k = k + 1;
        }
    }
    out
}

/// Expands directory `d` from one directory listing.
///
/// Hidden entries are dropped unless the tree was scanned with `all`;
/// every kept entry gets its full path, the children are attached in
/// ascending path order, and later entries of a repeated path are
/// dropped. A node that is not a directory, already has children, or
/// sits at the depth bound is left untouched — so a populated directory
/// is never repopulated and no node below the depth bound can arise.
/// (A directory whose first expansion yielded no children is
/// indistinguishable from an unexpanded one; the cursor never returns
/// to a directory within one scan, so it is not expanded again.)
pub fn expand_dir(tree: &mut Tree, d: usize, listing: Vec<RawMeta>)
    requires
        old(tree).wf(),
        d < old(tree)@.len(),
    ensures
        final(tree).wf(),
        final(tree)@ == spec_expand(
            old(tree)@,
            d as int,
            listing@.map_values(|m: RawMeta| m@),
            old(tree).deep as nat,
            old(tree).all,
        ),
        final(tree).deep == old(tree).deep,
        final(tree).all == old(tree).all,
        old(tree)@.len() <= final(tree)@.len(),
        forall|k: int|
            0 <= k < old(tree)@.len() && k != d ==> final(tree)@[k] == #[trigger] old(tree)@[k],
        final(tree)@[d as int].path == old(tree)@[d as int].path,
        final(tree)@[d as int].name == old(tree)@[d as int].name,
        final(tree)@[d as int].kind == old(tree)@[d as int].kind,
        final(tree)@[d as int].mode == old(tree)@[d as int].mode,
        final(tree)@[d as int].parent == old(tree)@[d as int].parent,
{
    let ghost v0 = tree@;
    let ghost gmetas = listing@.map_values(|m: RawMeta| m@);
    let ghost deepn = tree.deep as nat;
    proof {
        assert(v0[d as int] == tree.nodes@[d as int]@);
    }
    let is_directory = matches!(tree.nodes[d].file_type, FileType::Directory);
    let no_kids = tree.nodes[d].child.len() == 0;
    let dep = tree.depth_of_node(d);
    proof {
        assert(is_directory == is_dir_at(v0, d as int));
        assert(no_kids == (v0[d as int].kids.len() == 0));
    }
    if !is_directory || !no_kids || dep >= tree.deep {
        proof {
            assert(!spec_expandable(v0, d as int, deepn));
        }
        return ;
    }
    proof {
        assert(spec_expandable(v0, d as int, deepn));
    }
    let dirpath = tree.nodes[d].path.clone();
    proof {
        assert(dirpath@ == v0[d as int].path);
    }
    let all = tree.all;
    let mut rem = listing;
    let mut kept: Vec<Child> = Vec::new();
    let ghost i: int = 0;
    proof {
        assert(gmetas.take(0) =~= Seq::<GMeta>::empty());
        reveal(Seq::filter);
        assert(gmetas.take(0).filter(|m: GMeta| keep_entry(m, all)) =~= Seq::<GMeta>::empty());
        assert(kept@.map_values(|ch: Child| ch@) =~= gmetas.take(0).filter(
            |m: GMeta| keep_entry(m, all),
        ).map_values(|m: GMeta| gchild_of(v0[d as int].path, m)));
    }
    loop
        invariant_except_break
            0 <= i <= gmetas.len(),
            rem@.map_values(|m: RawMeta| m@) =~= gmetas.skip(i),
            kept@.map_values(|ch: Child| ch@) == gmetas.take(i).filter(
                |m: GMeta| keep_entry(m, all),
            ).map_values(|m: GMeta| gchild_of(v0[d as int].path, m)),
            dirpath@ == v0[d as int].path,
            d < v0.len(),
        ensures
            kept@.map_values(|ch: Child| ch@) == gmetas.filter(
                |m: GMeta| keep_entry(m, all),
            ).map_values(|m: GMeta| gchild_of(v0[d as int].path, m)),
        decreases gmetas.len() - i,
    {
        if rem.len() == 0 {
            proof {
                assert(rem@.map_values(|m: RawMeta| m@).len() == rem@.len());
                assert(gmetas.skip(i).len() == 0);
                assert(gmetas.take(i) =~= gmetas);
            }
            break ;
        }
        proof {
            assert(rem@.map_values(|m: RawMeta| m@).len() == rem@.len());
            assert(gmetas.skip(i).len() == gmetas.len() - i);
            assert(i < gmetas.len());
            assert(rem@.map_values(|m: RawMeta| m@)[0] == rem@[0]@);
            assert(gmetas.skip(i)[0] == gmetas[i]);
        }
        let ghost prerem = rem@;
        let m = rem.remove(0);
        proof {
            assert(m@ == gmetas[i]);
            assert forall|ii: int| 0 <= ii < rem@.len() implies rem@.map_values(|x: RawMeta| x@)[ii]
                == #[trigger] gmetas.skip(i + 1)[ii] by {
                assert(rem@[ii] == prerem[ii + 1]);
                assert(prerem.map_values(|x: RawMeta| x@)[ii + 1] == prerem[ii + 1]@);
                assert(gmetas.skip(i)[ii + 1] == gmetas[i + 1 + ii]);
                assert(gmetas.skip(i + 1)[ii] == gmetas[i + 1 + ii]);
            }
            assert(rem@.map_values(|x: RawMeta| x@) =~= gmetas.skip(i + 1));
        }
        let keep = if all {
            true
        } else {
            !is_hidden_name(m.name.as_str())
        };
        proof {
            assert(keep == keep_entry(m@, all));
            lemma_filter_push(gmetas.take(i), gmetas[i], |x: GMeta| keep_entry(x, all));
            assert(gmetas.take(i + 1) =~= gmetas.take(i).push(gmetas[i]));
        }
        if keep {
            let mut p = dirpath.clone();
            p.append("/");
            p.append(m.name.as_str());
            proof {
                assert(p@ == v0[d as int].path + "/"@ + m@.name);
            }
            let ghost prekept = kept@;
            kept.push(Child { path: p, meta: m });
            proof {
                let f = |x: GMeta| gchild_of(v0[d as int].path, x);
                let pr = |x: GMeta| keep_entry(x, all);
                let fl = gmetas.take(i).filter(pr);
                assert(gmetas.take(i + 1).filter(pr) == fl.push(gmetas[i]));
                assert(fl.map_values(f).len() == fl.len());
                assert(prekept.map_values(|ch: Child| ch@).len() == prekept.len());
                assert(prekept.len() == fl.len());
                assert(kept@.len() == prekept.len() + 1);
                assert(fl.push(gmetas[i]).len() == fl.len() + 1);
                assert(fl.push(gmetas[i]).map_values(f).len() == fl.len() + 1);
                assert forall|ii: int| 0 <= ii < kept@.len() implies kept@.map_values(
                    |ch: Child| ch@,
                )[ii] == #[trigger] fl.push(gmetas[i]).map_values(f)[ii] by {
                    assert(kept@.map_values(|ch: Child| ch@)[ii] == kept@[ii]@);
                    assert(fl.push(gmetas[i]).map_values(f)[ii] == f(fl.push(gmetas[i])[ii]));
                    if ii < kept@.len() - 1 {
                        assert(kept@[ii] == prekept[ii]);
                        assert(prekept.map_values(|ch: Child| ch@)[ii] == prekept[ii]@);
                        assert(fl.map_values(f)[ii] == f(fl[ii]));
                        assert(fl.push(gmetas[i])[ii] == fl[ii]);
                    } else {
                        assert(fl.push(gmetas[i])[ii] == gmetas[i]);
                    }
                }
                assert(kept@.map_values(|ch: Child| ch@) =~= gmetas.take(i + 1).filter(
                    pr,
                ).map_values(f));
            }
        } else {
            proof {
                let pr = |x: GMeta| keep_entry(x, all);
                assert(gmetas.take(i + 1).filter(pr) == gmetas.take(i).filter(pr));
            }
        }
        proof {
            i = i + 1;
        }
    }
    let sorted_vec = sort_children(kept);
    let deduped = dedup_children(sorted_vec);
    let ghost gsorted = spec_children(v0, d as int, gmetas, all);
    proof {
        assert(deduped@.map_values(|ch: Child| ch@) == gsorted);
        lemma_sort_props(
            gmetas.filter(|m: GMeta| keep_entry(m, all)).map_values(
                |m: GMeta| gchild_of(v0[d as int].path, m),
            ),
        );
    }
    let startlen = tree.nodes.len();
    let mut rem2 = deduped;
    let mut kid_idx: Vec<usize> = Vec::new();
    let ghost t: int = 0;
    proof {
        assert(gsorted.take(0).map_values(|c: GChild| gnode_of(c, d)) =~= Seq::<GNode>::empty());
        assert(tree@ =~= v0 + gsorted.take(0).map_values(|c: GChild| gnode_of(c, d)));
    }
    loop
        invariant_except_break
            0 <= t <= gsorted.len(),
            rem2@.map_values(|ch: Child| ch@) =~= gsorted.skip(t),
            tree@ =~= v0 + gsorted.take(t).map_values(|c: GChild| gnode_of(c, d)),
            kid_idx@.len() == t,
            forall|x: int| 0 <= x < t ==> kid_idx@[x] == startlen + x,
            startlen == v0.len(),
            d < startlen,
            tree.deep == old(tree).deep,
            tree.all == old(tree).all,
        ensures
            t == gsorted.len(),
            tree@ =~= v0 + gsorted.map_values(|c: GChild| gnode_of(c, d)),
            kid_idx@.len() == t,
            forall|x: int| 0 <= x < t ==> kid_idx@[x] == startlen + x,
            startlen == v0.len(),
            tree.deep == old(tree).deep,
            tree.all == old(tree).all,
        decreases gsorted.len() - t,
    {
        if rem2.len() == 0 {
            proof {
                assert(rem2@.map_values(|ch: Child| ch@).len() == rem2@.len());
                assert(gsorted.skip(t).len() == 0);
                assert(gsorted.take(t) =~= gsorted);
            }
            break ;
        }
        proof {
            assert(rem2@.map_values(|ch: Child| ch@).len() == rem2@.len());
            assert(gsorted.skip(t).len() == gsorted.len() - t);
            assert(t < gsorted.len());
            assert(rem2@.map_values(|ch: Child| ch@)[0] == rem2@[0]@);
            assert(gsorted.skip(t)[0] == gsorted[t]);
        }
        let ghost prerem = rem2@;
        let ch = rem2.remove(0);
        proof {
            assert(ch@ == gsorted[t]);
            assert forall|ii: int| 0 <= ii < rem2@.len() implies rem2@.map_values(
                |x: Child| x@,
            )[ii] == #[trigger] gsorted.skip(t + 1)[ii] by {
                assert(rem2@[ii] == prerem[ii + 1]);
                assert(prerem.map_values(|x: Child| x@)[ii + 1] == prerem[ii + 1]@);
                assert(gsorted.skip(t)[ii + 1] == gsorted[t + 1 + ii]);
                assert(gsorted.skip(t + 1)[ii] == gsorted[t + 1 + ii]);
            }
            assert(rem2@.map_values(|x: Child| x@) =~= gsorted.skip(t + 1));
        }
        let idx = tree.nodes.len();
        let ghost pretree = tree@;
        let Child { path: chpath, meta: chmeta } = ch;
        let mut node = Files::new(chpath, &chmeta);
        node.parent = Some(d);
        tree.nodes.push(node);
        kid_idx.push(idx);
        proof {
            assert(node@ == gnode_of(gsorted[t], d));
            assert(gsorted.take(t).map_values(|c: GChild| gnode_of(c, d)).len() == t);
            assert(gsorted.take(t + 1).map_values(|c: GChild| gnode_of(c, d)).len() == t + 1);
            assert(pretree.len() == v0.len() + t);
            assert(tree@.len() == pretree.len() + 1);
            assert forall|ii: int| 0 <= ii < tree@.len() implies #[trigger] tree@[ii] == (v0
                + gsorted.take(t + 1).map_values(|c: GChild| gnode_of(c, d)))[ii] by {
                assert(tree@[ii] == tree.nodes@[ii]@);
                if ii < pretree.len() {
                    assert(pretree[ii] == (v0 + gsorted.take(t).map_values(
                        |c: GChild| gnode_of(c, d),
                    ))[ii]);
                    if ii >= v0.len() {
                        assert(gsorted.take(t).map_values(|c: GChild| gnode_of(c, d))[ii
                            - v0.len()] == gnode_of(gsorted.take(t)[ii - v0.len()], d));
                        assert(gsorted.take(t + 1).map_values(|c: GChild| gnode_of(c, d))[ii
                            - v0.len()] == gnode_of(gsorted.take(t + 1)[ii - v0.len()], d));
                    }
                } else {
                    assert(tree@[ii] == node@);
                    assert(gsorted.take(t + 1).map_values(|c: GChild| gnode_of(c, d))[ii
                        - v0.len()] == gnode_of(gsorted.take(t + 1)[ii - v0.len()], d));
                }
            }
            assert(tree@ =~= v0 + gsorted.take(t + 1).map_values(|c: GChild| gnode_of(c, d)));
            t = t + 1;
        }
    }
    let ghost premid = tree@;
    proof {
        assert(premid.len() == v0.len() + gsorted.len());
        assert(premid[d as int] == v0[d as int]);
        assert(tree.nodes@[d as int]@ == premid[d as int]);
    }
    let mut dnode = tree.nodes.remove(d);
    proof {
        assert(dnode@ == premid[d as int]);
    }
    dnode.child = kid_idx;
    tree.nodes.insert(d, dnode);
    proof {
        let newd = GNode {
            kids: Seq::new(gsorted.len(), |x: int| (v0.len() + x) as usize),
            ..v0[d as int]
        };
        assert(dnode@.kids =~= newd.kids);
        assert(dnode@ == newd);
        assert forall|ii: int| 0 <= ii < tree@.len() implies #[trigger] tree@[ii] == premid.update(
            d as int,
            newd,
        )[ii] by {
            assert(tree@[ii] == tree.nodes@[ii]@);
            if ii < d {
            } else if ii == d {
            } else {
            }
        }
        assert(tree@ =~= premid.update(d as int, newd));
        assert(tree@ =~= v0.update(d as int, newd) + gsorted.map_values(
            |c: GChild| gnode_of(c, d),
        ));
        assert(tree@ == spec_expand(v0, d as int, gmetas, deepn, all));
    }
    let total = tree.nodes.len();
    proof {
        assert(total == tree.nodes@.len());
        assert(tree@.len() == tree.nodes@.len());
        assert(gsorted.map_values(|c: GChild| gnode_of(c, d)).len() == gsorted.len());
        assert(tree@.len() == v0.len() + gsorted.len());
        assert(v0.len() + gsorted.len() <= usize::MAX);
        lemma_expand_wf(v0, tree@, d, gsorted, tree.deep as nat, all, gmetas);
    }
}


/// The ghost image of one pre-read listing.
pub struct GListing {
    pub path: Seq<char>,
    pub entries: Seq<GMeta>,
}

impl View for Listing {
    type V = GListing;

    open spec fn view(&self) -> GListing {
        GListing { path: self.path@, entries: self.entries@.map_values(|m: RawMeta| m@) }
    }
}

/// The index of the first listing at or after `from` recorded for path
/// `p`, or `-1` when there is none.
pub open spec fn find_listing(ls: Seq<GListing>, p: Seq<char>, from: int) -> int
    decreases ls.len() - from,
{
    if from < 0 || from >= ls.len() {
        -1
    } else if ls[from].path == p {
        from
    } else {
        find_listing(ls, p, from + 1)
    }
}

pub proof fn lemma_find_props(ls: Seq<GListing>, p: Seq<char>, from: int)
    requires
        0 <= from <= ls.len(),
    ensures
        ({
            let r = find_listing(ls, p, from);
            &&& r == -1 || (from <= r < ls.len() && ls[r].path == p)
            &&& forall|k: int|
                from <= k < (if r == -1 {
                    ls.len() as int
                } else {
                    r
                }) ==> (#[trigger] ls[k].path) != p
        }),
    decreases ls.len() - from,
{
    if from < ls.len() && ls[from].path != p {
        lemma_find_props(ls, p, from + 1);
    }
}

/// The fuel that bounds one scan: two steps more than the number of
/// recorded entries (capped at the machine word), which a walk can never
/// exhaust — every productive cursor step expands a directory whose
/// children were all drawn from the listings.
pub open spec fn scan_fuel(ls: Seq<GListing>) -> nat
    decreases ls.len(),
{
    if ls.len() == 0 {
        2
    } else {
        let rest = scan_fuel(ls.drop_last());
        let add = ls.last().entries.len();
        if rest + add > usize::MAX {
            usize::MAX as nat
        } else {
            (rest + add) as nat
        }
    }
}

proof fn lemma_scan_fuel_min(ls: Seq<GListing>)
    ensures
        2 <= scan_fuel(ls) <= usize::MAX,
    decreases ls.len(),
{
    if ls.len() > 0 {
        lemma_scan_fuel_min(ls.drop_last());
    }
}

/// Computes the scan fuel of a listing set.
fn compute_fuel(listings: &Vec<Listing>) -> (f: usize)
    ensures
        f as nat == scan_fuel(listings@.map_values(|l: Listing| l@)),
{
    let ghost gls = listings@.map_values(|l: Listing| l@);
    let mut f: usize = 2;
    let mut i: usize = 0;
    proof {
        assert(gls.take(0) =~= Seq::<GListing>::empty());
    }
    while i < listings.len()
        invariant
            i <= listings@.len(),
            gls == listings@.map_values(|l: Listing| l@),
            gls.len() == listings@.len(),
            f as nat == scan_fuel(gls.take(i as int)),
        decreases listings@.len() - i,
    {
        proof {
            assert(gls[i as int] == listings@[i as int]@);
            assert(gls.take(i + 1).drop_last() =~= gls.take(i as int));
            assert(gls.take(i + 1).last() == gls[i as int]);
            assert(listings@[i as int].entries@.map_values(|m: RawMeta| m@).len() == listings@[
                i as int
            ].entries@.len());
        }
        let add = listings[i].entries.len();
        if f > usize::MAX - add {
            f = usize::MAX;
        } else {
            f = f + add;
        }
        i = i + 1;
    }
    proof {
        assert(gls.take(listings@.len() as int) =~= gls);
    }
    f
}

/// What a whole scan computes, step by step: while fuel remains, advance
/// the cursor; expand the directory it yields from the first listing
/// recorded for its path (consuming that listing; no listing means no
/// children); stop when the cursor is done. The scanner's result is this
/// function of the root entry, the listings and the arguments alone.
pub open spec fn spec_scan(
    v: Seq<GNode>,
    stack: Seq<usize>,
    ls: Seq<GListing>,
    deep: nat,
    all: bool,
    fuel: nat,
) -> Seq<GNode>
    decreases fuel,
{
    if fuel == 0 {
        v
    } else {
        let nstack = spec_traverse(v, stack, deep);
        if nstack.len() == 0 {
            v
        } else {
            let d = path_node(v, nstack);
            let i = find_listing(ls, v[d].path, 0);
            let entries = if i >= 0 {
                ls[i].entries
            } else {
                Seq::<GMeta>::empty()
            };
            let ls2 = if i >= 0 {
                ls.remove(i)
            } else {
                ls
            };
            spec_scan(spec_expand(v, d, entries, deep, all), nstack, ls2, deep, all, (fuel - 1) as nat)
        }
    }
}

/// One pre-read directory listing: the directory's path and what reading
/// it reported for each entry.
pub struct Listing {
    /// The path of the directory the entries belong to.
    pub path: String,
    /// One metadata report per entry.
    pub entries: Vec<RawMeta>,
}

/// Removes and returns the entries of the first listing recorded for
/// `path`; a directory without a listing yields no entries, so it keeps
/// an empty child list (it renders as a leaf).
fn take_listing(listings: &mut Vec<Listing>, path: &String) -> (r: Vec<RawMeta>)
    ensures
        ({
            let gls = old(listings)@.map_values(|l: Listing| l@);
            let i = find_listing(gls, path@, 0);
            &&& i == -1 ==> ({
                &&& final(listings)@ == old(listings)@
                &&& r@ =~= Seq::<RawMeta>::empty()
            })
            &&& i >= 0 ==> ({
                &&& r@.map_values(|m: RawMeta| m@) == gls[i].entries
                &&& final(listings)@.map_values(|l: Listing| l@) == gls.remove(i)
            })
        }),
{
    let ghost orig = listings@;
    let ghost gls = orig.map_values(|l: Listing| l@);
    let mut i: usize = 0;
    loop
        invariant_except_break
            listings@ == orig,
            gls == orig.map_values(|l: Listing| l@),
            gls.len() == orig.len(),
            i <= orig.len(),
            find_listing(gls, path@, 0) == find_listing(gls, path@, i as int),
        ensures
            listings@ == orig,
            i <= orig.len(),
            (i as int) < orig.len() ==> find_listing(gls, path@, 0) == i && gls[i as int].path
                == path@,
            (i as int) == orig.len() ==> find_listing(gls, path@, 0) == -1,
        decreases orig.len() - i,
    {
        if i == listings.len() {
            break ;
        }
        proof {
            assert(gls[i as int] == orig[i as int]@);
        }
        if listings[i].path == *path {
            proof {
                assert(find_listing(gls, path@, i as int) == i);
            }
            break ;
        }
        proof {
            assert(find_listing(gls, path@, i as int) == find_listing(gls, path@, i + 1));
        }
        i = i + 1;
    }
    if i == listings.len() {
        Vec::new()
    } else {
        let found = listings.remove(i);
        proof {
            assert(found@ == gls[i as int]);
            assert forall|ii: int| 0 <= ii < listings@.len() implies listings@.map_values(
                |l: Listing| l@,
            )[ii] == #[trigger] gls.remove(i as int)[ii] by {
                assert(listings@.map_values(|l: Listing| l@)[ii] == listings@[ii]@);
                if ii < i {
                    assert(listings@[ii] == orig[ii]);
                    assert(orig.map_values(|l: Listing| l@)[ii] == orig[ii]@);
                } else {
                    assert(listings@[ii] == orig[ii + 1]);
                    assert(orig.map_values(|l: Listing| l@)[ii + 1] == orig[ii + 1]@);
                }
            }
            assert(listings@.map_values(|l: Listing| l@) =~= gls.remove(i as int));
            assert(found.entries@.map_values(|m: RawMeta| m@) == gls[i as int].entries);
        }
        found.entries
    }
}

/// The root node a scan starts from, built from the starting path's
/// metadata: its path and name are the path as given.
pub open spec fn root_node_of(m: GMeta) -> GNode {
    GNode {
        path: m.name,
        name: m.name,
        kind: spec_classify(m),
        mode: spec_mode_str(m.mode),
        parent: None,
        kids: Seq::<usize>::empty(),
    }
}

/// The first level of a scanned tree is pinned by the root's listing:
/// the root's children are exactly the kept entries, sorted by path, at
/// indices `1..`, each carrying its classified kind, its permission
/// string and a parent pointer back to the root.
pub open spec fn level_one_pinned(
    t: Seq<GNode>,
    root: GMeta,
    entries: Seq<GMeta>,
    all: bool,
) -> bool {
    let v0 = seq![root_node_of(root)];
    let kids0 = spec_children(v0, 0, entries, all);
    &&& t.len() >= 1 + kids0.len()
    &&& t[0].kids =~= Seq::new(kids0.len(), |x: int| (1 + x) as usize)
    &&& forall|x: int|
        0 <= x < kids0.len() ==> {
            &&& (#[trigger] t[1 + x]).path == kids0[x].path
            &&& t[1 + x].name == kids0[x].meta.name
            &&& t[1 + x].kind == spec_classify(kids0[x].meta)
            &&& t[1 + x].mode == spec_mode_str(kids0[x].meta.mode)
            &&& t[1 + x].parent == Some(0usize)
        }
}


/// The first expansion pins the first level, and later steps keep it:
/// they neither touch the root's child list nor the identifying fields
/// of the nodes it points at.
proof fn lemma_level_one(
    v0: Seq<GNode>,
    after1: Seq<GNode>,
    t: Seq<GNode>,
    root: GMeta,
    entries: Seq<GMeta>,
    deep: nat,
    all: bool,
)
    requires
        v0 == seq![root_node_of(root)],
        after1 == spec_expand(v0, 0, entries, deep, all),
        deep >= 1,
        spec_classify(root) is Directory,
        t.len() >= after1.len(),
        t[0].kids == after1[0].kids,
        forall|x: int|
            0 <= x < after1.len() ==> {
                &&& (#[trigger] t[x]).path == after1[x].path
                &&& t[x].name == after1[x].name
                &&& t[x].kind == after1[x].kind
                &&& t[x].mode == after1[x].mode
                &&& t[x].parent == after1[x].parent
            },
    ensures
        level_one_pinned(t, root, entries, all),
{
    assert(depth_of(v0, 0) == 0);
    assert(v0[0].kind == spec_classify(root));
    assert(spec_expandable(v0, 0, deep));
    let kids0 = spec_children(v0, 0, entries, all);
    let mapped = kids0.map_values(|c: GChild| gnode_of(c, 0));
    assert(mapped.len() == kids0.len());
    assert(after1.len() == 1 + kids0.len());
    assert(after1[0].kids =~= Seq::new(kids0.len(), |x: int| (1 + x) as usize));
    assert forall|x: int| 0 <= x < kids0.len() implies {
        &&& (#[trigger] t[1 + x]).path == kids0[x].path
        &&& t[1 + x].name == kids0[x].meta.name
        &&& t[1 + x].kind == spec_classify(kids0[x].meta)
        &&& t[1 + x].mode == spec_mode_str(kids0[x].meta.mode)
        &&& t[1 + x].parent == Some(0usize)
    } by {
        assert(after1[1 + x] == mapped[x]);
        assert(mapped[x] == gnode_of(kids0[x], 0));
    }
}

/// Scans a tree out of pre-read listings: starting from the root's
/// metadata, the cursor repeatedly picks the next directory to expand and
/// the first listing recorded for its path populates it. Directories
/// whose path has no listing stay leaves; the walk never opens more than
/// `deep` levels and filters hidden entries unless `all` is set.
///
/// The result is pinned completely: it equals `spec_scan`, the
/// step-by-step fold of the cursor and expansion over the listings, so
/// the tree is a function of the root's metadata, the listings and the
/// three arguments alone. The further clauses read the first level off
/// that fold directly.
pub fn scan_files(root_meta: RawMeta, deep: usize, all: bool, listings: Vec<Listing>) -> (t: Tree)
    ensures
        t.wf(),
        t.deep == deep,
        t.all == all,
        t@.len() >= 1,
        t@[0].path == root_meta@.name,
        t@[0].name == root_meta@.name,
        t@[0].kind == spec_classify(root_meta@),
        t@[0].mode == spec_mode_str(root_meta@.mode),
        t@ == spec_scan(
            seq![root_node_of(root_meta@)],
            Seq::<usize>::empty(),
            listings@.map_values(|l: Listing| l@),
            deep as nat,
            all,
            scan_fuel(listings@.map_values(|l: Listing| l@)),
        ),
        deep == 0 ==> t@ =~= seq![root_node_of(root_meta@)],
        !(spec_classify(root_meta@) is Directory) ==> t@ =~= seq![root_node_of(root_meta@)],
        deep >= 1 && spec_classify(root_meta@) is Directory && (forall|k: int|
            0 <= k < listings@.len() ==> (#[trigger] listings@[k].path)@ != root_meta@.name)
            ==> t@ =~= seq![root_node_of(root_meta@)],
        forall|i: int|
            {
                &&& 0 <= i < listings@.len()
                &&& (#[trigger] listings@[i].path)@ == root_meta@.name
                &&& (forall|k: int| 0 <= k < i ==> (#[trigger] listings@[k].path)@ != root_meta@.name)
                &&& deep >= 1
                &&& spec_classify(root_meta@) is Directory
            } ==> level_one_pinned(
            t@,
            root_meta@,
            listings@[i].entries@.map_values(|m: RawMeta| m@),
            all,
        ),
{
    let mut tree = Tree::new(&root_meta, deep, all);
    let ghost v_init = tree@;
    proof {
        assert(v_init[0].kids =~= Seq::<usize>::empty());
        assert(v_init =~= seq![root_node_of(root_meta@)]);
    }
    let mut stack: Vec<usize> = Vec::new();
    let mut pending = listings;
    let fuel0 = compute_fuel(&pending);
    let ghost gls0 = pending@.map_values(|l: Listing| l@);
    proof {
        lemma_scan_fuel_min(gls0);
    }
    // The first cursor step yields the root itself; expand it from its
    // own listing (or leave it a leaf when none was recorded).
    let first = traverse(&tree, &mut stack, deep, 0);
    proof {
        assert(first == Some(0usize));
        assert(stack@ =~= seq![0usize]);
        assert(path_node(tree@, stack@) == 0);
    }
    let rootpath = tree.nodes[0].path.clone();
    proof {
        assert(rootpath@ == root_meta@.name);
        assert(v_init[0].path == rootpath@);
        lemma_find_props(gls0, rootpath@, 0);
    }
    let ghost orig_listings = pending@;
    let entries = take_listing(&mut pending, &rootpath);
    let ghost pending_after = pending@.map_values(|l: Listing| l@);
    let ghost gentries = entries@.map_values(|m: RawMeta| m@);
    expand_dir(&mut tree, 0, entries);
    let ghost after1 = tree@;
    proof {
        assert(after1 == spec_expand(v_init, 0, gentries, deep as nat, all));
        if deep == 0 || !(spec_classify(root_meta@) is Directory) {
            assert(!spec_expandable(v_init, 0, deep as nat));
            assert(after1 == v_init);
        } else {
            assert(depth_of(v_init, 0) == 0);
            assert(spec_expandable(v_init, 0, deep as nat));
        }
        lemma_stack_stable(v_init, after1, stack@, 0);
        // One unfolding of the scan: the first step is exactly what the
        // cursor, the listing lookup and the expansion just did.
        assert(spec_traverse(v_init, Seq::<usize>::empty(), deep as nat) =~= seq![0usize]);
        assert(path_node(v_init, seq![0usize]) == 0);
        let fi = find_listing(gls0, v_init[0].path, 0);
        if fi >= 0 {
            assert(gentries == gls0[fi].entries);
            assert(pending_after == gls0.remove(fi));
        } else {
            assert(gentries =~= Seq::<GMeta>::empty());
            assert(pending_after == gls0);
        }
        assert(spec_scan(v_init, Seq::<usize>::empty(), gls0, deep as nat, all, fuel0 as nat)
            == spec_scan(after1, seq![0usize], pending_after, deep as nat, all, (fuel0
            - 1) as nat));
    }
    let mut fuel: usize = fuel0 - 1;
    let mut current: usize = 0;
    loop
        invariant_except_break
            valid_stack(tree@, stack@),
            stack@.len() >= 1,
            current as int == path_node(tree@, stack@),
            current < tree@.len(),
            spec_scan(v_init, Seq::<usize>::empty(), gls0, deep as nat, all, fuel0 as nat)
                == spec_scan(
                tree@,
                stack@,
                pending@.map_values(|l: Listing| l@),
                deep as nat,
                all,
                fuel as nat,
            ),
        invariant
            tree.wf(),
            tree.deep == deep,
            tree.all == all,
            tree@.len() >= after1.len(),
            after1.len() >= 1,
            tree@[0].kids == after1[0].kids,
            forall|x: int|
                0 <= x < after1.len() ==> {
                    &&& (#[trigger] tree@[x]).path == after1[x].path
                    &&& tree@[x].name == after1[x].name
                    &&& tree@[x].kind == after1[x].kind
                    &&& tree@[x].mode == after1[x].mode
                    &&& tree@[x].parent == after1[x].parent
                },
            after1.len() == 1 ==> tree@ == after1,
        ensures
            tree.wf(),
            tree.deep == deep,
            tree.all == all,
            tree@.len() >= after1.len(),
            after1.len() >= 1,
            tree@[0].kids == after1[0].kids,
            forall|x: int|
                0 <= x < after1.len() ==> {
                    &&& (#[trigger] tree@[x]).path == after1[x].path
                    &&& tree@[x].name == after1[x].name
                    &&& tree@[x].kind == after1[x].kind
                    &&& tree@[x].mode == after1[x].mode
                    &&& tree@[x].parent == after1[x].parent
                },
            after1.len() == 1 ==> tree@ == after1,
            tree@ == spec_scan(v_init, Seq::<usize>::empty(), gls0, deep as nat, all, fuel0 as nat),
        decreases fuel,
    {
        let ghost gpend = pending@.map_values(|l: Listing| l@);
        if fuel == 0 {
            proof {
                assert(spec_scan(tree@, stack@, gpend, deep as nat, all, 0nat) == tree@);
            }
            break ;
        }
        let ghost prestack = stack@;
        let ghost v1 = tree@;
        match traverse(&tree, &mut stack, deep, current) {
            None => {
                proof {
                    assert(spec_traverse(v1, prestack, deep as nat).len() == 0);
                    assert(spec_scan(v1, prestack, gpend, deep as nat, all, fuel as nat) == v1);
                }
                break ;
            },
            Some(d) => {
                let ghost gstack = stack@;
                let dpath = tree.nodes[d].path.clone();
                proof {
                    assert(dpath@ == v1[d as int].path);
                    assert(gstack == spec_traverse(v1, prestack, deep as nat));
                    assert(d as int == path_node(v1, gstack));
                    lemma_find_props(gpend, dpath@, 0);
                }
                let entries = take_listing(&mut pending, &dpath);
                let ghost gpend2 = pending@.map_values(|l: Listing| l@);
                let ghost ge = entries@.map_values(|m: RawMeta| m@);
                expand_dir(&mut tree, d, entries);
                proof {
                    lemma_stack_stable(v1, tree@, gstack, d as int);
                    let fi = find_listing(gpend, v1[d as int].path, 0);
                    if fi >= 0 {
                        assert(ge == gpend[fi].entries);
                        assert(gpend2 == gpend.remove(fi));
                    } else {
                        assert(ge =~= Seq::<GMeta>::empty());
                        assert(gpend2 == gpend);
                    }
                    assert(tree@ == spec_expand(v1, d as int, ge, deep as nat, all));
                    assert(spec_scan(v1, prestack, gpend, deep as nat, all, fuel as nat)
                        == spec_scan(tree@, gstack, gpend2, deep as nat, all, (fuel - 1) as nat));
                }
                fuel = fuel - 1;
                current = d;
            },
        }
    }
    proof {
        if deep == 0 || !(spec_classify(root_meta@) is Directory) {
            assert(after1 == v_init);
            assert(tree@ =~= seq![root_node_of(root_meta@)]);
        }
        // The listing taken for the root is the first one recorded for
        // its path, and later expansions touch neither the root's child
        // list nor the fields of the first level.
        assert forall|i: int|
            {
                &&& 0 <= i < orig_listings.len()
                &&& (#[trigger] orig_listings[i].path)@ == root_meta@.name
                &&& (forall|k: int| 0 <= k < i ==> (#[trigger] orig_listings[k].path)@
                    != root_meta@.name)
                &&& deep >= 1
                &&& spec_classify(root_meta@) is Directory
            } implies level_one_pinned(tree@, root_meta@, orig_listings[i].entries@.map_values(
            |m: RawMeta| m@,
        ), all) by {
            let fi = find_listing(gls0, rootpath@, 0);
            assert(gls0[i].path == orig_listings[i].path@);
            assert forall|k: int| 0 <= k < i implies (#[trigger] gls0[k].path) != rootpath@ by {
                assert(gls0[k] == orig_listings[k]@);
            }
            assert(fi == i) by {
                if fi == -1 {
                    assert(gls0[i].path != rootpath@);
                } else if fi < i {
                    assert(gls0[fi].path != rootpath@);
                } else if fi > i {
                    assert(gls0[i].path != rootpath@);
                }
            }
            assert(gentries == gls0[i].entries);
            assert(gls0[i].entries == orig_listings[i].entries@.map_values(|m: RawMeta| m@));
            lemma_level_one(v_init, after1, tree@, root_meta@, gentries, deep as nat, all);
        }
        if deep >= 1 && spec_classify(root_meta@) is Directory && (forall|k: int|
            0 <= k < orig_listings.len() ==> (#[trigger] orig_listings[k].path)@
                != root_meta@.name) {
            let fi = find_listing(gls0, rootpath@, 0);
            assert(fi == -1) by {
                if fi >= 0 {
                    assert(gls0[fi] == orig_listings[fi]@);
                    assert(orig_listings[fi].path@ != root_meta@.name);
                }
            }
            assert(gentries =~= Seq::<GMeta>::empty());
            let fl = gentries.filter(|m: GMeta| keep_entry(m, all));
            gentries.lemma_filter_len(|m: GMeta| keep_entry(m, all));
            assert(fl.len() == 0);
            let mapped = fl.map_values(|m: GMeta| gchild_of(v_init[0].path, m));
            lemma_sort_props(mapped);
            lemma_dedup_props(spec_sort(mapped));
            assert(spec_children(v_init, 0, gentries, all).len() == 0);
            assert(after1[0].kids =~= Seq::<usize>::empty());
            assert(after1 =~= v_init);
            assert(tree@ =~= seq![root_node_of(root_meta@)]);
        }
    }
    tree
}


} // verus!
