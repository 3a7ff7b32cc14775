//! The renderer: an independent, stack-driven depth-first walk over the
//! populated tree. Unlike the scanner's cursor it visits every child, not
//! only directories. Each line carries a glyph prefix showing the open
//! levels, and a connector that tells whether more siblings follow.

use vstd::prelude::*;
use crate::files::{FileType, Files, GKind, GNode, TargetKind};
use crate::style::{paint_bold, paint_dir, paint_invalid, paint_link, paint_plain};
use crate::text::{contains_seq, esc_free, lemma_contains_extend, lemma_contains_shift,
    lemma_occurs_push, occurs_in_order, spec_dec, usize_to_string};
use crate::tree::{Tree, is_dir_at, parents_ok};

verus! {

/// One rendered line below the root.
pub struct Line {
    /// The arena index of the node this line shows.
    pub node: usize,
    /// No further sibling follows at this level (terminal connector).
    pub last: bool,
    /// The accumulated glyph prefix of the open levels above this line.
    pub prefix: String,
}

/// The ghost image of a line.
pub struct GLine {
    pub node: usize,
    pub last: bool,
    pub prefix: Seq<char>,
}

impl View for Line {
    type V = GLine;

    open spec fn view(&self) -> GLine {
        GLine { node: self.node, last: self.last, prefix: self.prefix@ }
    }
}

/// The glyph prefix that a stack of "more siblings follow" flags yields:
/// a continuation bar where a level still has siblings, blanks where it
/// was the last entry.
pub open spec fn prefix_of(flags: Seq<bool>) -> Seq<char>
    decreases flags.len(),
{
    if flags.len() == 0 {
        Seq::<char>::empty()
    } else {
        prefix_of(flags.drop_last()) + (if flags.last() {
            "│ "@
        } else {
            "  "@
        })
    }
}

/// The lines of the walk from child position `j` of node `n` on: each
/// child's own line, then (for an expanded directory) the lines of its
/// subtree one level deeper, then the later siblings.
pub open spec fn spec_render_from(v: Seq<GNode>, n: int, j: int, prefix: Seq<char>) -> Seq<GLine>
    decreases v.len() - n, v[n].kids.len() - j,
    when parents_ok(v) && 0 <= n < v.len() && 0 <= j
{
    if j >= v[n].kids.len() {
        Seq::<GLine>::empty()
    } else {
        let c = v[n].kids[j] as int;
        let isl = j == v[n].kids.len() - 1;
        let head = GLine { node: v[n].kids[j], last: isl, prefix };
        let sub = if is_dir_at(v, c) && v[c].kids.len() > 0 {
            spec_render_from(
                v,
                c,
                0,
                prefix + (if isl {
                    "  "@
                } else {
                    "│ "@
                }),
            )
        } else {
            Seq::<GLine>::empty()
        };
        seq![head] + sub + spec_render_from(v, n, j + 1, prefix)
    }
}

/// All lines below the root; a childless root yields none.
pub open spec fn spec_lines(v: Seq<GNode>) -> Seq<GLine> {
    if v[0].kids.len() == 0 {
        Seq::<GLine>::empty()
    } else {
        spec_render_from(v, 0, 0, Seq::<char>::empty())
    }
}

/// How many of the given lines show a directory.
pub open spec fn count_dirs(v: Seq<GNode>, lines: Seq<GLine>) -> nat
    decreases lines.len(),
{
    if lines.len() == 0 {
        0
    } else {
        count_dirs(v, lines.drop_last()) + (if is_dir_at(v, lines.last().node as int) {
            1nat
        } else {
            0nat
        })
    }
}

/// How many of the given lines show something other than a directory.
pub open spec fn count_files(v: Seq<GNode>, lines: Seq<GLine>) -> nat
    decreases lines.len(),
{
    if lines.len() == 0 {
        0
    } else {
        count_files(v, lines.drop_last()) + (if is_dir_at(v, lines.last().node as int) {
            0nat
        } else {
            1nat
        })
    }
}

/// The lines still owed by the walk: the unvisited children of the top
/// frame, then what the frames below it still owe.
pub open spec fn stack_rest(v: Seq<GNode>, frames: Seq<(usize, usize)>, flags: Seq<bool>) -> Seq<
    GLine,
>
    decreases frames.len(),
{
    if frames.len() == 0 {
        Seq::<GLine>::empty()
    } else {
        let fr = frames.last();
        spec_render_from(v, fr.0 as int, fr.1 as int, prefix_of(flags)) + stack_rest(
            v,
            frames.drop_last(),
            if flags.len() == 0 {
                flags
            } else {
                flags.take(flags.len() - 1)
            },
        )
    }
}

/// Builds the glyph prefix a flag stack stands for.
fn build_prefix(flags: &Vec<bool>) -> (r: String)
    ensures
        r@ == prefix_of(flags@),
{
    let mut r = String::new();
    let mut i: usize = 0;
    proof {
        assert(flags@.take(0) =~= Seq::<bool>::empty());
        assert(r@ =~= prefix_of(flags@.take(0)));
    }
    loop
        invariant
            i <= flags@.len(),
            r@ == prefix_of(flags@.take(i as int)),
        decreases flags@.len() - i,
    {
        if i == flags.len() {
            proof {
                assert(flags@.take(i as int) =~= flags@);
            }
            return r;
        }
        if flags[i] {
            r.append("│ ");
        } else {
            r.append("  ");
        }
        proof {
            assert(flags@.take(i + 1).drop_last() =~= flags@.take(i as int));
            assert(flags@.take(i + 1).last() == flags@[i as int]);
        }
        i = i + 1;
    }
}

/// Walks the populated tree iteratively and returns every line below the
/// root in depth-first pre-order, together with how many lines show a
/// directory and how many show anything else.
#[verifier::rlimit(60)]
pub fn render_lines(tree: &Tree) -> (r: (Vec<Line>, usize, usize))
    requires
        tree.wf(),
    ensures
        r.0@.map_values(|l: Line| l@) == spec_lines(tree@),
        r.1 as nat == count_dirs(tree@, spec_lines(tree@)),
        r.2 as nat == count_files(tree@, spec_lines(tree@)),
        r.1 + r.2 == r.0@.len(),
{
    let ghost v = tree@;
    let mut out: Vec<Line> = Vec::new();
    let mut dirs: usize = 0;
    let mut files: usize = 0;
    let mut fstack: Vec<(usize, usize)> = Vec::new();
    let mut flags: Vec<bool> = Vec::new();
    if tree.nodes[0].child.len() == 0 {
        proof {
            assert(v[0] == tree.nodes@[0]@);
            assert(out@.map_values(|l: Line| l@) =~= spec_lines(v));
        }
        return (out, 0, 0);
    }
    fstack.push((0, 0));
    proof {
        assert(v[0] == tree.nodes@[0]@);
        assert(fstack@.drop_last() =~= Seq::<(usize, usize)>::empty());
        assert(fstack@.last() == (0usize, 0usize));
        assert(prefix_of(flags@) == Seq::<char>::empty());
        assert(stack_rest(v, fstack@.drop_last(), flags@) == Seq::<GLine>::empty());
        assert(stack_rest(v, fstack@, flags@) == spec_render_from(v, 0, 0, Seq::<char>::empty())
            + Seq::<GLine>::empty());
        assert(spec_render_from(v, 0, 0, Seq::<char>::empty()) + Seq::<GLine>::empty()
            =~= spec_render_from(v, 0, 0, Seq::<char>::empty()));
        assert(out@.map_values(|l: Line| l@) =~= Seq::<GLine>::empty());
        assert(out@.map_values(|l: Line| l@) + stack_rest(v, fstack@, flags@) =~= spec_lines(v));
        assert(count_dirs(v, out@.map_values(|l: Line| l@)) == 0);
        assert(count_files(v, out@.map_values(|l: Line| l@)) == 0);
    }
    loop
        invariant
            tree.wf(),
            v == tree@,
            fstack@.len() == 0 || flags@.len() + 1 == fstack@.len(),
            forall|k: int|
                0 <= k < fstack@.len() ==> (#[trigger] fstack@[k]).0 < v.len() && fstack@[k].1
                    <= v[fstack@[k].0 as int].kids.len(),
            out@.map_values(|l: Line| l@) + stack_rest(v, fstack@, flags@) == spec_lines(v),
            dirs as nat == count_dirs(v, out@.map_values(|l: Line| l@)),
            files as nat == count_files(v, out@.map_values(|l: Line| l@)),
            dirs + files == out@.len(),
        ensures
            out@.map_values(|l: Line| l@) == spec_lines(v),
            dirs as nat == count_dirs(v, out@.map_values(|l: Line| l@)),
            files as nat == count_files(v, out@.map_values(|l: Line| l@)),
            dirs + files == out@.len(),
        decreases stack_rest(v, fstack@, flags@).len(), fstack@.len(),
    {
        if fstack.len() == 0 {
            proof {
                assert(stack_rest(v, fstack@, flags@) =~= Seq::<GLine>::empty());
                assert(out@.map_values(|l: Line| l@) + stack_rest(v, fstack@, flags@) =~= out@
                    .map_values(|l: Line| l@));
            }
            break ;
        }
        let fr = fstack[fstack.len() - 1];
        let n = fr.0;
        let j = fr.1;
        let ghost preframes = fstack@;
        let ghost preflags = flags@;
        proof {
            assert(fstack@[fstack@.len() - 1] == fr);
            assert(v[n as int] == tree.nodes@[n as int]@);
        }
        let klen = tree.nodes[n].child.len();
        if j >= klen {
            // This level is exhausted: close it and resume the parent.
            let _ = fstack.pop();
            if flags.len() > 0 {
                let _ = flags.pop();
            }
            proof {
                assert(spec_render_from(v, n as int, j as int, prefix_of(preflags))
                    =~= Seq::<GLine>::empty());
                assert(fstack@ =~= preframes.drop_last());
                if preflags.len() > 0 {
                    assert(flags@ =~= preflags.take(preflags.len() - 1));
                } else {
                    assert(flags@ =~= preflags);
                }
                assert(stack_rest(v, preframes, preflags) =~= stack_rest(v, fstack@, flags@));
            }
            continue ;
        }
        // Emit the line for child `j` of `n`.
        let c = tree.nodes[n].child[j];
        proof {
            assert(v[n as int].kids[j as int] == c);
            assert((n as int) < c < v.len());
            assert(v[c as int] == tree.nodes@[c as int]@);
        }
        let isl = j + 1 == klen;
        let pstr = build_prefix(&flags);
        let ghost preout = out@;
        out.push(Line { node: c, last: isl, prefix: pstr });
        let outlen = out.len();
        proof {
            assert(outlen == out@.len());
            assert(dirs + files == outlen - 1);
        }
        let cdir = matches!(tree.nodes[c].file_type, FileType::Directory);
        if cdir {
            dirs = dirs + 1;
        } else {
            files = files + 1;
        }
        let _ = fstack.pop();
        fstack.push((n, j + 1));
        let chas = tree.nodes[c].child.len() > 0;
        let ghost head = GLine { node: c, last: isl, prefix: prefix_of(preflags) };
        proof {
            assert(cdir == is_dir_at(v, c as int));
            assert(out@ =~= preout.push(Line { node: c, last: isl, prefix: pstr }));
            assert(out@.map_values(|l: Line| l@).drop_last() =~= preout.map_values(
                |l: Line| l@,
            ));
            assert(out@.map_values(|l: Line| l@).last() == head);
            assert(count_dirs(v, out@.map_values(|l: Line| l@)) == count_dirs(
                v,
                preout.map_values(|l: Line| l@),
            ) + (if is_dir_at(v, c as int) {
                1nat
            } else {
                0nat
            }));
            assert(count_files(v, out@.map_values(|l: Line| l@)) == count_files(
                v,
                preout.map_values(|l: Line| l@),
            ) + (if is_dir_at(v, c as int) {
                0nat
            } else {
                1nat
            }));
            assert(fstack@ =~= preframes.drop_last().push((n, (j + 1) as usize)));
        }
        if cdir && chas {
            fstack.push((c, 0));
            flags.push(!isl);
            proof {
                let glyph: Seq<char> = if isl {
                    "  "@
                } else {
                    "│ "@
                };
                assert(flags@.drop_last() =~= preflags);
                assert(prefix_of(flags@) == prefix_of(preflags) + glyph);
                assert(fstack@.last() == (c, 0usize));
                assert(fstack@.drop_last() =~= preframes.drop_last().push((n, (j + 1) as usize)));
                assert(flags@.take(flags@.len() - 1) =~= preflags);
                assert(fstack@.drop_last().drop_last() =~= preframes.drop_last());
                // Unfold one step of the walk at (n, j).
                assert(spec_render_from(v, n as int, j as int, prefix_of(preflags)) == seq![head]
                    + spec_render_from(v, c as int, 0, prefix_of(preflags) + glyph)
                    + spec_render_from(v, n as int, j + 1, prefix_of(preflags)));
                assert(stack_rest(v, preframes.drop_last().push((n, (j + 1) as usize)), preflags)
                    == spec_render_from(v, n as int, j + 1, prefix_of(preflags)) + stack_rest(
                    v,
                    preframes.drop_last(),
                    if preflags.len() == 0 {
                        preflags
                    } else {
                        preflags.take(preflags.len() - 1)
                    },
                ));
                assert(stack_rest(v, fstack@, flags@) == spec_render_from(
                    v,
                    c as int,
                    0,
                    prefix_of(flags@),
                ) + stack_rest(v, preframes.drop_last().push((n, (j + 1) as usize)), preflags));
                assert(preout.map_values(|l: Line| l@) + stack_rest(v, preframes, preflags)
                    =~= out@.map_values(|l: Line| l@) + stack_rest(v, fstack@, flags@));
            }
        } else {
            proof {
                assert(spec_render_from(v, n as int, j as int, prefix_of(preflags)) == seq![head]
                    + Seq::<GLine>::empty() + spec_render_from(
                    v,
                    n as int,
                    j + 1,
                    prefix_of(preflags),
                ));
                assert(fstack@.last() == (n, (j + 1) as usize));
                assert(fstack@.drop_last() =~= preframes.drop_last());
                assert(flags@ == preflags);
                assert(stack_rest(v, fstack@, flags@) == spec_render_from(
                    v,
                    n as int,
                    j + 1,
                    prefix_of(preflags),
                ) + stack_rest(
                    v,
                    preframes.drop_last(),
                    if preflags.len() == 0 {
                        preflags
                    } else {
                        preflags.take(preflags.len() - 1)
                    },
                ));
                assert(preout.map_values(|l: Line| l@) + stack_rest(v, preframes, preflags)
                    =~= out@.map_values(|l: Line| l@) + stack_rest(v, fstack@, flags@));
            }
        }
    }
    proof {
        assert(out@.map_values(|l: Line| l@) =~= spec_lines(v));
    }
    (out, dirs, files)
}

/// Every line of a walk starting at node `n` shows a node strictly
/// between `n` and the end of the arena.
pub proof fn lemma_render_nodes(v: Seq<GNode>, n: int, j: int, prefix: Seq<char>)
    requires
        parents_ok(v),
        0 <= n < v.len(),
        0 <= j,
    ensures
        forall|k: int|
            0 <= k < spec_render_from(v, n, j, prefix).len() ==> n < (#[trigger] spec_render_from(
                v,
                n,
                j,
                prefix,
            )[k]).node < v.len(),
    decreases v.len() - n, v[n].kids.len() - j,
{
    let r = spec_render_from(v, n, j, prefix);
    if j < v[n].kids.len() {
        let c = v[n].kids[j] as int;
        let isl = j == v[n].kids.len() - 1;
        let glyph: Seq<char> = if isl {
            "  "@
        } else {
            "│ "@
        };
        let sub = if is_dir_at(v, c) && v[c].kids.len() > 0 {
            spec_render_from(v, c, 0, prefix + glyph)
        } else {
            Seq::<GLine>::empty()
        };
        let rest = spec_render_from(v, n, j + 1, prefix);
        if is_dir_at(v, c) && v[c].kids.len() > 0 {
            lemma_render_nodes(v, c, 0, prefix + glyph);
        }
        lemma_render_nodes(v, n, j + 1, prefix);
        assert forall|k: int| 0 <= k < r.len() implies n < (#[trigger] r[k]).node < v.len() by {
            if k == 0 {
            } else if k < 1 + sub.len() {
                assert(r[k] == sub[k - 1]);
            } else {
                assert(r[k] == rest[k - 1 - sub.len()]);
            }
        }
    }
}

/// The connector glyph before a line: a tee when more siblings follow,
/// an elbow on the last one.
pub open spec fn conn_of(last: bool) -> Seq<char> {
    if last {
        "└─"@
    } else {
        "├─"@
    }
}

/// The padded display segments of a node, as they are printed after the
/// permission string: the name, and for a symbolic link an arrow and the
/// raw target, each segment framed by single spaces.
pub open spec fn padded_segs(v: Seq<GNode>, n: int) -> Seq<char> {
    match v[n].kind {
        GKind::SoftLink(t, _) => " "@ + v[n].name + " "@ + " "@ + " -> "@ + " "@ + " "@ + t
            + " "@,
        _ => " "@ + v[n].name + " "@,
    }
}

/// The full text of one line below the root.
pub open spec fn line_text(v: Seq<GNode>, l: GLine) -> Seq<char> {
    l.prefix + conn_of(l.last) + v[l.node as int].mode + padded_segs(v, l.node as int) + "\n"@
}

/// The concatenated text of a run of lines.
pub open spec fn lines_text(v: Seq<GNode>, lines: Seq<GLine>) -> Seq<char>
    decreases lines.len(),
{
    if lines.len() == 0 {
        Seq::<char>::empty()
    } else {
        lines_text(v, lines.drop_last()) + line_text(v, lines.last())
    }
}

/// The root's own line: permission string, a space, the name, and for a
/// symbolic link the arrow and target, unpadded.
pub open spec fn root_text(v: Seq<GNode>) -> Seq<char> {
    v[0].mode + " "@ + v[0].name + (match v[0].kind {
        GKind::SoftLink(t, _) => " -> "@ + t,
        _ => Seq::<char>::empty(),
    }) + "\n"@
}

/// The closing summary line.
pub open spec fn summary_text(d: nat, f: nat) -> Seq<char> {
    spec_dec(d as int) + " directories, "@ + spec_dec(f as int) + " files"@ + "\n"@
}

/// A childless root is counted as a single file by the summary.
pub open spec fn root_as_file(v: Seq<GNode>) -> nat {
    if v[0].kids.len() == 0 {
        1
    } else {
        0
    }
}

/// The complete rendering: the root line, one line per visited node, and
/// the summary counting directory and non-directory lines.
pub open spec fn spec_render_text(v: Seq<GNode>) -> Seq<char> {
    root_text(v) + lines_text(v, spec_lines(v)) + summary_text(
        count_dirs(v, spec_lines(v)),
        count_files(v, spec_lines(v)) + root_as_file(v),
    )
}

/// Builds the padded display segments of one node.
fn segs_string(tree: &Tree, n: usize) -> (r: String)
    requires
        tree.wf(),
        n < tree@.len(),
    ensures
        r@ == padded_segs(tree@, n as int),
{
    proof {
        assert(tree@[n as int] == tree.nodes@[n as int]@);
    }
    let mut r = String::from_str(" ");
    r.append(tree.nodes[n].name.as_str());
    r.append(" ");
    match &tree.nodes[n].file_type {
        FileType::SoftLink(t, _) => {
            r.append(" ");
            r.append(" -> ");
            r.append(" ");
            r.append(" ");
            r.append(t.as_str());
            r.append(" ");
        },
        _ => {},
    }
    r
}

/// Builds the root's own line.
fn root_string(tree: &Tree) -> (r: String)
    requires
        tree.wf(),
    ensures
        r@ == root_text(tree@),
{
    proof {
        assert(tree@[0] == tree.nodes@[0]@);
    }
    let mut r = tree.nodes[0].mode_str.clone();
    r.append(" ");
    r.append(tree.nodes[0].name.as_str());
    match &tree.nodes[0].file_type {
        FileType::SoftLink(t, _) => {
            r.append(" -> ");
            r.append(t.as_str());
        },
        _ => {},
    }
    r.append("\n");
    r
}

/// Renders the whole tree as plain text: the root line, one line per
/// node in depth-first pre-order with its glyphs and permission string,
/// and the summary line with the directory and file counts.
pub fn render_plain(tree: &Tree) -> (r: String)
    requires
        tree.wf(),
    ensures
        r@ == spec_render_text(tree@),
{
    let ghost v = tree@;
    let (lines, dirs, files) = render_lines(tree);
    let ghost glines = spec_lines(v);
    let mut out = root_string(tree);
    proof {
        if v[0].kids.len() > 0 {
            lemma_render_nodes(v, 0, 0, Seq::<char>::empty());
        }
        assert(glines.take(0) =~= Seq::<GLine>::empty());
        assert(out@ == root_text(v) + lines_text(v, glines.take(0)));
    }
    let mut i: usize = 0;
    loop
        invariant
            tree.wf(),
            v == tree@,
            glines == spec_lines(v),
            lines@.map_values(|l: Line| l@) == glines,
            i <= lines@.len(),
            out@ == root_text(v) + lines_text(v, glines.take(i as int)),
            forall|k: int| 0 <= k < glines.len() ==> 0 < (#[trigger] glines[k]).node < v.len(),
        ensures
            out@ == root_text(v) + lines_text(v, glines),
        decreases lines@.len() - i,
    {
        if i == lines.len() {
            proof {
                assert(glines.take(i as int) =~= glines);
            }
            break ;
        }
        proof {
            assert(lines@.map_values(|l: Line| l@)[i as int] == lines@[i as int]@);
            assert(lines@[i as int]@ == glines[i as int]);
        }
        let node = lines[i].node;
        let last = lines[i].last;
        proof {
            assert(v[node as int] == tree.nodes@[node as int]@);
        }
        out.append(lines[i].prefix.as_str());
        if last {
            out.append("└─");
        } else {
            out.append("├─");
        }
        out.append(tree.nodes[node].mode_str.as_str());
        let seg = segs_string(tree, node);
        out.append(seg.as_str());
        out.append("\n");
        proof {
            assert(glines.take(i + 1).drop_last() =~= glines.take(i as int));
            assert(glines.take(i + 1).last() == glines[i as int]);
            assert(out@ == root_text(v) + lines_text(v, glines.take(i + 1)));
        }
        i = i + 1;
    }
    let rootless = {
        let l = tree.nodes[0].child.len();
        proof {
            assert(v[0] == tree.nodes@[0]@);
        }
        l == 0
    };
    let shown_files = if rootless {
        proof {
            assert(v[0].kids.len() == 0);
            assert(glines =~= Seq::<GLine>::empty());
            assert(count_files(v, glines) == 0);
        }
        files + 1
    } else {
        files
    };
    let d = usize_to_string(dirs);
    let f = usize_to_string(shown_files);
    out.append(d.as_str());
    out.append(" directories, ");
    out.append(f.as_str());
    out.append(" files");
    out.append("\n");
    proof {
        assert(shown_files as nat == count_files(v, glines) + root_as_file(v));
        assert(out@ =~= spec_render_text(v));
    }
    out
}

impl Files {
    /// Picks the style of a name by the kind it belongs to: directories
    /// bright blue and bold, symbolic links bright cyan and bold, the
    /// rest plain.
    pub fn get_color_str(file_type: &FileType, s: &str) -> (r: String)
        ensures
            esc_free(s@) ==> contains_seq(r@, s@),
    {
        match file_type {
            FileType::Directory => paint_dir(s),
            FileType::SoftLink(_, _) => paint_link(s),
            _ => paint_plain(s),
        }
    }

    /// The styled display segments of this entry: its name styled by its
    /// kind and, for a symbolic link, a bold arrow and the raw target
    /// styled by the target's resolved kind (an unreadable target gets
    /// the invalid style).
    pub fn get_colored_name(&self) -> (r: Vec<String>)
        ensures
            r@.len() == (if self@.kind is SoftLink {
                3int
            } else {
                1int
            }),
            esc_free(self@.name) ==> contains_seq(r@[0]@, self@.name),
            (match self@.kind {
                GKind::SoftLink(t, _) => esc_free(t) ==> contains_seq(r@[2]@, t),
                _ => true,
            }),
    {
        let mut r: Vec<String> = Vec::new();
        let first = Files::get_color_str(&self.file_type, self.name.as_str());
        r.push(first);
        if let FileType::SoftLink(target, tk) = &self.file_type {
            r.push(paint_bold(" -> "));
            let styled = match tk {
                TargetKind::Directory => paint_dir(target.as_str()),
                TargetKind::SoftLink => paint_link(target.as_str()),
                TargetKind::Invalid => paint_invalid(target.as_str()),
                _ => paint_plain(target.as_str()),
            };
            r.push(styled);
        }
        r
    }
}

/// Renders the whole tree with styled names: the same walk, lines and
/// summary as the plain rendering, with each display segment passed
/// through the styling collaborator. Styling may add escape codes, so
/// the contract promises the structure that survives every outcome:
/// every visited node's name appears in the output, and the output ends
/// with the exact summary line.
pub fn render_colored(tree: &Tree) -> (r: String)
    requires
        tree.wf(),
    ensures
        esc_free(tree@[0].name) ==> contains_seq(r@, tree@[0].name),
        forall|k: int|
            0 <= k < spec_lines(tree@).len() ==> (esc_free(
                tree@[(#[trigger] spec_lines(tree@)[k]).node as int].name,
            ) ==> contains_seq(r@, tree@[spec_lines(tree@)[k].node as int].name)),
        ({
            let s = summary_text(
                count_dirs(tree@, spec_lines(tree@)),
                count_files(tree@, spec_lines(tree@)) + root_as_file(tree@),
            );
            r@.len() >= s.len() && r@.subrange(r@.len() - s.len(), r@.len() as int) == s
        }),
{
    let ghost v = tree@;
    let (lines, dirs, files) = render_lines(tree);
    let ghost glines = spec_lines(v);
    proof {
        if v[0].kids.len() > 0 {
            lemma_render_nodes(v, 0, 0, Seq::<char>::empty());
        }
        assert(v[0] == tree.nodes@[0]@);
    }
    // The root's own line.
    let mut out = tree.nodes[0].mode_str.clone();
    out.append(" ");
    {
        let segs = tree.nodes[0].get_colored_name();
        let mut si: usize = 0;
        while si < segs.len()
            invariant
                v == tree@,
                si <= segs@.len(),
                esc_free(v[0].name) && segs@.len() >= 1 && contains_seq(segs@[0]@, v[0].name)
                    && si >= 1 ==> contains_seq(out@, v[0].name),
            decreases segs@.len() - si,
        {
            proof {
                if si >= 1 && esc_free(v[0].name) && segs@.len() >= 1 && contains_seq(
                    segs@[0]@,
                    v[0].name,
                ) {
                    lemma_contains_extend(out@, segs@[si as int]@, v[0].name);
                }
                if si == 0 && esc_free(v[0].name) && contains_seq(segs@[0]@, v[0].name) {
                    lemma_contains_shift(out@, segs@[0]@, v[0].name);
                }
            }
            out.append(segs[si].as_str());
            si = si + 1;
        }
    }
    proof {
        if esc_free(v[0].name) {
            lemma_contains_extend(out@, "\n"@, v[0].name);
        }
    }
    out.append("\n");
    // One styled line per visited node.
    let mut i: usize = 0;
    while i < lines.len()
        invariant
            tree.wf(),
            v == tree@,
            glines == spec_lines(v),
            lines@.map_values(|l: Line| l@) == glines,
            i <= lines@.len(),
            forall|k: int| 0 <= k < glines.len() ==> 0 < (#[trigger] glines[k]).node < v.len(),
            esc_free(v[0].name) ==> contains_seq(out@, v[0].name),
            forall|k: int|
                0 <= k < i ==> (esc_free(v[(#[trigger] glines[k]).node as int].name)
                    ==> contains_seq(out@, v[glines[k].node as int].name)),
        decreases lines@.len() - i,
    {
        proof {
            assert(lines@.map_values(|l: Line| l@)[i as int] == lines@[i as int]@);
        }
        let node = lines[i].node;
        let last = lines[i].last;
        proof {
            assert(v[node as int] == tree.nodes@[node as int]@);
        }
        // Build the line on its own, then append it whole.
        let mut line = lines[i].prefix.clone();
        if last {
            line.append("└─");
        } else {
            line.append("├─");
        }
        line.append(tree.nodes[node].mode_str.as_str());
        let segs = tree.nodes[node].get_colored_name();
        let ghost name = v[node as int].name;
        let mut si: usize = 0;
        while si < segs.len()
            invariant
                v == tree@,
                node < v.len(),
                si <= segs@.len(),
                name == v[node as int].name,
                esc_free(name) && segs@.len() >= 1 && contains_seq(segs@[0]@, name) && si >= 1
                    ==> contains_seq(line@, name),
            decreases segs@.len() - si,
        {
            proof {
                if esc_free(name) && segs@.len() >= 1 && contains_seq(segs@[0]@, name) {
                    if si >= 1 {
                        lemma_contains_extend(line@, " "@, name);
                    }
                }
            }
            line.append(" ");
            proof {
                if esc_free(name) && segs@.len() >= 1 && contains_seq(segs@[0]@, name) {
                    if si >= 1 {
                        lemma_contains_extend(line@, segs@[si as int]@, name);
                    } else {
                        lemma_contains_shift(line@, segs@[0]@, name);
                    }
                }
            }
            out_append_seg(&mut line, &segs, si);
            proof {
                if esc_free(name) && segs@.len() >= 1 && contains_seq(segs@[0]@, name) {
                    lemma_contains_extend(line@, " "@, name);
                }
            }
            line.append(" ");
            si = si + 1;
        }
        proof {
            if esc_free(name) && contains_seq(segs@[0]@, name) {
                lemma_contains_extend(line@, "\n"@, name);
            }
        }
        line.append("\n");
        proof {
            if esc_free(v[0].name) {
                lemma_contains_extend(out@, line@, v[0].name);
            }
            assert forall|k: int|
                0 <= k < i && esc_free(
                    v[(#[trigger] glines[k]).node as int].name,
                ) implies contains_seq(out@ + line@, v[glines[k].node as int].name) by {
                lemma_contains_extend(out@, line@, v[glines[k].node as int].name);
            }
            if esc_free(name) {
                lemma_contains_shift(out@, line@, name);
            }
        }
        out.append(line.as_str());
        i = i + 1;
    }
    // The summary line, rendered exactly.
    let rootless = tree.nodes[0].child.len() == 0;
    proof {
        assert(v[0] == tree.nodes@[0]@);
    }
    let shown_files = if rootless {
        proof {
            assert(v[0].kids.len() == 0);
            assert(glines =~= Seq::<GLine>::empty());
            assert(count_files(v, glines) == 0);
        }
        files + 1
    } else {
        files
    };
    let mut tail = usize_to_string(dirs);
    tail.append(" directories, ");
    let f = usize_to_string(shown_files);
    tail.append(f.as_str());
    tail.append(" files");
    tail.append("\n");
    proof {
        let s = summary_text(
            count_dirs(v, glines),
            (count_files(v, glines) + root_as_file(v)) as nat,
        );
        assert(tail@ =~= s);
        if esc_free(v[0].name) {
            lemma_contains_extend(out@, tail@, v[0].name);
        }
        assert forall|k: int|
            0 <= k < glines.len() && esc_free(
                v[(#[trigger] glines[k]).node as int].name,
            ) implies contains_seq(out@ + tail@, v[glines[k].node as int].name) by {
            lemma_contains_extend(out@, tail@, v[glines[k].node as int].name);
        }
        assert((out@ + tail@).subrange(out@.len() as int, (out@.len() + tail@.len()) as int)
            =~= tail@);
    }
    out.append(tail.as_str());
    out
}

/// Appends one display segment to a line being built.
fn out_append_seg(line: &mut String, segs: &Vec<String>, si: usize)
    requires
        si < segs@.len(),
    ensures
        final(line)@ == old(line)@ + segs@[si as int]@,
{
    line.append(segs[si].as_str());
}

/// Presents a whole tree, rendered with styled names and the closing
/// summary line.
pub struct FileInTree<'a>(pub &'a Tree);

impl<'a> FileInTree<'a> {
    /// Renders the wrapped tree; see `render_colored`, whose whole
    /// contract this call passes on.
    pub fn text(&self) -> (r: String)
        requires
            self.0.wf(),
        ensures
            esc_free(self.0@[0].name) ==> contains_seq(r@, self.0@[0].name),
            forall|k: int|
                0 <= k < spec_lines(self.0@).len() ==> (esc_free(
                    self.0@[(#[trigger] spec_lines(self.0@)[k]).node as int].name,
                ) ==> contains_seq(r@, self.0@[spec_lines(self.0@)[k].node as int].name)),
            ({
                let s = summary_text(
                    count_dirs(self.0@, spec_lines(self.0@)),
                    count_files(self.0@, spec_lines(self.0@)) + root_as_file(self.0@),
                );
                r@.len() >= s.len() && r@.subrange(r@.len() - s.len(), r@.len() as int) == s
            }),
    {
        render_colored(self.0)
    }
}

/// Presents only the names of the root's children, styled, separated by
/// two spaces.
pub struct FileWithName<'a>(pub &'a Tree);

impl<'a> FileWithName<'a> {
    /// The styled names of the root's children, each followed by two
    /// spaces. Every child's name appears, and — since the styler only
    /// wraps each name — when all names are free of the escape character
    /// they occur in the output exactly in child-list order.
    pub fn text(&self) -> (r: String)
        requires
            self.0.wf(),
        ensures
            forall|j: int|
                0 <= j < self.0@[0].kids.len() ==> (esc_free(
                    self.0@[(#[trigger] self.0@[0].kids[j]) as int].name,
                ) ==> contains_seq(r@, self.0@[self.0@[0].kids[j] as int].name)),
            ({
                let names = Seq::new(
                    self.0@[0].kids.len(),
                    |j: int| self.0@[self.0@[0].kids[j] as int].name,
                );
                (forall|j: int| 0 <= j < names.len() ==> esc_free(#[trigger] names[j]))
                    ==> occurs_in_order(r@, names)
            }),
    {
        let tree = self.0;
        let ghost v = tree@;
        proof {
            assert(v[0] == tree.nodes@[0]@);
        }
        let mut out = String::new();
        let klen = tree.nodes[0].child.len();
        let ghost names = Seq::new(v[0].kids.len() as nat, |j: int| v[v[0].kids[j] as int].name);
        let ghost all_clear = forall|j: int| 0 <= j < names.len() ==> esc_free(#[trigger] names[j]);
        let mut j: usize = 0;
        proof {
            assert(names.take(0) =~= Seq::<Seq<char>>::empty());
            assert(out@ =~= Seq::<char>::empty() + out@);
        }
        while j < klen
            invariant
                tree.wf(),
                v == tree@,
                klen == v[0].kids.len(),
                j <= klen,
                names == Seq::new(v[0].kids.len() as nat, |jx: int| v[v[0].kids[jx] as int].name),
                all_clear == (forall|jx: int|
                    0 <= jx < names.len() ==> esc_free(#[trigger] names[jx])),
                all_clear ==> occurs_in_order(out@, names.take(j as int)),
                forall|jj: int|
                    0 <= jj < j ==> (esc_free(v[(#[trigger] v[0].kids[jj]) as int].name)
                        ==> contains_seq(out@, v[v[0].kids[jj] as int].name)),
            decreases klen - j,
        {
            let ghost top = out@;
            let c = tree.nodes[0].child[j];
            proof {
                assert(v[0].kids[j as int] == c);
                assert(0 < c < v.len());
                assert(v[c as int] == tree.nodes@[c as int]@);
            }
            let seg = Files::get_color_str(&tree.nodes[c].file_type, tree.nodes[c].name.as_str());
            proof {
                assert forall|jj: int|
                    0 <= jj < j && esc_free(
                        v[(#[trigger] v[0].kids[jj]) as int].name,
                    ) implies contains_seq(out@ + seg@, v[v[0].kids[jj] as int].name) by {
                    lemma_contains_extend(out@, seg@, v[v[0].kids[jj] as int].name);
                }
                if esc_free(v[c as int].name) {
                    lemma_contains_shift(out@, seg@, v[c as int].name);
                }
            }
            out.append(seg.as_str());
            proof {
                assert forall|jj: int|
                    0 <= jj <= j && esc_free(
                        v[(#[trigger] v[0].kids[jj]) as int].name,
                    ) implies contains_seq(out@ + "  "@, v[v[0].kids[jj] as int].name) by {
                    lemma_contains_extend(out@, "  "@, v[v[0].kids[jj] as int].name);
                }
            }
            out.append("  ");
            proof {
                if all_clear {
                    assert(names[j as int] == v[v[0].kids[j as int] as int].name);
                    assert(esc_free(names[j as int]));
                    assert(contains_seq(seg@, names[j as int]));
                    lemma_contains_extend(seg@, "  "@, names[j as int]);
                    lemma_occurs_push(top, seg@ + "  "@, names.take(j as int), names[j as int]);
                    assert(out@ =~= top + (seg@ + "  "@));
                    assert(names.take(j + 1) =~= names.take(j as int).push(names[j as int]));
                    assert(occurs_in_order(out@, names.take(j + 1)));
                }
            }
            j = j + 1;
        }
        proof {
            if all_clear {
                assert(names.take(klen as int) =~= names);
            }
        }
        out
    }
}

} // verus!
