//! The entry model: one node per filesystem object, its kind, its
//! permission string, and its place in the tree (parent index and child
//! indices into the arena that owns every node).

use vstd::prelude::*;

verus! {

/// The resolved kind of a symbolic link's target, recorded when the link is
/// scanned so that the renderer can style the target without further
/// filesystem work. A target that cannot be read is `Invalid`.
#[derive(Clone, Copy, PartialEq, Eq, Structural, Debug)]
pub enum TargetKind {
    Directory,
    File,
    SoftLink,
    Other,
    Invalid,
}

/// The kind of one filesystem object. A symbolic link carries the raw
/// target path it points at, together with the target's resolved kind.
/// `Invalid` marks an entry whose metadata could not be read.
#[derive(Debug)]
pub enum FileType {
    Directory,
    File,
    SoftLink(String, TargetKind),
    Other,
    Invalid,
}

/// What a single metadata read reports about one path: whether the
/// link-aware read succeeded and saw a symbolic link, whether the
/// link-following read succeeded and what it classified, the raw permission
/// bits, and for links the target path and its resolved kind.
pub struct RawMeta {
    /// The entry's name (for the root entry: the starting path itself).
    pub name: String,
    /// The link-aware metadata read succeeded.
    pub lstat_ok: bool,
    /// The entry itself is a symbolic link (meaningful when `lstat_ok`).
    pub is_symlink: bool,
    /// The link-following metadata read succeeded.
    pub stat_ok: bool,
    /// The object is a regular file (meaningful when `stat_ok`).
    pub is_file: bool,
    /// The object is a directory (meaningful when `stat_ok`).
    pub is_dir: bool,
    /// Raw mode bits of the link-following read; `0` when it failed.
    pub mode: u32,
    /// The raw link target; empty when the entry is not a symbolic link.
    pub link_target: String,
    /// The resolved kind of the link target; `Invalid` for a broken link.
    pub target_kind: TargetKind,
}

/// The ghost image of a `RawMeta`: the same facts over character sequences.
pub struct GMeta {
    pub name: Seq<char>,
    pub lstat_ok: bool,
    pub is_symlink: bool,
    pub stat_ok: bool,
    pub is_file: bool,
    pub is_dir: bool,
    pub mode: u32,
    pub link_target: Seq<char>,
    pub target_kind: TargetKind,
}

/// The ghost image of a `FileType`.
pub enum GKind {
    Directory,
    File,
    SoftLink(Seq<char>, TargetKind),
    Other,
    Invalid,
}

impl View for RawMeta {
    type V = GMeta;

    open spec fn view(&self) -> GMeta {
        GMeta {
            name: self.name@,
            lstat_ok: self.lstat_ok,
            is_symlink: self.is_symlink,
            stat_ok: self.stat_ok,
            is_file: self.is_file,
            is_dir: self.is_dir,
            mode: self.mode,
            link_target: self.link_target@,
            target_kind: self.target_kind,
        }
    }
}

impl View for FileType {
    type V = GKind;

    open spec fn view(&self) -> GKind {
        match self {
            FileType::Directory => GKind::Directory,
            FileType::File => GKind::File,
            FileType::SoftLink(t, k) => GKind::SoftLink(t@, *k),
            FileType::Other => GKind::Other,
            FileType::Invalid => GKind::Invalid,
        }
    }
}

/// How a metadata report is classified: a symbolic link is recognised even
/// when its target cannot be read (the link itself still renders, with its
/// target styled as invalid); otherwise a failed read yields `Invalid`, and
/// a successful one yields the reported kind.
pub open spec fn spec_classify(m: GMeta) -> GKind {
    if m.lstat_ok && m.is_symlink {
        GKind::SoftLink(m.link_target, m.target_kind)
    } else if !m.stat_ok {
        GKind::Invalid
    } else if m.is_file {
        GKind::File
    } else if m.is_dir {
        GKind::Directory
    } else {
        GKind::Other
    }
}

/// Classifies one metadata report.
pub fn classify(m: &RawMeta) -> (r: FileType)
    ensures
        r@ == spec_classify(m@),
{
    if m.lstat_ok && m.is_symlink {
        FileType::SoftLink(m.link_target.clone(), m.target_kind)
    } else if !m.stat_ok {
        FileType::Invalid
    } else if m.is_file {
        FileType::File
    } else if m.is_dir {
        FileType::Directory
    } else {
        FileType::Other
    }
}

/// The glyph that leads a permission string, chosen by the object type
/// encoded in the top mode bits.
pub open spec fn spec_type_char(mode: u32) -> char {
    let t = mode >> 12;
    if t == 0o10 {
        '-'
    } else if t == 0o04 {
        'd'
    } else if t == 0o12 {
        'l'
    } else if t == 0o02 {
        'c'
    } else if t == 0o06 {
        'b'
    } else if t == 0o01 {
        'p'
    } else if t == 0o14 {
        's'
    } else {
        '?'
    }
}

/// One `rwx` group, from the low three bits of `bits`.
pub open spec fn spec_rwx(bits: u32) -> Seq<char> {
    seq![
        if bits & 0o4 != 0 { 'r' } else { '-' },
        if bits & 0o2 != 0 { 'w' } else { '-' },
        if bits & 0o1 != 0 { 'x' } else { '-' },
    ]
}

/// The ten-character permission string: type glyph, then the owner, group
/// and other `rwx` groups.
pub open spec fn spec_mode_str(mode: u32) -> Seq<char> {
    seq![spec_type_char(mode)] + spec_rwx((mode >> 6) & 0o7) + spec_rwx((mode >> 3) & 0o7)
        + spec_rwx(mode & 0o7)
}

/// One node of the file tree. Nodes live in the arena owned by the tree;
/// a node points at its parent and its children by arena index, so the
/// child list owns nothing and no reference cycle can arise.
#[derive(Debug)]
pub struct Files {
    /// Full path of the object: the parent's path, a separator, the name.
    pub path: String,
    /// The last path component (for the root: the starting path itself).
    pub name: String,
    /// The classified kind.
    pub file_type: FileType,
    /// The ten-character permission string.
    pub mode_str: String,
    /// Arena index of the parent; `None` exactly for the root.
    pub parent: Option<usize>,
    /// Arena indices of the children, sorted by path; empty unless the
    /// node is a directory that has been expanded.
    pub child: Vec<usize>,
}

/// The ghost image of a node.
pub struct GNode {
    pub path: Seq<char>,
    pub name: Seq<char>,
    pub kind: GKind,
    pub mode: Seq<char>,
    pub parent: Option<usize>,
    pub kids: Seq<usize>,
}

impl View for Files {
    type V = GNode;

    open spec fn view(&self) -> GNode {
        GNode {
            path: self.path@,
            name: self.name@,
            kind: self.file_type@,
            mode: self.mode_str@,
            parent: self.parent,
            kids: self.child@,
        }
    }
}

impl Files {
    /// One `rwx` group from the low three bits of `mode`.
    pub fn get_permission(mode: u32) -> (r: String)
        ensures
            r@ == spec_rwx(mode & 0o7),
    {
        let mut s = if mode & 0o4 != 0 {
            String::from_str("r")
        } else {
            String::from_str("-")
        };
        if mode & 0o2 != 0 {
            s.append("w");
        } else {
            s.append("-");
        }
        if mode & 0o1 != 0 {
            s.append("x");
        } else {
            s.append("-");
        }
        proof {
            reveal_strlit("r");
            reveal_strlit("w");
            reveal_strlit("x");
            reveal_strlit("-");
            assert(mode & 0o7 & 0o4 == mode & 0o4) by (bit_vector);
            assert(mode & 0o7 & 0o2 == mode & 0o2) by (bit_vector);
            assert(mode & 0o7 & 0o1 == mode & 0o1) by (bit_vector);
            assert(s@ =~= spec_rwx(mode & 0o7));
        }
        s
    }

    /// The full ten-character permission string for raw mode bits.
    pub fn mode_string(mode: u32) -> (r: String)
        ensures
            r@ == spec_mode_str(mode),
    {
        let t = mode >> 12;
        let lead: &str = if t == 0o10 {
            "-"
        } else if t == 0o04 {
            "d"
        } else if t == 0o12 {
            "l"
        } else if t == 0o02 {
            "c"
        } else if t == 0o06 {
            "b"
        } else if t == 0o01 {
            "p"
        } else if t == 0o14 {
            "s"
        } else {
            "?"
        };
        let mut s = lead.to_owned();
        let owner = Self::get_permission((mode >> 6) & 0o7);
        let group = Self::get_permission((mode >> 3) & 0o7);
        let other = Self::get_permission(mode & 0o7);
        s.append(owner.as_str());
        s.append(group.as_str());
        s.append(other.as_str());
        proof {
            reveal_strlit("-");
            reveal_strlit("d");
            reveal_strlit("l");
            reveal_strlit("c");
            reveal_strlit("b");
            reveal_strlit("p");
            reveal_strlit("s");
            reveal_strlit("?");
            assert((mode >> 6) & 0o7 & 0o7 == (mode >> 6) & 0o7) by (bit_vector);
            assert((mode >> 3) & 0o7 & 0o7 == (mode >> 3) & 0o7) by (bit_vector);
            assert(mode & 0o7 & 0o7 == mode & 0o7) by (bit_vector);
            assert(s@ =~= spec_mode_str(mode));
        }
        s
    }

    /// Builds a node from a metadata report, not yet attached to a parent.
    pub fn new(path: String, meta: &RawMeta) -> (r: Files)
        ensures
            r@.path == path@,
            r@.name == meta@.name,
            r@.kind == spec_classify(meta@),
            r@.mode == spec_mode_str(meta@.mode),
            r@.parent is None,
            r@.kids =~= Seq::<usize>::empty(),
    {
        let file_type = classify(meta);
        let mode_str = Self::mode_string(meta.mode);
        Files {
            path,
            name: meta.name.clone(),
            file_type,
            mode_str,
            parent: None,
            child: Vec::new(),
        }
    }
}

} // verus!
