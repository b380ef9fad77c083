//! The bounded top-K directory size scanner.
//!
//! The scanner walks a directory tree held as plain data ([`FsNode`]),
//! attributes a byte size to every directory it visits, and retains only the
//! `max_results` largest in bounded space (see [`crate::topk`]). The walk is
//! a single recursive post-order pass: a directory's size is the sum of its
//! direct files plus the sizes attributed to its children, so a directory's
//! reported size covers all its descendants whether or not those descendants
//! are retained individually.
//!
//! Two policies shape the walk:
//! - a depth limit: below `max_depth` a child directory's size is computed in
//!   full; at the limit it is approximated by the child's direct files alone,
//!   a deliberate, documented approximation that bounds the work below the
//!   configured depth while keeping the size non-zero;
//! - an exclusion policy (off under `show_all`): hidden directories and a
//!   fixed deny-list of build, cache and dependency directories are neither
//!   traversed nor counted toward their parent.
//!
//! Reading the live filesystem is the caller's affair, as is any progress
//! reporting during the walk that builds the tree: the engine itself is pure.

use vstd::prelude::*;
use vstd::multiset::Multiset;
use crate::ranked::{clip64, is_top_selection};
use crate::topk::TopK;

verus! {

/// A directory of the tree under scan, as plain data: its name, the total
/// byte size of the plain files directly inside it, whether its contents
/// could be listed, and its subdirectories.
///
/// `readable == false` stands for a directory whose listing fails
/// (permission denied, removed mid-scan): it contributes zero bytes and
/// hides everything below it, but never aborts a scan. Symbolic links are
/// not represented; a walk feeding this model must treat them as leaves so
/// that no cycle can arise.
pub struct FsNode {
    pub name: String,
    pub files_size: u64,
    pub readable: bool,
    pub subdirs: Vec<FsNode>,
}

/// One retained directory: its full path, the byte size the scan attributed
/// to it, and whether it is an immediate child of the scan base.
#[derive(Debug)]
pub struct DirectoryEntry {
    pub path: String,
    pub size: u64,
    pub is_immediate_child: bool,
}

/// The mathematical content of a [`DirectoryEntry`].
pub struct EntryModel {
    pub path: Seq<char>,
    pub size: u64,
    pub is_immediate_child: bool,
}

impl View for DirectoryEntry {
    type V = EntryModel;

    open spec fn view(&self) -> EntryModel {
        EntryModel { path: self.path@, size: self.size, is_immediate_child: self.is_immediate_child }
    }
}

/// Entries are ranked by attributed size.
pub open spec fn size_key() -> spec_fn(EntryModel) -> int {
    |e: EntryModel| e.size as int
}

/// The mathematical content of a run of entries.
pub open spec fn models_of(v: Seq<DirectoryEntry>) -> Seq<EntryModel> {
    v.map_values(|e: DirectoryEntry| e@)
}

/// The one fatal failure of a scan: the base directory itself cannot be
/// listed. Every failure deeper in the tree degrades to a zero contribution
/// instead.
#[derive(Debug, Clone, Copy, PartialEq, Eq, Structural)]
pub enum ScanError {
    RootUnreadable,
}

/// A hidden name: one that begins with a dot.
pub open spec fn is_hidden_name(name: Seq<char>) -> bool {
    name.len() > 0 && name[0] == '.'
}

/// The fixed deny-list of build, cache and dependency directory names. A
/// heuristic noise filter, not a security boundary.
pub open spec fn is_denied_name(name: Seq<char>) -> bool {
    ||| name == "node_modules"@
    ||| name == "target"@
    ||| name == "build"@
    ||| name == "dist"@
    ||| name == "__pycache__"@
    ||| name == "venv"@
    ||| name == ".venv"@
    ||| name == "vendor"@
    ||| name == "pkg"@
    ||| name == "obj"@
    ||| name == "bin"@
    ||| name == ".pytest_cache"@
    ||| name == ".mypy_cache"@
    ||| name == ".tox"@
    ||| name == "coverage"@
    ||| name == ".coverage"@
    ||| name == "htmlcov"@
}

/// A directory of this name is excluded when the policy is active: hidden,
/// or on the deny-list.
pub open spec fn spec_should_skip(name: Seq<char>) -> bool {
    is_hidden_name(name) || is_denied_name(name)
}

/// String equality by content.
fn str_eq(a: &str, b: &str) -> (r: bool)
    ensures
        r == (a@ == b@),
{
    let sa = a.to_owned();
    let sb = b.to_owned();
    sa == sb
}

/// Whether a directory of this name is excluded when the exclusion policy is
/// active: hidden (dot-prefixed), or on the fixed deny-list.
pub fn should_skip(name: &str) -> (r: bool)
    ensures
        r == spec_should_skip(name@),
{
    if !name.is_empty() && name.get_char(0) == '.' {
        return true;
    }
    str_eq(name, "node_modules") || str_eq(name, "target") || str_eq(name, "build")
        || str_eq(name, "dist") || str_eq(name, "__pycache__") || str_eq(name, "venv")
        || str_eq(name, ".venv") || str_eq(name, "vendor") || str_eq(name, "pkg")
        || str_eq(name, "obj") || str_eq(name, "bin") || str_eq(name, ".pytest_cache")
        || str_eq(name, ".mypy_cache") || str_eq(name, ".tox") || str_eq(name, "coverage")
        || str_eq(name, ".coverage") || str_eq(name, "htmlcov")
}

/// The path of a child directory: the parent's path, a separator, the
/// child's name.
pub open spec fn child_path(prefix: Seq<char>, name: Seq<char>) -> Seq<char> {
    prefix + "/"@ + name
}

/// One step down the tree. The depth counter saturates at `usize::MAX`
/// instead of wrapping; the saturation point is unreachable for any walk
/// that a machine can hold, and whenever a depth limit is set the comparison
/// against it stops the walk long before.
pub open spec fn next_depth(d: nat) -> nat {
    if d < usize::MAX as nat {
        d + 1
    } else {
        d
    }
}

/// The size a directory is approximated by at the depth limit: its direct
/// files alone, zero if it cannot be listed. Deeper descendants are left
/// out on purpose — this bounds the work below the configured depth.
pub open spec fn shallow_size(c: FsNode) -> nat {
    if c.readable {
        c.files_size as nat
    } else {
        0
    }
}

/// The scanner: the scan base path and the three policies of one scan.
/// Immutable for the duration of a scan.
pub struct DirectoryScanner {
    pub base_path: String,
    pub max_depth: Option<usize>,
    pub max_results: usize,
    pub show_all: bool,
}

impl DirectoryScanner {
    /// Whether the walk, standing in a directory at `depth` (the base is at
    /// depth zero), descends into that directory's child directories rather
    /// than approximating them.
    pub open spec fn descends_from(self, depth: nat) -> bool {
        match self.max_depth {
            Option::Some(m) => depth < m,
            Option::None => true,
        }
    }

    /// Whether the policy excludes a child directory of this name outright.
    pub open spec fn skips(self, name: Seq<char>) -> bool {
        !self.show_all && spec_should_skip(name)
    }

    /// The exact byte count the scan attributes to a directory standing at
    /// `depth`: zero if it cannot be listed; otherwise its direct files
    /// plus, for each child directory the policy does not skip, that
    /// child's own attributed size.
    pub open spec fn dir_size(self, node: FsNode, depth: nat) -> nat
        decreases node, 0int,
    {
        if !node.readable {
            0
        } else {
            (node.files_size as nat) + self.subdirs_size(node.subdirs@, depth)
        }
    }

    /// The joint contribution of a run of child directories to their
    /// parent's size; the parent stands at `depth`.
    pub open spec fn subdirs_size(self, s: Seq<FsNode>, depth: nat) -> nat
        decreases s, 1int,
    {
        if s.len() == 0 {
            0
        } else {
            (if self.skips(s[0].name@) {
                0
            } else {
                self.attributed_size(s[0], depth)
            }) + self.subdirs_size(s.drop_first(), depth)
        }
    }

    /// The size attributed to one non-skipped child of a directory at
    /// `depth`: the child's full size below the depth limit, the shallow
    /// approximation at it.
    pub open spec fn attributed_size(self, c: FsNode, depth: nat) -> nat
        decreases c, 1int,
    {
        if self.descends_from(depth) {
            self.dir_size(c, next_depth(depth))
        } else {
            shallow_size(c)
        }
    }

    /// Every directory the walk offers to the retention structure while
    /// scanning `node` (standing at `depth`, reached by the path `prefix`):
    /// each child directory the policy does not skip — with its attributed
    /// size, capped the way a saturating accumulator caps it, and its path —
    /// and, below the depth limit, the candidates of that child's own
    /// subtree in turn. The node itself is not among them: a scan reports
    /// subdirectories of the base, never the base.
    pub open spec fn candidates(self, node: FsNode, prefix: Seq<char>, depth: nat) -> Multiset<
        EntryModel,
    >
        decreases node, 0int,
    {
        if !node.readable {
            Multiset::empty()
        } else {
            self.child_candidates(node.subdirs@, prefix, depth)
        }
    }

    /// The candidates contributed by a run of child directories of a
    /// directory at `depth` reached by `prefix`.
    pub open spec fn child_candidates(self, s: Seq<FsNode>, prefix: Seq<char>, depth: nat) -> Multiset<
        EntryModel,
    >
        decreases s, 1int,
    {
        if s.len() == 0 {
            Multiset::empty()
        } else {
            self.one_child_candidates(s[0], prefix, depth).add(
                self.child_candidates(s.drop_first(), prefix, depth),
            )
        }
    }

    /// The candidates contributed by one child directory `c` of a directory
    /// at `depth` reached by `prefix`: none if the policy skips it;
    /// otherwise the child itself and, below the depth limit, its subtree's
    /// candidates.
    pub open spec fn one_child_candidates(self, c: FsNode, prefix: Seq<char>, depth: nat) -> Multiset<
        EntryModel,
    >
        decreases c, 1int,
    {
        if self.skips(c.name@) {
            Multiset::empty()
        } else {
            let p = child_path(prefix, c.name@);
            let below = if self.descends_from(depth) {
                self.candidates(c, p, next_depth(depth))
            } else {
                Multiset::<EntryModel>::empty()
            };
            below.insert(
                EntryModel {
                    path: p,
                    size: clip64(self.attributed_size(c, depth) as int),
                    is_immediate_child: depth == 0,
                },
            )
        }
    }

    /// A scanner over `path` with the default policies: immediate children
    /// only, twenty results, exclusion policy active.
    pub fn new(path: &str) -> (r: DirectoryScanner)
        ensures
            r.base_path@ == path@,
            r.max_depth == Option::Some(1usize),
            r.max_results == 20usize,
            !r.show_all,
    {
        DirectoryScanner {
            base_path: path.to_owned(),
            max_depth: Some(1),
            max_results: 20,
            show_all: false,
        }
    }

    /// Lift the depth limit: the walk descends without bound.
    pub fn recursive(self) -> (r: DirectoryScanner)
        ensures
            r == (DirectoryScanner { max_depth: Option::None::<usize>, ..self }),
    {
        DirectoryScanner { max_depth: None, ..self }
    }

    /// Set the depth limit: children of directories deeper than `depth`
    /// levels below the base are approximated, not walked.
    pub fn max_depth(self, depth: usize) -> (r: DirectoryScanner)
        ensures
            r == (DirectoryScanner { max_depth: Option::Some(depth), ..self }),
    {
        DirectoryScanner { max_depth: Some(depth), ..self }
    }

    /// Switch the exclusion policy: under `show_all` hidden and deny-listed
    /// directories are walked and counted like any other.
    pub fn show_all(self, show_all: bool) -> (r: DirectoryScanner)
        ensures
            r == (DirectoryScanner { show_all, ..self }),
    {
        DirectoryScanner { show_all, ..self }
    }

    /// Exec mirror of [`DirectoryScanner::descends_from`].
    fn descends(&self, depth: usize) -> (r: bool)
        ensures
            r == self.descends_from(depth as nat),
    {
        match self.max_depth {
            Some(m) => depth < m,
            None => true,
        }
    }

    /// Extending a run of children by one child extends its joint size
    /// contribution by that child's.
    proof fn lemma_subdirs_size_snoc(self, s: Seq<FsNode>, depth: nat)
        requires
            s.len() > 0,
        ensures
            self.subdirs_size(s, depth) == self.subdirs_size(s.drop_last(), depth) + (
            if self.skips(s.last().name@) {
                0nat
            } else {
                self.attributed_size(s.last(), depth)
            }),
        decreases s.len(),
    {
        if s.len() == 1 {
            assert(s.drop_first() =~= Seq::<FsNode>::empty());
            assert(s.drop_last() =~= Seq::<FsNode>::empty());
            assert(s[0] == s.last());
        } else {
            let t = s.drop_first();
            self.lemma_subdirs_size_snoc(t, depth);
            assert(t.last() == s.last());
            assert(s.drop_last().drop_first() =~= t.drop_last());
            assert(s.drop_last()[0] == s[0]);
        }
    }

    /// Extending a run of children by one child extends its joint candidate
    /// pool by that child's.
    proof fn lemma_child_candidates_snoc(self, s: Seq<FsNode>, prefix: Seq<char>, depth: nat)
        requires
            s.len() > 0,
        ensures
            self.child_candidates(s, prefix, depth) =~= self.child_candidates(
                s.drop_last(),
                prefix,
                depth,
            ).add(self.one_child_candidates(s.last(), prefix, depth)),
        decreases s.len(),
    {
        broadcast use vstd::multiset::group_multiset_axioms;

        if s.len() == 1 {
            assert(s.drop_first() =~= Seq::<FsNode>::empty());
            assert(s.drop_last() =~= Seq::<FsNode>::empty());
            assert(s[0] == s.last());
        } else {
            let t = s.drop_first();
            self.lemma_child_candidates_snoc(t, prefix, depth);
            assert(t.last() == s.last());
            assert(s.drop_last().drop_first() =~= t.drop_last());
            assert(s.drop_last()[0] == s[0]);
        }
    }

    /// The recursive post-order walk over one directory: offer every
    /// non-skipped child directory (and, below the depth limit, its
    /// subtree's directories) to the retention structure, and return the
    /// byte size attributed to `node` itself, summed with saturation.
    fn scan_dir(&self, node: &FsNode, path: &String, depth: usize, keeper: &mut TopK) -> (size:
        u64)
        requires
            old(keeper).wf(),
        ensures
            final(keeper).wf(),
            final(keeper).cap() == old(keeper).cap(),
            final(keeper).offered() =~= old(keeper).offered().add(
                self.candidates(*node, path@, depth as nat),
            ),
            size == clip64(self.dir_size(*node, depth as nat) as int),
        decreases *node,
    {
        broadcast use vstd::multiset::group_multiset_axioms;

        if !node.readable {
            proof {
                assert(keeper.offered() =~= keeper.offered().add(
                    Multiset::<EntryModel>::empty(),
                ));
            }
            return 0;
        }
        let ghost d = depth as nat;
        let mut total: u64 = node.files_size;
        let mut i: usize = 0;
        proof {
            assert(node.subdirs@.subrange(0, 0) =~= Seq::<FsNode>::empty());
            assert(keeper.offered() =~= keeper.offered().add(Multiset::<EntryModel>::empty()));
        }
        while i < node.subdirs.len()
            invariant
                i <= node.subdirs.len(),
                keeper.wf(),
                keeper.cap() == old(keeper).cap(),
                keeper.offered() =~= old(keeper).offered().add(
                    self.child_candidates(node.subdirs@.subrange(0, i as int), path@, d),
                ),
                total == clip64(
                    node.files_size + self.subdirs_size(
                        node.subdirs@.subrange(0, i as int),
                        d,
                    ),
                ),
                d == depth as nat,
                node.readable,
            decreases node.subdirs.len() - i,
        {
            let ghost pre = node.subdirs@.subrange(0, i as int);
            let ghost cur = node.subdirs@.subrange(0, i as int + 1);
            proof {
                assert(cur.drop_last() =~= pre);
                assert(cur.last() == node.subdirs@[i as int]);
                self.lemma_subdirs_size_snoc(cur, d);
                self.lemma_child_candidates_snoc(cur, path@, d);
            }
            let child = &node.subdirs[i];
            if !self.show_all && should_skip(child.name.as_str()) {
                proof {
                    assert(self.skips(cur.last().name@));
                    assert(keeper.offered() =~= old(keeper).offered().add(
                        self.child_candidates(cur, path@, d),
                    ));
                }
            } else {
                proof {
                    assert(!self.skips(cur.last().name@));
                }
                let child_path_s = join_path(path, &child.name);
                let ghost off_pre = keeper.offered();
                let ghost total_pre = total;
                let sub_size: u64;
                if self.descends(depth) {
                    let next = if depth < usize::MAX {
                        depth + 1
                    } else {
                        depth
                    };
                    proof {
                        assert(next as nat == next_depth(d));
                    }
                    sub_size = self.scan_dir(child, &child_path_s, next, keeper);
                } else {
                    sub_size = calculate_size_no_recurse(child);
                    proof {
                        assert(keeper.offered() =~= off_pre.add(Multiset::<EntryModel>::empty()));
                    }
                }
                let ghost below = if self.descends_from(d) {
                    self.candidates(*child, child_path(path@, child.name@), next_depth(d))
                } else {
                    Multiset::<EntryModel>::empty()
                };
                let ghost model = EntryModel {
                    path: child_path(path@, child.name@),
                    size: clip64(self.attributed_size(*child, d) as int),
                    is_immediate_child: d == 0,
                };
                proof {
                    assert(sub_size == clip64(self.attributed_size(*child, d) as int));
                    assert(keeper.offered() =~= off_pre.add(below));
                }
                let entry = DirectoryEntry {
                    path: child_path_s,
                    size: sub_size,
                    is_immediate_child: depth == 0,
                };
                proof {
                    assert(entry@ == model);
                }
                keeper.offer(entry);
                total = total.saturating_add(sub_size);
                proof {
                    assert(self.one_child_candidates(cur.last(), path@, d) =~= below.insert(
                        model,
                    ));
                    assert(keeper.offered() =~= old(keeper).offered().add(
                        self.child_candidates(cur, path@, d),
                    ));
                    let fs = node.files_size as int;
                    let sp = self.subdirs_size(pre, d) as int;
                    let at = self.attributed_size(cur.last(), d) as int;
                    assert(self.subdirs_size(cur, d) == sp + at);
                    assert(total_pre == clip64(fs + sp));
                    assert(sub_size == clip64(at));
                    assert(total == clip64(fs + sp + at));
                }
            }
            i += 1;
            proof {
                assert(node.subdirs@.subrange(0, i as int) =~= cur);
            }
        }
        proof {
            assert(node.subdirs@.subrange(0, node.subdirs@.len() as int) =~= node.subdirs@);
        }
        total
    }

    /// Run one scan over the tree rooted at `root` (standing for the
    /// configured base path) and return the retained directories, largest
    /// first. A base that cannot be listed is the one fatal error; an empty
    /// result (a base without subdirectories) is not an error.
    pub fn scan(&self, root: &FsNode) -> (r: Result<Vec<DirectoryEntry>, ScanError>)
        ensures
            r is Ok <==> root.readable,
            r matches Ok(v) ==> is_top_selection(
                models_of(v@),
                self.candidates(*root, self.base_path@, 0),
                self.max_results as int,
                size_key(),
            ),
            r matches Err(e) ==> e == ScanError::RootUnreadable,
    {
        broadcast use vstd::multiset::group_multiset_axioms;

        if !root.readable {
            return Err(ScanError::RootUnreadable);
        }
        let mut keeper = TopK::new(self.max_results);
        let _root_size = self.scan_dir(root, &self.base_path, 0, &mut keeper);
        proof {
            assert(keeper.offered() =~= self.candidates(*root, self.base_path@, 0));
        }
        let results = keeper.into_sorted_desc();
        Ok(results)
    }
}

/// The plain recursive byte size of a tree: every file at or below `node`,
/// nothing excluded, nothing approximated; zero at and below a directory
/// that cannot be listed.
pub open spec fn full_size(node: FsNode) -> nat
    decreases node, 0int,
{
    if !node.readable {
        0
    } else {
        (node.files_size as nat) + full_size_of(node.subdirs@)
    }
}

/// The joint plain recursive size of a run of directories.
pub open spec fn full_size_of(s: Seq<FsNode>) -> nat
    decreases s, 1int,
{
    if s.len() == 0 {
        0
    } else {
        full_size(s[0]) + full_size_of(s.drop_first())
    }
}

impl DirectoryScanner {
    /// An unlimited, unfiltered scan attributes to every directory its
    /// plain recursive size: the approximation at the depth limit and the
    /// exclusion policy are the only sources of deviation from the
    /// brute-force sum.
    pub proof fn lemma_unbounded_size_is_full(self, node: FsNode, depth: nat)
        requires
            self.max_depth is None,
            self.show_all,
        ensures
            self.dir_size(node, depth) == full_size(node),
        decreases node, 0int,
    {
        if node.readable {
            self.lemma_unbounded_subdirs_size_is_full(node.subdirs@, depth);
        }
    }

    proof fn lemma_unbounded_subdirs_size_is_full(self, s: Seq<FsNode>, depth: nat)
        requires
            self.max_depth is None,
            self.show_all,
        ensures
            self.subdirs_size(s, depth) == full_size_of(s),
        decreases s, 1int,
    {
        if s.len() > 0 {
            self.lemma_unbounded_size_is_full(s[0], next_depth(depth));
            self.lemma_unbounded_subdirs_size_is_full(s.drop_first(), depth);
            assert(!self.skips(s[0].name@));
            assert(self.descends_from(depth));
            assert(self.attributed_size(s[0], depth) == self.dir_size(s[0], next_depth(depth)));
            assert(self.subdirs_size(s, depth) == self.attributed_size(s[0], depth)
                + self.subdirs_size(s.drop_first(), depth));
            assert(full_size_of(s) == full_size(s[0]) + full_size_of(s.drop_first()));
        }
    }

    /// A tree that yields no more candidates than `max_results` is
    /// reported whole: such a scan drops nothing, it only orders.
    pub proof fn lemma_small_tree_complete(self, res: Seq<EntryModel>, root: FsNode)
        requires
            is_top_selection(
                res,
                self.candidates(root, self.base_path@, 0),
                self.max_results as int,
                size_key(),
            ),
            self.candidates(root, self.base_path@, 0).len() <= self.max_results,
        ensures
            res.to_multiset() =~= self.candidates(root, self.base_path@, 0),
    {
        crate::ranked::lemma_top_selection_complete(
            res,
            self.candidates(root, self.base_path@, 0),
            self.max_results as int,
            size_key(),
        );
    }
}

/// The size a directory is approximated by when the walk does not descend
/// into it: the total of its direct files alone, zero if it cannot be
/// listed. A distinct code path on purpose — the approximation at the depth
/// limit is part of the scanner's contract, not an accident of the general
/// recursion.
pub fn calculate_size_no_recurse(c: &FsNode) -> (r: u64)
    ensures
        r == clip64(shallow_size(*c) as int),
{
    if c.readable {
        c.files_size
    } else {
        0
    }
}

/// Join a parent path and a child name with a separator.
fn join_path(prefix: &String, name: &String) -> (r: String)
    ensures
        r@ == child_path(prefix@, name@),
{
    let mut p = prefix.clone();
    p.append("/");
    p.append(name.as_str());
    p
}

} // verus!
