//! The tree builder and renderer: turns a filesystem snapshot into a
//! filtered, depth-limited, deterministically sorted tree, and renders the
//! tree to lines of text.
use vstd::prelude::*;
use crate::strings::{
    is_hidden_name, lemma_concat_no_breaks, lemma_lex_le_total, lemma_lex_le_trans,
    lemma_lines_from_line, lemma_repeat_no_breaks, lex_le, name_is_hidden, no_breaks, repeat_seq,
    repeat_str, split_lines, str_lex_le,
};
use crate::utils::{ignore_matched, IgnoreSet};

verus! {

/// One filesystem entry as the scanner found it: full path, base name,
/// whether it is a directory, and its immediate entries in raw discovery
/// order, unfiltered.
pub struct FsEntry {
    pub path: String,
    pub name: String,
    pub is_dir: bool,
    pub entries: Vec<FsEntry>,
}

/// The mathematical shape of a scanned entry.
pub ghost struct FsEntryView {
    pub path: Seq<char>,
    pub name: Seq<char>,
    pub is_dir: bool,
    pub entries: Seq<FsEntryView>,
}

impl View for FsEntry {
    type V = FsEntryView;

    open spec fn view(&self) -> FsEntryView
        decreases self,
    {
        FsEntryView {
            path: self.path@,
            name: self.name@,
            is_dir: self.is_dir,
            entries: fs_views_of(self.entries@),
        }
    }
}

/// The views of a sequence of scanned entries, in order.
pub open spec fn fs_views_of(s: Seq<FsEntry>) -> Seq<FsEntryView>
    decreases s, s.len(),
{
    if s.len() == 0 {
        Seq::empty()
    } else {
        seq![s[0]@] + fs_views_of(s.drop_first())
    }
}

pub proof fn lemma_fs_views_of(s: Seq<FsEntry>)
    ensures
        fs_views_of(s).len() == s.len(),
        forall|i: int| 0 <= i < s.len() ==> fs_views_of(s)[i] == s[i]@,
    decreases s.len(),
{
    if s.len() != 0 {
        lemma_fs_views_of(s.drop_first());
        assert(fs_views_of(s) == seq![s[0]@] + fs_views_of(s.drop_first()));
        assert forall|i: int| 0 <= i < s.len() implies fs_views_of(s)[i] == s[i]@ by {
            if i > 0 {
                assert(fs_views_of(s)[i] == fs_views_of(s.drop_first())[i - 1]);
                assert(s.drop_first()[i - 1] == s[i]);
            }
        }
    }
}

/// One node of the built tree: the entry it stands for, its distance from
/// the node where construction began, and its filtered, sorted children.
pub struct FileTree {
    pub path: String,
    pub name: String,
    pub is_dir: bool,
    pub depth: usize,
    pub children: Vec<FileTree>,
}

/// The mathematical shape of a built tree node.
pub ghost struct TreeView {
    pub path: Seq<char>,
    pub name: Seq<char>,
    pub is_dir: bool,
    pub depth: nat,
    pub children: Seq<TreeView>,
}

impl View for FileTree {
    type V = TreeView;

    open spec fn view(&self) -> TreeView
        decreases self,
    {
        TreeView {
            path: self.path@,
            name: self.name@,
            is_dir: self.is_dir,
            depth: self.depth as nat,
            children: tree_views_of(self.children@),
        }
    }
}

/// The views of a sequence of tree nodes, in order.
pub open spec fn tree_views_of(s: Seq<FileTree>) -> Seq<TreeView>
    decreases s, s.len(),
{
    if s.len() == 0 {
        Seq::empty()
    } else {
        seq![s[0]@] + tree_views_of(s.drop_first())
    }
}

pub proof fn lemma_tree_views_of(s: Seq<FileTree>)
    ensures
        tree_views_of(s).len() == s.len(),
        forall|i: int| 0 <= i < s.len() ==> tree_views_of(s)[i] == s[i]@,
    decreases s.len(),
{
    if s.len() != 0 {
        lemma_tree_views_of(s.drop_first());
        assert(tree_views_of(s) == seq![s[0]@] + tree_views_of(s.drop_first()));
        assert forall|i: int| 0 <= i < s.len() implies tree_views_of(s)[i] == s[i]@ by {
            if i > 0 {
                assert(tree_views_of(s)[i] == tree_views_of(s.drop_first())[i - 1]);
                assert(s.drop_first()[i - 1] == s[i]);
            }
        }
    }
}

/// An entry survives filtering when it is neither a hidden entry excluded by
/// `include_hidden == false` nor an ignore-matched entry excluded by
/// `include_git_ignored == false`.
pub open spec fn included(
    name: Seq<char>,
    path: Seq<char>,
    ignore: Set<Seq<char>>,
    include_hidden: bool,
    include_git_ignored: bool,
) -> bool {
    &&& !(is_hidden_name(name) && !include_hidden)
    &&& !(!include_git_ignored && ignore_matched(ignore, path))
}

/// Sibling order: directories before files; within one kind, ascending
/// lexicographic order of the full path.
pub open spec fn tree_le(a: TreeView, b: TreeView) -> bool {
    if a.is_dir != b.is_dir {
        a.is_dir
    } else {
        lex_le(a.path, b.path)
    }
}

pub proof fn lemma_tree_le_total(a: TreeView, b: TreeView)
    ensures
        tree_le(a, b) || tree_le(b, a),
{
    if a.is_dir == b.is_dir {
        lemma_lex_le_total(a.path, b.path);
    }
}

pub proof fn lemma_tree_le_trans(a: TreeView, b: TreeView, c: TreeView)
    requires
        tree_le(a, b),
        tree_le(b, c),
    ensures
        tree_le(a, c),
{
    if a.is_dir == b.is_dir && b.is_dir == c.is_dir {
        lemma_lex_le_trans(a.path, b.path, c.path);
    }
}

/// `t` placed at its position in an already sorted sequence.
pub open spec fn insert_sorted(t: TreeView, s: Seq<TreeView>) -> Seq<TreeView>
    decreases s.len(),
{
    if s.len() == 0 {
        seq![t]
    } else if tree_le(t, s[0]) {
        seq![t] + s
    } else {
        seq![s[0]] + insert_sorted(t, s.drop_first())
    }
}

/// Insertion sort under `tree_le`.
pub open spec fn sort_trees(s: Seq<TreeView>) -> Seq<TreeView>
    decreases s.len(),
{
    if s.len() == 0 {
        Seq::empty()
    } else {
        insert_sorted(s[0], sort_trees(s.drop_first()))
    }
}

/// The node that building `e` yields: `path`, `name` and `is_dir` taken from
/// the entry; `depth` as handed in; children only while the budget lasts,
/// each surviving entry built with one budget step less and one depth step
/// more, and the results sorted under `tree_le`.
pub open spec fn build_view(
    e: FsEntryView,
    budget: nat,
    ignore: Set<Seq<char>>,
    include_hidden: bool,
    include_git_ignored: bool,
    depth: nat,
) -> TreeView
    decreases e,
{
    TreeView {
        path: e.path,
        name: e.name,
        is_dir: e.is_dir,
        depth,
        children: if budget == 0 {
            Seq::empty()
        } else {
            sort_trees(
                build_children(
                    e.entries,
                    (budget - 1) as nat,
                    ignore,
                    include_hidden,
                    include_git_ignored,
                    depth + 1,
                ),
            )
        },
    }
}

/// The surviving entries of `es`, built in order, not yet sorted.
pub open spec fn build_children(
    es: Seq<FsEntryView>,
    budget: nat,
    ignore: Set<Seq<char>>,
    include_hidden: bool,
    include_git_ignored: bool,
    depth: nat,
) -> Seq<TreeView>
    decreases es, es.len(),
{
    if es.len() == 0 {
        Seq::empty()
    } else {
        let rest = build_children(
            es.drop_first(),
            budget,
            ignore,
            include_hidden,
            include_git_ignored,
            depth,
        );
        if included(es[0].name, es[0].path, ignore, include_hidden, include_git_ignored) {
            seq![build_view(es[0], budget, ignore, include_hidden, include_git_ignored, depth)]
                + rest
        } else {
            rest
        }
    }
}

/// Appending one entry extends the built children by at most that entry.
pub proof fn lemma_build_children_push(
    es: Seq<FsEntryView>,
    e: FsEntryView,
    budget: nat,
    ignore: Set<Seq<char>>,
    include_hidden: bool,
    include_git_ignored: bool,
    depth: nat,
)
    ensures
        build_children(es.push(e), budget, ignore, include_hidden, include_git_ignored, depth)
            == build_children(es, budget, ignore, include_hidden, include_git_ignored, depth) + (
        if included(e.name, e.path, ignore, include_hidden, include_git_ignored) {
            seq![build_view(e, budget, ignore, include_hidden, include_git_ignored, depth)]
        } else {
            Seq::<TreeView>::empty()
        }),
    decreases es.len(),
{
    let whole = es.push(e);
    let empty = Seq::<FsEntryView>::empty();
    if es.len() == 0 {
        assert(whole[0] == e);
        assert(whole.drop_first() =~= empty);
        assert(build_children(empty, budget, ignore, include_hidden, include_git_ignored, depth)
            == Seq::<TreeView>::empty());
        assert(es =~= empty);
        if included(e.name, e.path, ignore, include_hidden, include_git_ignored) {
            assert(build_children(
                whole,
                budget,
                ignore,
                include_hidden,
                include_git_ignored,
                depth,
            ) =~= seq![
                build_view(e, budget, ignore, include_hidden, include_git_ignored, depth),
            ]);
        }
    } else {
        assert(whole[0] == es[0]);
        assert(whole.drop_first() =~= es.drop_first().push(e));
        lemma_build_children_push(
            es.drop_first(),
            e,
            budget,
            ignore,
            include_hidden,
            include_git_ignored,
            depth,
        );
        assert(build_children(whole, budget, ignore, include_hidden, include_git_ignored, depth)
            =~= build_children(es, budget, ignore, include_hidden, include_git_ignored, depth) + (
        if included(e.name, e.path, ignore, include_hidden, include_git_ignored) {
            seq![build_view(e, budget, ignore, include_hidden, include_git_ignored, depth)]
        } else {
            Seq::<TreeView>::empty()
        }));
    }
}

/// Where `t` goes in a sequence whose prefix it does not precede.
pub proof fn lemma_insert_sorted_split(t: TreeView, s: Seq<TreeView>, i: int)
    requires
        0 <= i <= s.len(),
        forall|j: int| 0 <= j < i ==> !tree_le(t, #[trigger] s[j]),
        i < s.len() ==> tree_le(t, s[i]),
    ensures
        insert_sorted(t, s) == s.take(i) + seq![t] + s.skip(i),
    decreases i,
{
    if i == 0 {
        assert(insert_sorted(t, s) =~= s.take(0) + seq![t] + s.skip(0));
    } else {
        assert(!tree_le(t, s[0]));
        let d = s.drop_first();
        assert forall|j: int| 0 <= j < i - 1 implies !tree_le(t, #[trigger] d[j]) by {
            assert(d[j] == s[j + 1]);
        }
        assert(i - 1 < d.len() ==> tree_le(t, d[i - 1]));
        lemma_insert_sorted_split(t, d, i - 1);
        assert(insert_sorted(t, s) == seq![s[0]] + (d.take(i - 1) + seq![t] + d.skip(i - 1)));
        assert(seq![s[0]] + (d.take(i - 1) + seq![t] + d.skip(i - 1)) =~= s.take(i) + seq![t]
            + s.skip(i));
    }
}

impl FileTree {
    /// Builds the tree for `entry`. `depth` is the depth budget: how many
    /// levels below `entry` may be explored; the node for `entry` itself
    /// carries depth 0 and its descendants count upward from there.
    pub fn new(
        entry: &FsEntry,
        depth: usize,
        ignore: &IgnoreSet,
        include_hidden: bool,
        include_git_ignored: bool,
    ) -> (r: FileTree)
        ensures
            r@ == build_view(
                entry@,
                depth as nat,
                ignore@,
                include_hidden,
                include_git_ignored,
                0,
            ),
    {
        Self::build_at(entry, depth, ignore, include_hidden, include_git_ignored, 0)
    }

    /// Builds the node for `entry` at distance `depth` from the construction
    /// root, with `budget` levels left to explore below it.
    fn build_at(
        entry: &FsEntry,
        budget: usize,
        ignore: &IgnoreSet,
        include_hidden: bool,
        include_git_ignored: bool,
        depth: usize,
    ) -> (r: FileTree)
        requires
            depth + budget <= usize::MAX,
        ensures
            r@ == build_view(
                entry@,
                budget as nat,
                ignore@,
                include_hidden,
                include_git_ignored,
                depth as nat,
            ),
        decreases budget,
    {
        let mut children: Vec<FileTree> = Vec::new();
        assert(tree_views_of(children@) == Seq::<TreeView>::empty());
        if budget > 0 {
            let ghost evs = fs_views_of(entry.entries@);
            proof {
                lemma_fs_views_of(entry.entries@);
                assert(evs.take(0) =~= Seq::<FsEntryView>::empty());
            }
            let n = entry.entries.len();
            let mut i: usize = 0;
            while i < n
                invariant
                    1 <= budget,
                    depth + budget <= usize::MAX,
                    n == entry.entries@.len(),
                    i <= n,
                    evs == fs_views_of(entry.entries@),
                    evs.len() == n,
                    forall|j: int| 0 <= j < n ==> evs[j] == entry.entries@[j]@,
                    tree_views_of(children@) == build_children(
                        evs.take(i as int),
                        (budget - 1) as nat,
                        ignore@,
                        include_hidden,
                        include_git_ignored,
                        (depth + 1) as nat,
                    ),
                decreases n - i,
            {
                let e = &entry.entries[i];
                let hid = name_is_hidden(e.name.as_str());
                let ign = ignore.matches(e.path.as_str());
                let ghost prev_vec = children@;
                let ghost prev = tree_views_of(children@);
                if !(hid && !include_hidden) && !(!include_git_ignored && ign) {
                    let sub = Self::build_at(
                        e,
                        budget - 1,
                        ignore,
                        include_hidden,
                        include_git_ignored,
                        depth + 1,
                    );
                    children.push(sub);
                    proof {
                        lemma_tree_views_of(prev_vec);
                        lemma_tree_views_of(children@);
                        assert(tree_views_of(children@) =~= prev.push(
                            build_view(
                                evs[i as int],
                                (budget - 1) as nat,
                                ignore@,
                                include_hidden,
                                include_git_ignored,
                                (depth + 1) as nat,
                            ),
                        ));
                    }
                }
                proof {
                    assert(evs.take(i + 1) =~= evs.take(i as int).push(evs[i as int]));
                    lemma_build_children_push(
                        evs.take(i as int),
                        evs[i as int],
                        (budget - 1) as nat,
                        ignore@,
                        include_hidden,
                        include_git_ignored,
                        (depth + 1) as nat,
                    );
                    assert(tree_views_of(children@) =~= build_children(
                        evs.take(i + 1),
                        (budget - 1) as nat,
                        ignore@,
                        include_hidden,
                        include_git_ignored,
                        (depth + 1) as nat,
                    ));
                }
                i = i + 1;
            }
            proof {
                assert(evs.take(n as int) =~= evs);
            }
            children = Self::sort_children(children);
        }
        let r = FileTree {
            path: entry.path.clone(),
            name: entry.name.clone(),
            is_dir: entry.is_dir,
            depth,
            children,
        };
        proof {
            assert(r@ =~~= build_view(
                entry@,
                budget as nat,
                ignore@,
                include_hidden,
                include_git_ignored,
                depth as nat,
            ));
        }
        r
    }

    /// Compares two nodes in sibling order.
    fn le(a: &FileTree, b: &FileTree) -> (r: bool)
        ensures
            r == tree_le(a@, b@),
    {
        if a.is_dir != b.is_dir {
            a.is_dir
        } else {
            str_lex_le(a.path.as_str(), b.path.as_str())
        }
    }

    /// The position in sorted sibling order at which `t` belongs.
    fn insert_position(t: &FileTree, sorted: &Vec<FileTree>) -> (i: usize)
        ensures
            i <= sorted@.len(),
            forall|j: int| 0 <= j < i ==> !tree_le(t@, #[trigger] tree_views_of(sorted@)[j]),
            i < sorted@.len() ==> tree_le(t@, tree_views_of(sorted@)[i as int]),
    {
        proof {
            lemma_tree_views_of(sorted@);
        }
        let mut i: usize = 0;
        while i < sorted.len()
            invariant
                i <= sorted@.len(),
                tree_views_of(sorted@).len() == sorted@.len(),
                forall|j: int| 0 <= j < sorted@.len() ==> tree_views_of(sorted@)[j]
                    == sorted@[j]@,
                forall|j: int| 0 <= j < i ==> !tree_le(t@, #[trigger] tree_views_of(sorted@)[j]),
            decreases sorted@.len() - i,
        {
            if Self::le(t, &sorted[i]) {
                return i;
            }
            i = i + 1;
        }
        i
    }

    /// Inserts `t` at its position in an already sorted vector.
    fn insert_child(sorted: &mut Vec<FileTree>, t: FileTree)
        ensures
            tree_views_of(final(sorted)@) == insert_sorted(t@, tree_views_of(old(sorted)@)),
    {
        let ghost sv = tree_views_of(old(sorted)@);
        let i = Self::insert_position(&t, sorted);
        let ghost tv = t@;
        sorted.insert(i, t);
        proof {
            lemma_tree_views_of(old(sorted)@);
            lemma_tree_views_of(sorted@);
            lemma_insert_sorted_split(tv, sv, i as int);
            assert(tree_views_of(sorted@) =~= sv.take(i as int) + seq![tv] + sv.skip(i as int));
        }
    }

    /// Sorts siblings: directories first, then ascending path order.
    fn sort_children(v: Vec<FileTree>) -> (r: Vec<FileTree>)
        ensures
            tree_views_of(r@) == sort_trees(tree_views_of(v@)),
    {
        let ghost orig = v@;
        let mut src = v;
        let mut acc: Vec<FileTree> = Vec::new();
        proof {
            assert(src@ =~= orig.take(src@.len() as int));
            assert(orig.skip(orig.len() as int) =~= Seq::<FileTree>::empty());
            assert(tree_views_of(acc@) == sort_trees(
                tree_views_of(orig.skip(src@.len() as int)),
            ));
        }
        while src.len() > 0
            invariant
                src@.len() <= orig.len(),
                src@ == orig.take(src@.len() as int),
                tree_views_of(acc@) == sort_trees(tree_views_of(orig.skip(src@.len() as int))),
            decreases src@.len(),
        {
            let ghost m = src@.len() as int;
            let t = src.pop().unwrap();
            proof {
                assert(src@ =~= orig.take(m - 1));
                assert(t == orig[m - 1]);
                lemma_tree_views_of(orig.skip(m - 1));
                lemma_tree_views_of(orig.skip(m));
                assert(tree_views_of(orig.skip(m - 1)).drop_first() =~= tree_views_of(
                    orig.skip(m),
                ));
                assert(tree_views_of(orig.skip(m - 1))[0] == t@);
                assert(sort_trees(tree_views_of(orig.skip(m - 1))) == insert_sorted(
                    t@,
                    sort_trees(tree_views_of(orig.skip(m))),
                ));
            }
            Self::insert_child(&mut acc, t);
        }
        proof {
            assert(orig.skip(0) =~= orig);
            assert(orig.take(0) =~= Seq::<FileTree>::empty());
        }
        acc
    }
}

/// One rendered line: its text and whether it stands for a directory (so a
/// console sink can color it).
pub struct RenderLine {
    pub text: String,
    pub is_dir: bool,
}

/// The mathematical shape of a rendered line.
pub ghost struct LineView {
    pub text: Seq<char>,
    pub is_dir: bool,
}

impl View for RenderLine {
    type V = LineView;

    open spec fn view(&self) -> LineView {
        LineView { text: self.text@, is_dir: self.is_dir }
    }
}

/// The line of one node: the spacer repeated `depth` times, the prefix, the
/// base name, and a trailing slash on a directory.
pub open spec fn render_node(t: TreeView, spacer: Seq<char>, prefix: Seq<char>) -> LineView {
    LineView {
        text: repeat_seq(spacer, t.depth) + prefix + t.name + (if t.is_dir {
            seq!['/']
        } else {
            Seq::empty()
        }),
        is_dir: t.is_dir,
    }
}

/// The lines of a tree in pre-order: the node first, then its children in
/// their sorted order.
pub open spec fn render_lines_view(t: TreeView, spacer: Seq<char>, prefix: Seq<char>) -> Seq<
    LineView,
>
    decreases t,
{
    seq![render_node(t, spacer, prefix)] + render_children_views(t.children, spacer, prefix)
}

/// The lines of a sequence of trees, in order.
pub open spec fn render_children_views(
    ts: Seq<TreeView>,
    spacer: Seq<char>,
    prefix: Seq<char>,
) -> Seq<LineView>
    decreases ts, ts.len(),
{
    if ts.len() == 0 {
        Seq::empty()
    } else {
        render_lines_view(ts[0], spacer, prefix) + render_children_views(
            ts.drop_first(),
            spacer,
            prefix,
        )
    }
}

/// Appending one tree appends its lines.
pub proof fn lemma_render_children_push(
    ts: Seq<TreeView>,
    t: TreeView,
    spacer: Seq<char>,
    prefix: Seq<char>,
)
    ensures
        render_children_views(ts.push(t), spacer, prefix) == render_children_views(
            ts,
            spacer,
            prefix,
        ) + render_lines_view(t, spacer, prefix),
    decreases ts.len(),
{
    let whole = ts.push(t);
    if ts.len() == 0 {
        assert(whole[0] == t);
        assert(whole.drop_first() =~= Seq::<TreeView>::empty());
        assert(render_children_views(whole.drop_first(), spacer, prefix)
            == Seq::<LineView>::empty());
        assert(render_children_views(whole, spacer, prefix) =~= render_children_views(
            ts,
            spacer,
            prefix,
        ) + render_lines_view(t, spacer, prefix));
    } else {
        assert(whole[0] == ts[0]);
        assert(whole.drop_first() =~= ts.drop_first().push(t));
        lemma_render_children_push(ts.drop_first(), t, spacer, prefix);
        assert(render_children_views(whole, spacer, prefix) =~= render_children_views(
            ts,
            spacer,
            prefix,
        ) + render_lines_view(t, spacer, prefix));
    }
}

/// Lines joined into one text, every line followed by a line feed.
pub open spec fn lines_text(lines: Seq<LineView>) -> Seq<char>
    decreases lines.len(),
{
    if lines.len() == 0 {
        Seq::empty()
    } else {
        lines[0].text + seq!['\n'] + lines_text(lines.drop_first())
    }
}

/// Joining distributes over concatenation of line sequences.
pub proof fn lemma_lines_text_concat(a: Seq<LineView>, b: Seq<LineView>)
    ensures
        lines_text(a + b) == lines_text(a) + lines_text(b),
    decreases a.len(),
{
    if a.len() == 0 {
        assert(a + b =~= b);
        assert(lines_text(a) + lines_text(b) =~= lines_text(b));
    } else {
        assert((a + b).drop_first() =~= a.drop_first() + b);
        assert((a + b)[0] == a[0]);
        lemma_lines_text_concat(a.drop_first(), b);
        assert(lines_text(a + b) =~= lines_text(a) + lines_text(b));
    }
}

impl FileTree {
    /// The rendered lines of this tree, in pre-order.
    pub fn render_lines(&self, spacer: &str, prefix: &str) -> (r: Vec<RenderLine>)
        ensures
            r@.map_values(|l: RenderLine| l@) == render_lines_view(self@, spacer@, prefix@),
    {
        let mut out: Vec<RenderLine> = Vec::new();
        proof {
            assert(out@.map_values(|l: RenderLine| l@) =~= Seq::<LineView>::empty());
        }
        self.render_into(spacer, prefix, &mut out);
        out
    }

    /// Appends the rendered lines of this tree to `out`.
    fn render_into(&self, spacer: &str, prefix: &str, out: &mut Vec<RenderLine>)
        ensures
            final(out)@.map_values(|l: RenderLine| l@) == old(out)@.map_values(
                |l: RenderLine| l@,
            ) + render_lines_view(self@, spacer@, prefix@),
        decreases self,
    {
        let mut text = repeat_str(spacer, self.depth);
        text.append(prefix);
        text.append(self.name.as_str());
        if self.is_dir {
            text.append("/");
            proof {
                reveal_strlit("/");
                assert(("/")@ =~= seq!['/']);
            }
        }
        proof {
            assert(text@ =~= render_node(self@, spacer@, prefix@).text);
        }
        let line = RenderLine { text, is_dir: self.is_dir };
        let ghost base = out@.map_values(|l: RenderLine| l@);
        out.push(line);
        proof {
            assert(out@.map_values(|l: RenderLine| l@) =~= base + seq![
                render_node(self@, spacer@, prefix@),
            ]);
            lemma_tree_views_of(self.children@);
            assert(tree_views_of(self.children@).take(0) =~= Seq::<TreeView>::empty());
        }
        let ghost cvs = tree_views_of(self.children@);
        let mut i: usize = 0;
        while i < self.children.len()
            invariant
                i <= self.children@.len(),
                cvs == tree_views_of(self.children@),
                cvs.len() == self.children@.len(),
                forall|j: int| 0 <= j < self.children@.len() ==> cvs[j] == self.children@[j]@,
                out@.map_values(|l: RenderLine| l@) == base + seq![
                    render_node(self@, spacer@, prefix@),
                ] + render_children_views(cvs.take(i as int), spacer@, prefix@),
            decreases self.children@.len() - i,
        {
            self.children[i].render_into(spacer, prefix, out);
            proof {
                assert(cvs.take(i + 1) =~= cvs.take(i as int).push(cvs[i as int]));
                lemma_render_children_push(cvs.take(i as int), cvs[i as int], spacer@, prefix@);
                assert(base + seq![render_node(self@, spacer@, prefix@)]
                    + render_children_views(cvs.take(i as int), spacer@, prefix@)
                    + render_lines_view(cvs[i as int], spacer@, prefix@) =~= base + seq![
                    render_node(self@, spacer@, prefix@),
                ] + render_children_views(cvs.take(i + 1), spacer@, prefix@));
            }
            i = i + 1;
        }
        proof {
            assert(cvs.take(cvs.len() as int) =~= cvs);
            assert(base + seq![render_node(self@, spacer@, prefix@)] + render_children_views(
                cvs,
                spacer@,
                prefix@,
            ) =~= base + render_lines_view(self@, spacer@, prefix@));
        }
    }

    /// Appends the rendered text of this tree to `output`: the pre-order
    /// lines, each followed by a line feed.
    pub fn build_string(&self, output: &mut String, spacer: &str, prefix: &str)
        ensures
            final(output)@ == old(output)@ + lines_text(
                render_lines_view(self@, spacer@, prefix@),
            ),
    {
        let lines = self.render_lines(spacer, prefix);
        let ghost lvs = lines@.map_values(|l: RenderLine| l@);
        let ghost base = output@;
        proof {
            assert(lvs.take(0) =~= Seq::<LineView>::empty());
            assert(base + lines_text(lvs.take(0)) =~= base);
        }
        let mut i: usize = 0;
        while i < lines.len()
            invariant
                i <= lines@.len(),
                lvs == lines@.map_values(|l: RenderLine| l@),
                output@ == base + lines_text(lvs.take(i as int)),
            decreases lines@.len() - i,
        {
            output.append(lines[i].text.as_str());
            output.append("\n");
            proof {
                reveal_strlit("\n");
                assert(("\n")@ =~= seq!['\n']);
                assert(lvs.take(i + 1) =~= lvs.take(i as int).push(lvs[i as int]));
                lemma_lines_text_concat(lvs.take(i as int), seq![lvs[i as int]]);
                assert(lvs.take(i as int).push(lvs[i as int]) =~= lvs.take(i as int) + seq![
                    lvs[i as int],
                ]);
                assert(seq![lvs[i as int]].drop_first() =~= Seq::<LineView>::empty());
                assert(lines_text(Seq::<LineView>::empty()) == Seq::<char>::empty());
                assert(lines_text(seq![lvs[i as int]]) == lvs[i as int].text + seq!['\n']
                    + lines_text(seq![lvs[i as int]].drop_first()));
                assert(lines_text(seq![lvs[i as int]]) =~= lvs[i as int].text + seq!['\n']);
                assert(output@ =~= base + lines_text(lvs.take(i + 1)));
            }
            i = i + 1;
        }
        proof {
            assert(lvs.take(lvs.len() as int) =~= lvs);
        }
    }
}

/// Membership in a concatenation.
proof fn lemma_concat_contains<A>(a: Seq<A>, b: Seq<A>, x: A)
    ensures
        (a + b).contains(x) <==> a.contains(x) || b.contains(x),
{
    if (a + b).contains(x) {
        let i = choose|i: int| 0 <= i < (a + b).len() && (a + b)[i] == x;
        if i < a.len() {
            assert(a[i] == x);
        } else {
            assert(b[i - a.len()] == x);
        }
    }
    if a.contains(x) {
        let i = choose|i: int| 0 <= i < a.len() && a[i] == x;
        assert((a + b)[i] == x);
    }
    if b.contains(x) {
        let i = choose|i: int| 0 <= i < b.len() && b[i] == x;
        assert((a + b)[a.len() + i] == x);
    }
}

/// A non-empty sequence holds its head and the members of its tail.
proof fn lemma_head_tail_contains<A>(s: Seq<A>, x: A)
    requires
        s.len() > 0,
    ensures
        s.contains(x) <==> x == s[0] || s.drop_first().contains(x),
{
    assert(s =~= seq![s[0]] + s.drop_first());
    lemma_concat_contains(seq![s[0]], s.drop_first(), x);
}

/// Insertion adds exactly the inserted node to the members.
proof fn lemma_insert_sorted_contains(t: TreeView, s: Seq<TreeView>, x: TreeView)
    ensures
        insert_sorted(t, s).contains(x) <==> x == t || s.contains(x),
    decreases s.len(),
{
    if s.len() == 0 {
        assert(insert_sorted(t, s) == seq![t]);
        assert(seq![t][0] == t);
        if x == t {
            assert(seq![t].contains(x));
        }
        if seq![t].contains(x) {
            let i = choose|i: int| 0 <= i < 1 && seq![t][i] == x;
            assert(x == t);
        }
    } else if tree_le(t, s[0]) {
        assert(insert_sorted(t, s) == seq![t] + s);
        lemma_concat_contains(seq![t], s, x);
        if seq![t].contains(x) {
            let i = choose|i: int| 0 <= i < 1 && seq![t][i] == x;
            assert(x == t);
        }
        if x == t {
            assert(seq![t][0] == x);
            assert(seq![t].contains(x));
        }
    } else {
        assert(insert_sorted(t, s) == seq![s[0]] + insert_sorted(t, s.drop_first()));
        lemma_concat_contains(seq![s[0]], insert_sorted(t, s.drop_first()), x);
        lemma_insert_sorted_contains(t, s.drop_first(), x);
        lemma_head_tail_contains(s, x);
        if seq![s[0]].contains(x) {
            let i = choose|i: int| 0 <= i < 1 && seq![s[0]][i] == x;
            assert(x == s[0]);
        }
        if x == s[0] {
            assert(seq![s[0]][0] == x);
            assert(seq![s[0]].contains(x));
        }
    }
}

/// Sorting keeps exactly the members.
proof fn lemma_sort_trees_contains(s: Seq<TreeView>, x: TreeView)
    ensures
        sort_trees(s).contains(x) <==> s.contains(x),
    decreases s.len(),
{
    if s.len() != 0 {
        lemma_sort_trees_contains(s.drop_first(), x);
        lemma_insert_sorted_contains(s[0], sort_trees(s.drop_first()), x);
        lemma_head_tail_contains(s, x);
    }
}

/// The members of the unsorted children: exactly one node per surviving
/// entry, built one level deeper.
proof fn lemma_build_children_members(
    es: Seq<FsEntryView>,
    budget: nat,
    ignore: Set<Seq<char>>,
    include_hidden: bool,
    include_git_ignored: bool,
    depth: nat,
    x: TreeView,
)
    ensures
        build_children(es, budget, ignore, include_hidden, include_git_ignored, depth).contains(x)
            <==> exists|i: int|
            0 <= i < es.len() && included(
                #[trigger] es[i].name,
                es[i].path,
                ignore,
                include_hidden,
                include_git_ignored,
            ) && x == build_view(es[i], budget, ignore, include_hidden, include_git_ignored, depth),
    decreases es.len(),
{
    if es.len() == 0 {
    } else {
        let rest = build_children(
            es.drop_first(),
            budget,
            ignore,
            include_hidden,
            include_git_ignored,
            depth,
        );
        lemma_build_children_members(
            es.drop_first(),
            budget,
            ignore,
            include_hidden,
            include_git_ignored,
            depth,
            x,
        );
        let whole = build_children(es, budget, ignore, include_hidden, include_git_ignored, depth);
        if included(es[0].name, es[0].path, ignore, include_hidden, include_git_ignored) {
            let head = build_view(es[0], budget, ignore, include_hidden, include_git_ignored, depth);
            assert(whole == seq![head] + rest);
            lemma_concat_contains(seq![head], rest, x);
            if seq![head].contains(x) {
                let i = choose|i: int| 0 <= i < 1 && seq![head][i] == x;
                assert(x == head);
            }
            if x == head {
                assert(seq![head][0] == x);
                assert(seq![head].contains(x));
            }
        }
        if whole.contains(x) {
            if rest.contains(x) {
                let i = choose|i: int|
                    0 <= i < es.drop_first().len() && included(
                        #[trigger] es.drop_first()[i].name,
                        es.drop_first()[i].path,
                        ignore,
                        include_hidden,
                        include_git_ignored,
                    ) && x == build_view(
                        es.drop_first()[i],
                        budget,
                        ignore,
                        include_hidden,
                        include_git_ignored,
                        depth,
                    );
                assert(es[i + 1] == es.drop_first()[i]);
                assert(included(
                    es[i + 1].name,
                    es[i + 1].path,
                    ignore,
                    include_hidden,
                    include_git_ignored,
                ) && x == build_view(
                    es[i + 1],
                    budget,
                    ignore,
                    include_hidden,
                    include_git_ignored,
                    depth,
                ));
            }
        }
        if exists|i: int|
            0 <= i < es.len() && included(
                #[trigger] es[i].name,
                es[i].path,
                ignore,
                include_hidden,
                include_git_ignored,
            ) && x == build_view(es[i], budget, ignore, include_hidden, include_git_ignored, depth) {
            let i = choose|i: int|
                0 <= i < es.len() && included(
                    #[trigger] es[i].name,
                    es[i].path,
                    ignore,
                    include_hidden,
                    include_git_ignored,
                ) && x == build_view(
                    es[i],
                    budget,
                    ignore,
                    include_hidden,
                    include_git_ignored,
                    depth,
                );
            if i == 0 {
                assert(whole.contains(x));
            } else {
                assert(es.drop_first()[i - 1] == es[i]);
                assert(rest.contains(x));
                if included(es[0].name, es[0].path, ignore, include_hidden, include_git_ignored) {
                    let head = build_view(
                        es[0],
                        budget,
                        ignore,
                        include_hidden,
                        include_git_ignored,
                        depth,
                    );
                    lemma_concat_contains(seq![head], rest, x);
                }
            }
        }
    }
}

/// A child of a built node is the node of a surviving entry, built one level
/// deeper, and nothing else: hidden entries are absent unless hidden entries
/// are included, ignore-matched entries are absent unless ignore-matched
/// entries are included, and every surviving entry is present.
pub proof fn lemma_children_are_the_included(
    e: FsEntryView,
    budget: nat,
    ignore: Set<Seq<char>>,
    include_hidden: bool,
    include_git_ignored: bool,
    depth: nat,
    x: TreeView,
)
    requires
        budget > 0,
    ensures
        build_view(e, budget, ignore, include_hidden, include_git_ignored, depth).children.contains(
            x,
        ) <==> exists|i: int|
            0 <= i < e.entries.len() && included(
                #[trigger] e.entries[i].name,
                e.entries[i].path,
                ignore,
                include_hidden,
                include_git_ignored,
            ) && x == build_view(
                e.entries[i],
                (budget - 1) as nat,
                ignore,
                include_hidden,
                include_git_ignored,
                depth + 1,
            ),
{
    lemma_sort_trees_contains(
        build_children(
            e.entries,
            (budget - 1) as nat,
            ignore,
            include_hidden,
            include_git_ignored,
            depth + 1,
        ),
        x,
    );
    lemma_build_children_members(
        e.entries,
        (budget - 1) as nat,
        ignore,
        include_hidden,
        include_git_ignored,
        depth + 1,
        x,
    );
}

/// With a depth budget of zero the built node has no children, whatever the
/// entry holds.
pub proof fn lemma_depth_budget_zero(
    e: FsEntryView,
    ignore: Set<Seq<char>>,
    include_hidden: bool,
    include_git_ignored: bool,
    depth: nat,
)
    ensures
        build_view(e, 0, ignore, include_hidden, include_git_ignored, depth).children.len() == 0,
{
}

/// No child of a built node is a hidden entry when hidden entries are
/// excluded, and none matches the ignore set when ignore-matched entries are
/// excluded.
pub proof fn lemma_filtered_absent(
    e: FsEntryView,
    budget: nat,
    ignore: Set<Seq<char>>,
    include_hidden: bool,
    include_git_ignored: bool,
    depth: nat,
)
    ensures
        forall|x: TreeView|
            #[trigger] build_view(
                e,
                budget,
                ignore,
                include_hidden,
                include_git_ignored,
                depth,
            ).children.contains(x) ==> included(
                x.name,
                x.path,
                ignore,
                include_hidden,
                include_git_ignored,
            ),
{
    if budget > 0 {
        assert forall|x: TreeView|
            #[trigger] build_view(
                e,
                budget,
                ignore,
                include_hidden,
                include_git_ignored,
                depth,
            ).children.contains(x) implies included(
            x.name,
            x.path,
            ignore,
            include_hidden,
            include_git_ignored,
        ) by {
            lemma_children_are_the_included(
                e,
                budget,
                ignore,
                include_hidden,
                include_git_ignored,
                depth,
                x,
            );
        }
    }
}

/// Every entry that survives filtering appears among the children when the
/// budget allows children at all.
pub proof fn lemma_surviving_present(
    e: FsEntryView,
    budget: nat,
    ignore: Set<Seq<char>>,
    include_hidden: bool,
    include_git_ignored: bool,
    depth: nat,
    i: int,
)
    requires
        budget > 0,
        0 <= i < e.entries.len(),
        included(e.entries[i].name, e.entries[i].path, ignore, include_hidden, include_git_ignored),
    ensures
        exists|x: TreeView|
            #[trigger] build_view(
                e,
                budget,
                ignore,
                include_hidden,
                include_git_ignored,
                depth,
            ).children.contains(x) && x.name == e.entries[i].name && x.path == e.entries[i].path,
{
    let x = build_view(
        e.entries[i],
        (budget - 1) as nat,
        ignore,
        include_hidden,
        include_git_ignored,
        depth + 1,
    );
    lemma_children_are_the_included(
        e,
        budget,
        ignore,
        include_hidden,
        include_git_ignored,
        depth,
        x,
    );
}

/// Pairwise sibling order.
pub open spec fn sorted_trees(s: Seq<TreeView>) -> bool {
    forall|i: int, j: int| 0 <= i < j < s.len() ==> tree_le(#[trigger] s[i], #[trigger] s[j])
}

proof fn lemma_insert_sorted_ordered(t: TreeView, s: Seq<TreeView>)
    requires
        sorted_trees(s),
    ensures
        sorted_trees(insert_sorted(t, s)),
    decreases s.len(),
{
    let r = insert_sorted(t, s);
    if s.len() == 0 {
    } else if tree_le(t, s[0]) {
        assert(r == seq![t] + s);
        assert forall|i: int, j: int| 0 <= i < j < r.len() implies tree_le(r[i], r[j]) by {
            if i == 0 && j > 1 {
                lemma_tree_le_trans(t, s[0], s[j - 1]);
            }
        }
    } else {
        lemma_tree_le_total(t, s[0]);
        assert(tree_le(s[0], t));
        let inner = insert_sorted(t, s.drop_first());
        assert(sorted_trees(s.drop_first())) by {
            assert forall|i: int, j: int|
                0 <= i < j < s.drop_first().len() implies tree_le(
                #[trigger] s.drop_first()[i],
                #[trigger] s.drop_first()[j],
            ) by {
                assert(s.drop_first()[i] == s[i + 1]);
                assert(s.drop_first()[j] == s[j + 1]);
            }
        }
        lemma_insert_sorted_ordered(t, s.drop_first());
        assert(r == seq![s[0]] + inner);
        assert forall|i: int, j: int| 0 <= i < j < r.len() implies tree_le(r[i], r[j]) by {
            if i == 0 {
                assert(inner.contains(inner[j - 1]));
                lemma_insert_sorted_contains(t, s.drop_first(), inner[j - 1]);
                if inner[j - 1] == t {
                } else {
                    let k = choose|k: int|
                        0 <= k < s.drop_first().len() && s.drop_first()[k] == inner[j - 1];
                    assert(s[k + 1] == inner[j - 1]);
                    assert(tree_le(s[0], s[k + 1]));
                }
            } else {
                assert(r[i] == inner[i - 1]);
                assert(r[j] == inner[j - 1]);
            }
        }
    }
}

proof fn lemma_sort_trees_ordered(s: Seq<TreeView>)
    ensures
        sorted_trees(sort_trees(s)),
    decreases s.len(),
{
    if s.len() != 0 {
        lemma_sort_trees_ordered(s.drop_first());
        lemma_insert_sorted_ordered(s[0], sort_trees(s.drop_first()));
    }
}

/// Siblings stand in sorted order: of two children of one node, a directory
/// precedes a file, and two of the same kind stand in ascending path order.
pub proof fn lemma_siblings_sorted(
    e: FsEntryView,
    budget: nat,
    ignore: Set<Seq<char>>,
    include_hidden: bool,
    include_git_ignored: bool,
    depth: nat,
)
    ensures
        sorted_trees(build_view(e, budget, ignore, include_hidden, include_git_ignored, depth).children),
{
    if budget > 0 {
        lemma_sort_trees_ordered(
            build_children(
                e.entries,
                (budget - 1) as nat,
                ignore,
                include_hidden,
                include_git_ignored,
                depth + 1,
            ),
        );
    }
}

/// Every child of a built node stands one level deeper than the node.
pub proof fn lemma_child_depth(
    e: FsEntryView,
    budget: nat,
    ignore: Set<Seq<char>>,
    include_hidden: bool,
    include_git_ignored: bool,
    depth: nat,
)
    ensures
        forall|x: TreeView|
            #[trigger] build_view(
                e,
                budget,
                ignore,
                include_hidden,
                include_git_ignored,
                depth,
            ).children.contains(x) ==> x.depth == depth + 1,
{
    if budget > 0 {
        assert forall|x: TreeView|
            #[trigger] build_view(
                e,
                budget,
                ignore,
                include_hidden,
                include_git_ignored,
                depth,
            ).children.contains(x) implies x.depth == depth + 1 by {
            lemma_children_are_the_included(
                e,
                budget,
                ignore,
                include_hidden,
                include_git_ignored,
                depth,
                x,
            );
        }
    }
}

/// Building is deterministic: two builds of one snapshot with the same
/// arguments yield the same tree.
pub proof fn lemma_build_deterministic(
    r1: TreeView,
    r2: TreeView,
    e: FsEntryView,
    budget: nat,
    ignore: Set<Seq<char>>,
    include_hidden: bool,
    include_git_ignored: bool,
    depth: nat,
)
    requires
        r1 == build_view(e, budget, ignore, include_hidden, include_git_ignored, depth),
        r2 == build_view(e, budget, ignore, include_hidden, include_git_ignored, depth),
    ensures
        r1 == r2,
{
}

/// How many nodes a tree holds.
pub open spec fn count_nodes(t: TreeView) -> nat
    decreases t,
{
    1 + count_forest(t.children)
}

/// How many nodes a sequence of trees holds.
pub open spec fn count_forest(ts: Seq<TreeView>) -> nat
    decreases ts, ts.len(),
{
    if ts.len() == 0 {
        0
    } else {
        count_nodes(ts[0]) + count_forest(ts.drop_first())
    }
}

proof fn lemma_render_count(t: TreeView, spacer: Seq<char>, prefix: Seq<char>)
    ensures
        render_lines_view(t, spacer, prefix).len() == count_nodes(t),
    decreases t,
{
    lemma_render_forest_count(t.children, spacer, prefix);
}

proof fn lemma_render_forest_count(ts: Seq<TreeView>, spacer: Seq<char>, prefix: Seq<char>)
    ensures
        render_children_views(ts, spacer, prefix).len() == count_forest(ts),
    decreases ts, ts.len(),
{
    if ts.len() != 0 {
        lemma_render_count(ts[0], spacer, prefix);
        lemma_render_forest_count(ts.drop_first(), spacer, prefix);
    }
}

/// No line-break character occurs in any name of the tree.
pub open spec fn no_breaks_in_tree(t: TreeView) -> bool
    decreases t,
{
    no_breaks(t.name) && no_breaks_in_forest(t.children)
}

/// No line-break character occurs in any name of the trees.
pub open spec fn no_breaks_in_forest(ts: Seq<TreeView>) -> bool
    decreases ts, ts.len(),
{
    if ts.len() == 0 {
        true
    } else {
        no_breaks_in_tree(ts[0]) && no_breaks_in_forest(ts.drop_first())
    }
}

proof fn lemma_render_lines_clean(t: TreeView, spacer: Seq<char>, prefix: Seq<char>)
    requires
        no_breaks(spacer),
        no_breaks(prefix),
        no_breaks_in_tree(t),
    ensures
        forall|i: int|
            0 <= i < render_lines_view(t, spacer, prefix).len() ==> no_breaks(
                #[trigger] render_lines_view(t, spacer, prefix)[i].text,
            ),
    decreases t,
{
    let lines = render_lines_view(t, spacer, prefix);
    lemma_repeat_no_breaks(spacer, t.depth);
    lemma_concat_no_breaks(repeat_seq(spacer, t.depth), prefix);
    lemma_concat_no_breaks(repeat_seq(spacer, t.depth) + prefix, t.name);
    assert(no_breaks(seq!['/'])) by {
        assert(forall|i: int| 0 <= i < 1 ==> seq!['/'][i] == '/');
    }
    assert(no_breaks(Seq::<char>::empty()));
    lemma_concat_no_breaks(
        repeat_seq(spacer, t.depth) + prefix + t.name,
        if t.is_dir {
            seq!['/']
        } else {
            Seq::empty()
        },
    );
    assert(no_breaks(render_node(t, spacer, prefix).text));
    lemma_render_forest_clean(t.children, spacer, prefix);
    assert forall|i: int| 0 <= i < lines.len() implies no_breaks(#[trigger] lines[i].text) by {
        if i == 0 {
            assert(lines[0] == render_node(t, spacer, prefix));
        } else {
            assert(lines[i] == render_children_views(t.children, spacer, prefix)[i - 1]);
        }
    }
}

proof fn lemma_render_forest_clean(ts: Seq<TreeView>, spacer: Seq<char>, prefix: Seq<char>)
    requires
        no_breaks(spacer),
        no_breaks(prefix),
        no_breaks_in_forest(ts),
    ensures
        forall|i: int|
            0 <= i < render_children_views(ts, spacer, prefix).len() ==> no_breaks(
                #[trigger] render_children_views(ts, spacer, prefix)[i].text,
            ),
    decreases ts, ts.len(),
{
    if ts.len() != 0 {
        let head = render_lines_view(ts[0], spacer, prefix);
        let rest = render_children_views(ts.drop_first(), spacer, prefix);
        lemma_render_lines_clean(ts[0], spacer, prefix);
        lemma_render_forest_clean(ts.drop_first(), spacer, prefix);
        assert forall|i: int|
            0 <= i < render_children_views(ts, spacer, prefix).len() implies no_breaks(
            #[trigger] render_children_views(ts, spacer, prefix)[i].text,
        ) by {
            if i < head.len() {
                assert(render_children_views(ts, spacer, prefix)[i] == head[i]);
            } else {
                assert(render_children_views(ts, spacer, prefix)[i] == rest[i - head.len()]);
            }
        }
    }
}

/// Text joined from lines free of breaks splits back into exactly those
/// lines.
proof fn lemma_split_lines_text(lines: Seq<LineView>)
    requires
        forall|i: int| 0 <= i < lines.len() ==> no_breaks(#[trigger] lines[i].text),
    ensures
        split_lines(lines_text(lines)) == lines.map_values(|l: LineView| l.text),
    decreases lines.len(),
{
    if lines.len() == 0 {
        assert(lines_text(lines) == Seq::<char>::empty());
        assert(split_lines(Seq::<char>::empty()) =~= lines.map_values(|l: LineView| l.text));
    } else {
        let l0 = lines[0].text;
        let rest = lines.drop_first();
        assert forall|i: int| 0 <= i < rest.len() implies no_breaks(#[trigger] rest[i].text) by {
            assert(rest[i] == lines[i + 1]);
        }
        lemma_split_lines_text(rest);
        assert(lines_text(lines) == l0 + seq!['\n'] + lines_text(rest));
        assert(l0.take(0) =~= Seq::<char>::empty());
        lemma_lines_from_line(l0, lines_text(rest), 0);
        assert(lines.map_values(|l: LineView| l.text) =~= seq![l0] + rest.map_values(
            |l: LineView| l.text,
        ));
    }
}

/// The rendered text, split on line feeds, gives back exactly one line per
/// node, in pre-order: as many lines as the tree has nodes. Holds when the
/// spacer, the prefix and the names of the tree are free of line-break
/// characters.
pub proof fn lemma_render_round_trip(t: TreeView, spacer: Seq<char>, prefix: Seq<char>)
    requires
        no_breaks(spacer),
        no_breaks(prefix),
        no_breaks_in_tree(t),
    ensures
        split_lines(lines_text(render_lines_view(t, spacer, prefix))) == render_lines_view(
            t,
            spacer,
            prefix,
        ).map_values(|l: LineView| l.text),
        render_lines_view(t, spacer, prefix).len() == count_nodes(t),
{
    lemma_render_lines_clean(t, spacer, prefix);
    lemma_split_lines_text(render_lines_view(t, spacer, prefix));
    lemma_render_count(t, spacer, prefix);
}

} // verus!
