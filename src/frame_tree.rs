//! The frame graph and the forest of frames shown by the frame-tree viewer.
//!
//! Frames are registered by name and known by their index. The forest is
//! rebuilt whole on each call. Its roots, in order of name, are the frames
//! that are nobody's child, and the frames that none of their trees shows:
//! those on a cycle that nothing outside reaches, and what hangs below such a
//! cycle. Under each frame stand its children, except any that is already one
//! of its ancestors, so that malformed, cyclic input still gives a finite
//! forest in which every frame stands.
use vstd::prelude::*;

verus! {

/// `a` comes strictly before `b` in lexicographic order of characters.
pub open spec fn name_lt(a: Seq<char>, b: Seq<char>) -> bool
    decreases a.len(),
{
    if b.len() == 0 {
        false
    } else if a.len() == 0 {
        true
    } else if a[0] < b[0] {
        true
    } else if a[0] == b[0] {
        name_lt(a.drop_first(), b.drop_first())
    } else {
        false
    }
}

proof fn lemma_name_lt_irreflexive(a: Seq<char>)
    ensures
        !name_lt(a, a),
    decreases a.len(),
{
    if a.len() > 0 {
        lemma_name_lt_irreflexive(a.drop_first());
    }
}

proof fn lemma_name_lt_transitive(a: Seq<char>, b: Seq<char>, c: Seq<char>)
    requires
        name_lt(a, b),
        name_lt(b, c),
    ensures
        name_lt(a, c),
    decreases a.len(),
{
    if a.len() > 0 && b.len() > 0 && c.len() > 0 && a[0] == b[0] && b[0] == c[0] {
        lemma_name_lt_transitive(a.drop_first(), b.drop_first(), c.drop_first());
    }
}

proof fn lemma_name_lt_total(a: Seq<char>, b: Seq<char>)
    requires
        a != b,
    ensures
        name_lt(a, b) || name_lt(b, a),
    decreases a.len(),
{
    if a.len() == 0 {
        if b.len() == 0 {
            assert(a =~= b);
        }
    } else if b.len() > 0 && a[0] == b[0] {
        if a.drop_first() == b.drop_first() {
            assert(a =~= seq![a[0]] + a.drop_first());
            assert(b =~= seq![b[0]] + b.drop_first());
        } else {
            lemma_name_lt_total(a.drop_first(), b.drop_first());
        }
    }
}

fn name_lt_from(a: &str, b: &str, i: usize) -> (r: bool)
    requires
        i <= a@.len(),
        i <= b@.len(),
    ensures
        r == name_lt(a@.skip(i as int), b@.skip(i as int)),
    decreases a@.len() - i,
{
    let la = a.unicode_len();
    let lb = b.unicode_len();
    if i == lb {
        return false;
    }
    if i == la {
        return true;
    }
    let ca = a.get_char(i);
    let cb = b.get_char(i);
    if ca < cb {
        true
    } else if ca == cb {
        assert(a@.skip(i as int).drop_first() =~= a@.skip(i + 1));
        assert(b@.skip(i as int).drop_first() =~= b@.skip(i + 1));
        name_lt_from(a, b, i + 1)
    } else {
        false
    }
}

/// Whether `a` comes strictly before `b` in lexicographic order of characters.
pub fn name_precedes(a: &str, b: &str) -> (r: bool)
    ensures
        r == name_lt(a@, b@),
{
    assert(a@.skip(0) =~= a@);
    assert(b@.skip(0) =~= b@);
    name_lt_from(a, b, 0)
}

/// A frame of the displayed forest with the frames shown under it.
pub struct FrameTree {
    pub frame: usize,
    pub children: Seq<FrameTree>,
}

/// The tree shown under frame `f` when `path` holds its ancestors: every child
/// of `f` that is not already on the path, in the order of `kids[f]`.
pub open spec fn tree_of(kids: Seq<Seq<usize>>, f: usize, path: Seq<usize>) -> FrameTree
    decreases kids.len() - path.len(), 0nat,
{
    FrameTree {
        frame: f,
        children: if path.len() < kids.len() && f < kids.len() {
            forest_of(kids, kids[f as int], path.push(f), kids[f as int].len())
        } else {
            Seq::empty()
        },
    }
}

/// The trees of the first `k` frames of `cs` that are not on `path`.
pub open spec fn forest_of(kids: Seq<Seq<usize>>, cs: Seq<usize>, path: Seq<usize>, k: nat) -> Seq<FrameTree>
    decreases kids.len() - path.len(), k + 1,
{
    if k == 0 || k > cs.len() {
        Seq::empty()
    } else {
        let rest = forest_of(kids, cs, path, (k - 1) as nat);
        let c = cs[k - 1];
        if path.contains(c) {
            rest
        } else {
            rest.push(tree_of(kids, c, path))
        }
    }
}

/// No frame of `t` is its own ancestor, nor one of `path`.
pub open spec fn acyclic(t: FrameTree, path: Seq<usize>) -> bool
    decreases t,
{
    &&& !path.contains(t.frame)
    &&& forall|i: int| 0 <= i < t.children.len() ==> acyclic(#[trigger] t.children[i], path.push(t.frame))
}

proof fn lemma_tree_acyclic(kids: Seq<Seq<usize>>, f: usize, path: Seq<usize>)
    requires
        !path.contains(f),
    ensures
        acyclic(tree_of(kids, f, path), path),
    decreases kids.len() - path.len(), 0nat,
{
    let t = tree_of(kids, f, path);
    if path.len() < kids.len() && f < kids.len() {
        lemma_forest_acyclic(kids, kids[f as int], path.push(f), kids[f as int].len());
        assert(t.children == forest_of(kids, kids[f as int], path.push(f), kids[f as int].len()));
    }
    assert forall|i: int| 0 <= i < t.children.len() implies acyclic(#[trigger] t.children[i], path.push(t.frame)) by {}
}

proof fn lemma_forest_acyclic(kids: Seq<Seq<usize>>, cs: Seq<usize>, path: Seq<usize>, k: nat)
    ensures
        forall|i: int| 0 <= i < forest_of(kids, cs, path, k).len() ==> acyclic(#[trigger] forest_of(kids, cs, path, k)[i], path),
    decreases kids.len() - path.len(), k + 1,
{
    if k == 0 || k > cs.len() {
    } else {
        lemma_forest_acyclic(kids, cs, path, (k - 1) as nat);
        let rest = forest_of(kids, cs, path, (k - 1) as nat);
        let c = cs[k - 1];
        if !path.contains(c) {
            lemma_tree_acyclic(kids, c, path);
            let all = rest.push(tree_of(kids, c, path));
            assert(forest_of(kids, cs, path, k) == all);
            assert forall|i: int| 0 <= i < all.len() implies acyclic(#[trigger] all[i], path) by {
                if i < rest.len() {
                    assert(all[i] == rest[i]);
                }
            }
        }
    }
}

/// Whatever the parent-to-children relation, even a cyclic one, the tree
/// shown under any frame is finite and no frame in it is its own descendant.
pub proof fn lemma_frame_tree_acyclic(kids: Seq<Seq<usize>>, f: usize)
    ensures
        acyclic(tree_of(kids, f, Seq::empty()), Seq::empty()),
{
    lemma_tree_acyclic(kids, f, Seq::empty());
}

/// A frame and the frames shown under it.
pub struct TreeNode {
    pub name: String,
    pub children: Vec<Box<TreeNode>>,
}

impl TreeNode {
    /// A frame with nothing under it.
    pub fn new(name: &str) -> (r: Self)
        ensures
            r.name@ == name@,
            r.children@.len() == 0,
    {
        TreeNode { name: name.to_owned(), children: Vec::new() }
    }
}

/// `node` shows the tree `t` of frames named by `names`.
pub open spec fn shows(node: TreeNode, t: FrameTree, names: Seq<Seq<char>>) -> bool
    decreases t,
{
    &&& t.frame < names.len()
    &&& node.name@ == names[t.frame as int]
    &&& node.children@.len() == t.children.len()
    &&& forall|i: int| 0 <= i < t.children.len() ==> shows(*node.children@[i], #[trigger] t.children[i], names)
}

/// Frame `f` is a child of some frame.
pub open spec fn is_child(kids: Seq<Seq<usize>>, f: usize) -> bool {
    exists|p: int, k: int| 0 <= p < kids.len() && 0 <= k < kids[p].len() && kids[p][k] == f
}

/// Frame `f` stands somewhere in the tree `t`.
pub open spec fn appears(t: FrameTree, f: usize) -> bool
    decreases t,
{
    t.frame == f || exists|i: int| 0 <= i < t.children.len() && appears(#[trigger] t.children[i], f)
}

/// Frame `f` stands somewhere in one of the trees `ts`.
pub open spec fn in_forest(ts: Seq<FrameTree>, f: usize) -> bool {
    exists|i: int| 0 <= i < ts.len() && appears(#[trigger] ts[i], f)
}

/// Frame `f` stands in the tree of some frame that is nobody's child.
pub open spec fn under_true_root(kids: Seq<Seq<usize>>, f: usize) -> bool {
    exists|r: usize| r < kids.len() && !is_child(kids, r) && #[trigger] appears(tree_of(kids, r, Seq::empty()), f)
}

/// Frame `f` heads a tree of the forest: it is nobody's child, or no tree of
/// such a frame shows it (it lies on, or below, a cycle that nothing outside
/// the cycle reaches).
pub open spec fn is_root(kids: Seq<Seq<usize>>, f: usize) -> bool {
    f < kids.len() && (!is_child(kids, f) || !under_true_root(kids, f))
}

/// `rs` lists the roots of the forest, each once, in order of name.
pub open spec fn roots_in_order(names: Seq<Seq<char>>, kids: Seq<Seq<usize>>, rs: Seq<usize>) -> bool {
    &&& rs.no_duplicates()
    &&& forall|f: usize| rs.contains(f) <==> is_root(kids, f)
    &&& forall|i: int, j: int| 0 <= i < j < rs.len() ==> name_lt(names[rs[i] as int], names[rs[j] as int])
}

/// A well-formed relation: one list of children per frame, every child a
/// known frame listed once under its parent, and names that differ.
pub open spec fn graph_wf(names: Seq<Seq<char>>, kids: Seq<Seq<usize>>) -> bool {
    &&& names.len() == kids.len()
    &&& forall|p: int, k: int| 0 <= p < kids.len() && 0 <= k < kids[p].len() ==> kids[p][k] < kids.len()
    &&& forall|p: int| 0 <= p < kids.len() ==> (#[trigger] kids[p]).no_duplicates()
    &&& forall|i: int, j: int| 0 <= i < names.len() && 0 <= j < names.len() && i != j ==> names[i] != names[j]
}

/// The parent-to-children relation among named frames.
pub struct FrameGraph {
    names: Vec<String>,
    children: Vec<Vec<usize>>,
}

impl FrameGraph {
    /// The name of each frame, by index.
    pub closed spec fn spec_names(&self) -> Seq<Seq<char>> {
        self.names@.map_values(|s: String| s@)
    }

    /// The children of each frame, by index.
    pub closed spec fn spec_children(&self) -> Seq<Seq<usize>> {
        self.children@.map_values(|v: Vec<usize>| v@)
    }

    pub open spec fn wf(&self) -> bool {
        graph_wf(self.spec_names(), self.spec_children())
    }

    /// A graph with no frame.
    pub fn new() -> (r: Self)
        ensures
            r.wf(),
            r.spec_names() == Seq::<Seq<char>>::empty(),
    {
        let r = FrameGraph { names: Vec::new(), children: Vec::new() };
        assert(r.spec_names() =~= Seq::<Seq<char>>::empty());
        assert(r.spec_children() =~= Seq::<Seq<usize>>::empty());
        r
    }

    /// The number of frames.
    pub fn len(&self) -> (r: usize)
        requires
            self.wf(),
        ensures
            r == self.spec_names().len(),
    {
        self.names.len()
    }

    /// The name of frame `f`.
    pub fn name(&self, f: usize) -> (r: &str)
        requires
            f < self.spec_names().len(),
        ensures
            r@ == self.spec_names()[f as int],
    {
        self.names[f].as_str()
    }

    /// The index of the frame called `name`, if there is one.
    pub fn find(&self, name: &str) -> (r: Option<usize>)
        requires
            self.wf(),
        ensures
            match r {
                Some(i) => i < self.spec_names().len() && self.spec_names()[i as int] == name@,
                None => !self.spec_names().contains(name@),
            },
    {
        let key: String = name.to_owned();
        let mut i: usize = 0;
        while i < self.names.len()
            invariant
                i <= self.names@.len(),
                key@ == name@,
                forall|j: int| 0 <= j < i ==> self.spec_names()[j] != name@,
            decreases self.names@.len() - i,
        {
            if self.names[i] == key {
                return Some(i);
            }
            i = i + 1;
        }
        None
    }
}

/// `names` with `n` added at the end, unless it is there already.
pub open spec fn with_name(names: Seq<Seq<char>>, n: Seq<char>) -> Seq<Seq<char>> {
    if names.contains(n) {
        names
    } else {
        names.push(n)
    }
}

/// `cs` with `c` added at the end, unless it is there already.
pub open spec fn with_child(cs: Seq<usize>, c: usize) -> Seq<usize> {
    if cs.contains(c) {
        cs
    } else {
        cs.push(c)
    }
}

/// Whether `x` is an element of `v`.
pub fn contains_index(v: &Vec<usize>, x: usize) -> (r: bool)
    ensures
        r == v@.contains(x),
{
    let mut i: usize = 0;
    while i < v.len()
        invariant
            i <= v@.len(),
            forall|j: int| 0 <= j < i ==> v@[j] != x,
        decreases v@.len() - i,
    {
        if v[i] == x {
            return true;
        }
        i = i + 1;
    }
    false
}

impl FrameGraph {
    /// The index of the frame called `name`, registered first if it is new.
    fn intern(&mut self, name: &str) -> (r: usize)
        requires
            old(self).wf(),
        ensures
            final(self).wf(),
            final(self).spec_names() == with_name(old(self).spec_names(), name@),
            r < final(self).spec_names().len(),
            final(self).spec_names()[r as int] == name@,
            old(self).spec_names().contains(name@) ==> final(self).spec_children() == old(self).spec_children(),
            !old(self).spec_names().contains(name@) ==> final(self).spec_children()
                == old(self).spec_children().push(Seq::<usize>::empty()),
    {
        match self.find(name) {
            Some(i) => {
                proof {
                    assert(self.spec_names()[i as int] == name@);
                    assert(self.spec_names().contains(name@));
                }
                i
            },
            None => {
                let ghost old_names = self.spec_names();
                let ghost old_kids = self.spec_children();
                let n = self.names.len();
                self.names.push(name.to_owned());
                self.children.push(Vec::new());
                assert(self.spec_names() =~= old_names.push(name@));
                assert(self.spec_children() =~= old_kids.push(Seq::<usize>::empty()));
                proof {
                    let ns = self.spec_names();
                    let ks = self.spec_children();
                    assert forall|p: int| 0 <= p < ks.len() implies (#[trigger] ks[p]).no_duplicates() by {
                        if p < old_kids.len() {
                            assert(ks[p] == old_kids[p]);
                        }
                    }
                    assert forall|i: int, j: int| 0 <= i < ns.len() && 0 <= j < ns.len() && i != j implies ns[i] != ns[j] by {
                        if i == n as int {
                            assert(old_names[j] == ns[j]);
                        } else if j == n as int {
                            assert(old_names[i] == ns[i]);
                        }
                    }
                }
                n
            },
        }
    }
}

impl FrameGraph {
    /// Records that `child` is a child of `parent`, registering either frame
    /// if it is new. An edge recorded before is not listed twice. Returns the
    /// indices of the parent and of the child.
    pub fn add_edge(&mut self, parent: &str, child: &str) -> (r: (usize, usize))
        requires
            old(self).wf(),
        ensures
            final(self).wf(),
            final(self).spec_names() == with_name(with_name(old(self).spec_names(), parent@), child@),
            final(self).spec_names()[r.0 as int] == parent@,
            final(self).spec_names()[r.1 as int] == child@,
            r.0 < final(self).spec_names().len(),
            r.1 < final(self).spec_names().len(),
            final(self).spec_children()[r.0 as int] == with_child(
                if r.0 < old(self).spec_names().len() { old(self).spec_children()[r.0 as int] } else { Seq::empty() },
                r.1,
            ),
            forall|f: int| 0 <= f < final(self).spec_names().len() && f != r.0 ==> final(self).spec_children()[f]
                == if f < old(self).spec_names().len() { old(self).spec_children()[f] } else { Seq::<usize>::empty() },
    {
        let ghost k0 = self.spec_children();
        let p = self.intern(parent);
        let c = self.intern(child);
        let ghost k2 = self.spec_children();
        let ghost n2 = self.spec_names();
        assert(forall|f: int| 0 <= f < n2.len() ==> k2[f] == if f < k0.len() { k0[f] } else { Seq::<usize>::empty() });
        if !contains_index(&self.children[p], c) {
            self.children[p].push(c);
            proof {
                let ks = self.spec_children();
                assert(ks =~= k2.update(p as int, k2[p as int].push(c)));
                assert forall|q: int| 0 <= q < ks.len() implies (#[trigger] ks[q]).no_duplicates() by {
                    if q != p as int {
                        assert(ks[q] == k2[q]);
                    }
                }
                assert forall|q: int, k: int| 0 <= q < ks.len() && 0 <= k < ks[q].len() implies ks[q][k] < ks.len() by {
                    if q != p as int {
                        assert(ks[q] == k2[q]);
                    } else if k < k2[p as int].len() {
                        assert(ks[q][k] == k2[p as int][k]);
                    }
                }
                assert(self.spec_names() == n2);
            }
        }
        (p, c)
    }
}

/// The frames of `rs` come in strictly increasing order of name.
pub open spec fn sorted_by_name(names: Seq<Seq<char>>, rs: Seq<usize>) -> bool {
    forall|i: int, j: int| 0 <= i < j < rs.len() ==> name_lt(names[rs[i] as int], names[rs[j] as int])
}

/// `f` is listed among the children of a frame before `p`, or among the
/// first `k` children of `p`.
pub open spec fn listed_before(kids: Seq<Seq<usize>>, f: usize, p: int, k: int) -> bool {
    exists|q: int, j: int|
        0 <= q < kids.len() && 0 <= j < kids[q].len() && (q < p || (q == p && j < k)) && kids[q][j] == f
}

proof fn lemma_insert_sorted(names: Seq<Seq<char>>, rs: Seq<usize>, pos: int, f: usize)
    requires
        sorted_by_name(names, rs),
        0 <= pos <= rs.len(),
        f < names.len(),
        forall|i: int| 0 <= i < rs.len() ==> rs[i] < names.len(),
        forall|i: int| 0 <= i < pos ==> name_lt(names[rs[i] as int], names[f as int]),
        pos < rs.len() ==> name_lt(names[f as int], names[rs[pos] as int]),
    ensures
        sorted_by_name(names, rs.insert(pos, f)),
{
    let t = rs.insert(pos, f);
    assert forall|i: int, j: int| 0 <= i < j < t.len() implies name_lt(names[t[i] as int], names[t[j] as int]) by {
        if j < pos {
            assert(t[i] == rs[i] && t[j] == rs[j]);
        } else if j == pos {
            assert(t[i] == rs[i]);
        } else if i < pos {
            assert(t[i] == rs[i] && t[j] == rs[j - 1]);
            lemma_name_lt_transitive(names[rs[i] as int], names[f as int], names[rs[pos] as int]);
            if j - 1 > pos {
                lemma_name_lt_transitive(names[rs[i] as int], names[rs[pos] as int], names[rs[j - 1] as int]);
            }
        } else if i == pos {
            assert(t[j] == rs[j - 1]);
            if j - 1 > pos {
                lemma_name_lt_transitive(names[f as int], names[rs[pos] as int], names[rs[j - 1] as int]);
            }
        } else {
            assert(t[i] == rs[i - 1] && t[j] == rs[j - 1]);
        }
    }
}

impl FrameGraph {
    /// For each frame, whether it is listed as the child of some frame.
    fn child_marks(&self) -> (r: Vec<bool>)
        requires
            self.wf(),
        ensures
            r@.len() == self.spec_names().len(),
            forall|f: int| 0 <= f < r@.len() ==> r@[f] == is_child(self.spec_children(), f as usize),
    {
        let ghost kids = self.spec_children();
        let n = self.children.len();
        let mut marks: Vec<bool> = Vec::new();
        let mut i: usize = 0;
        while i < n
            invariant
                n == kids.len(),
                i <= n,
                marks@.len() == i,
                forall|f: int| 0 <= f < i ==> !marks@[f],
            decreases n - i,
        {
            marks.push(false);
            i = i + 1;
        }
        let mut p: usize = 0;
        while p < n
            invariant
                n == kids.len(),
                self.wf(),
                kids == self.spec_children(),
                p <= n,
                marks@.len() == n,
                forall|f: int| 0 <= f < n ==> marks@[f] == listed_before(kids, f as usize, p as int, 0),
            decreases n - p,
        {
            let cs = &self.children[p];
            assert(cs@ == kids[p as int]);
            let mut k: usize = 0;
            while k < cs.len()
                invariant
                    n == kids.len(),
                    self.wf(),
                    kids == self.spec_children(),
                    p < n,
                    cs@ == kids[p as int],
                    k <= cs@.len(),
                    marks@.len() == n,
                    forall|f: int| 0 <= f < n ==> marks@[f] == listed_before(kids, f as usize, p as int, k as int),
                decreases cs@.len() - k,
            {
                let c = cs[k];
                assert(c < n);
                marks.set(c, true);
                proof {
                    assert forall|f: int| 0 <= f < n implies marks@[f] == listed_before(kids, f as usize, p as int, k + 1) by {
                        if f == c as int {
                            assert(kids[p as int][k as int] == c);
                        } else {
                            if listed_before(kids, f as usize, p as int, k + 1) {
                                let (q, j) = choose|q: int, j: int|
                                    0 <= q < kids.len() && 0 <= j < kids[q].len() && (q < p || (q == p && j < k + 1)) && kids[q][j] == f as usize;
                                assert(listed_before(kids, f as usize, p as int, k as int));
                            }
                        }
                    }
                }
                k = k + 1;
            }
            proof {
                assert forall|f: int| 0 <= f < n implies marks@[f] == listed_before(kids, f as usize, p + 1, 0) by {
                    if listed_before(kids, f as usize, p as int, k as int) {
                        let (q, j) = choose|q: int, j: int|
                            0 <= q < kids.len() && 0 <= j < kids[q].len() && (q < p || (q == p && j < k)) && kids[q][j] == f as usize;
                        assert(listed_before(kids, f as usize, p + 1, 0));
                    }
                    if listed_before(kids, f as usize, p + 1, 0) {
                        let (q, j) = choose|q: int, j: int|
                            0 <= q < kids.len() && 0 <= j < kids[q].len() && (q < p + 1 || (q == p + 1 && j < 0)) && kids[q][j] == f as usize;
                        assert(listed_before(kids, f as usize, p as int, k as int));
                    }
                }
            }
            p = p + 1;
        }
        proof {
            assert forall|f: int| 0 <= f < n implies marks@[f] == is_child(kids, f as usize) by {
                if is_child(kids, f as usize) {
                    let (q, j) = choose|q: int, j: int| 0 <= q < kids.len() && 0 <= j < kids[q].len() && kids[q][j] == f as usize;
                    assert(listed_before(kids, f as usize, n as int, 0));
                }
            }
        }
        marks
    }
}

impl FrameGraph {
    /// One `false` for each frame.
    fn no_marks(&self) -> (r: Vec<bool>)
        requires
            self.wf(),
        ensures
            r@.len() == self.spec_names().len(),
            forall|g: int| 0 <= g < r@.len() ==> !r@[g],
    {
        let n = self.names.len();
        let mut marks: Vec<bool> = Vec::new();
        let mut i: usize = 0;
        while i < n
            invariant
                n == self.spec_names().len(),
                i <= n,
                marks@.len() == i,
                forall|g: int| 0 <= g < i ==> !marks@[g],
            decreases n - i,
        {
            marks.push(false);
            i = i + 1;
        }
        marks
    }

    /// For each frame, whether the tree of some frame that is nobody's child
    /// shows it; `child` tells, for each frame, whether it is a child.
    fn true_root_marks(&self, child: &Vec<bool>) -> (r: Vec<bool>)
        requires
            self.wf(),
            child@.len() == self.spec_names().len(),
            forall|g: int| 0 <= g < child@.len() ==> child@[g] == is_child(self.spec_children(), g as usize),
        ensures
            r@.len() == self.spec_names().len(),
            forall|g: int| 0 <= g < r@.len() ==> r@[g] == under_true_root(self.spec_children(), g as usize),
    {
        let ghost kids = self.spec_children();
        let n = self.names.len();
        let mut seen = self.no_marks();
        let mut f: usize = 0;
        while f < n
            invariant
                self.wf(),
                kids == self.spec_children(),
                n == self.spec_names().len(),
                n == kids.len(),
                f <= n,
                child@.len() == n,
                forall|g: int| 0 <= g < n ==> child@[g] == is_child(kids, g as usize),
                seen@.len() == n,
                forall|g: int| 0 <= g < n ==> seen@[g] == exists|q: usize| q < f && !is_child(kids, q)
                    && #[trigger] appears(tree_of(kids, q, Seq::empty()), g as usize),
            decreases n - f,
        {
            let ghost before = seen@;
            if !child[f] {
                let mut path: Vec<usize> = Vec::new();
                let _ = self.build_node(f, &mut path, n, &mut seen);
                proof {
                    assert forall|g: int| 0 <= g < n implies seen@[g] == exists|q: usize| q < f + 1 && !is_child(kids, q)
                        && #[trigger] appears(tree_of(kids, q, Seq::empty()), g as usize) by {
                        if appears(tree_of(kids, f, Seq::empty()), g as usize) {
                            assert(f < f + 1 && !is_child(kids, f));
                        }
                        if before[g] {
                            let q = choose|q: usize| q < f && !is_child(kids, q)
                                && #[trigger] appears(tree_of(kids, q, Seq::empty()), g as usize);
                            assert(q < f + 1);
                        }
                        if exists|q: usize| q < f + 1 && !is_child(kids, q)
                            && #[trigger] appears(tree_of(kids, q, Seq::empty()), g as usize) {
                            let q = choose|q: usize| q < f + 1 && !is_child(kids, q)
                                && #[trigger] appears(tree_of(kids, q, Seq::empty()), g as usize);
                            if q < f {
                                assert(before[g]);
                            }
                        }
                    }
                }
            } else {
                proof {
                    assert forall|g: int| 0 <= g < n implies seen@[g] == exists|q: usize| q < f + 1 && !is_child(kids, q)
                        && #[trigger] appears(tree_of(kids, q, Seq::empty()), g as usize) by {
                        if exists|q: usize| q < f + 1 && !is_child(kids, q)
                            && #[trigger] appears(tree_of(kids, q, Seq::empty()), g as usize) {
                            let q = choose|q: usize| q < f + 1 && !is_child(kids, q)
                                && #[trigger] appears(tree_of(kids, q, Seq::empty()), g as usize);
                            assert(q != f);
                            assert(before[g]);
                        }
                        if before[g] {
                            let q = choose|q: usize| q < f && !is_child(kids, q)
                                && #[trigger] appears(tree_of(kids, q, Seq::empty()), g as usize);
                            assert(q < f + 1);
                        }
                    }
                }
            }
            f = f + 1;
        }
        seen
    }

    /// The roots of the forest in order of name: the frames that are nobody's
    /// child, and the frames that no tree of theirs shows.
    pub fn root_frames(&self) -> (r: Vec<usize>)
        requires
            self.wf(),
        ensures
            roots_in_order(self.spec_names(), self.spec_children(), r@),
    {
        let ghost names = self.spec_names();
        let ghost kids = self.spec_children();
        let marks = self.child_marks();
        let shown = self.true_root_marks(&marks);
        let n = self.names.len();
        let mut r: Vec<usize> = Vec::new();
        let mut f: usize = 0;
        while f < n
            invariant
                self.wf(),
                names == self.spec_names(),
                kids == self.spec_children(),
                n == names.len(),
                f <= n,
                marks@.len() == n,
                forall|g: int| 0 <= g < n ==> marks@[g] == is_child(kids, g as usize),
                shown@.len() == n,
                forall|g: int| 0 <= g < n ==> shown@[g] == under_true_root(kids, g as usize),
                r@.no_duplicates(),
                forall|g: usize| r@.contains(g) <==> (g < f && is_root(kids, g)),
                forall|i: int| 0 <= i < r@.len() ==> r@[i] < f,
                sorted_by_name(names, r@),
            decreases n - f,
        {
            if !marks[f] || !shown[f] {
                let mut pos: usize = 0;
                let mut stop = false;
                while !stop
                    invariant
                        self.wf(),
                        names == self.spec_names(),
                        n == names.len(),
                        f < n,
                        pos <= r@.len(),
                        forall|i: int| 0 <= i < r@.len() ==> r@[i] < f,
                        forall|i: int| 0 <= i < pos ==> !name_lt(names[f as int], names[r@[i] as int]),
                        stop ==> pos == r@.len() || name_lt(names[f as int], names[r@[pos as int] as int]),
                    decreases r@.len() - pos + if stop { 0int } else { 1int },
                {
                    if pos == r.len() {
                        stop = true;
                    } else {
                        let g = r[pos];
                        assert(self.names@[f as int]@ == names[f as int]);
                        assert(self.names@[g as int]@ == names[g as int]);
                        if name_precedes(self.names[f].as_str(), self.names[g].as_str()) {
                            stop = true;
                        } else {
                            pos = pos + 1;
                        }
                    }
                }
                proof {
                    assert forall|i: int| 0 <= i < pos implies name_lt(names[r@[i] as int], names[f as int]) by {
                        assert(r@.contains(r@[i]));
                        lemma_name_lt_total(names[r@[i] as int], names[f as int]);
                    }
                    lemma_insert_sorted(names, r@, pos as int, f);
                }
                let ghost before = r@;
                r.insert(pos, f);
                proof {
                    assert(r@ == before.insert(pos as int, f));
                    assert forall|g: usize| r@.contains(g) <==> (g < f + 1 && is_root(kids, g)) by {
                        if r@.contains(g) {
                            let i = choose|i: int| 0 <= i < r@.len() && r@[i] == g;
                            if i < pos {
                                assert(before.contains(before[i]));
                            } else if i > pos {
                                assert(r@[i] == before[i - 1]);
                                assert(before.contains(before[i - 1]));
                            }
                        }
                        if g < f + 1 && is_root(kids, g) {
                            if g == f {
                                assert(r@[pos as int] == f);
                            } else {
                                let i = choose|i: int| 0 <= i < before.len() && before[i] == g;
                                if i < pos {
                                    assert(r@[i] == g);
                                } else {
                                    assert(r@[i + 1] == g);
                                }
                            }
                        }
                    }
                    assert forall|i: int, j: int| 0 <= i < r@.len() && 0 <= j < r@.len() && i != j implies r@[i] != r@[j] by {
                        if i != pos as int && j != pos as int {
                            let i0 = if i < pos { i } else { i - 1 };
                            let j0 = if j < pos { j } else { j - 1 };
                            assert(r@[i] == before[i0] && r@[j] == before[j0]);
                        } else if i == pos as int {
                            let j0 = if j < pos { j } else { j - 1 };
                            assert(r@[j] == before[j0]);
                            assert(before.contains(before[j0]));
                        } else {
                            let i0 = if i < pos { i } else { i - 1 };
                            assert(r@[i] == before[i0]);
                            assert(before.contains(before[i0]));
                        }
                    }
                }
            } else {
                proof {
                    assert forall|g: usize| r@.contains(g) <==> (g < f + 1 && is_root(kids, g)) by {
                        if g == f {
                            assert(!is_root(kids, g));
                        }
                    }
                }
            }
            f = f + 1;
        }
        r
    }
}

proof fn lemma_in_forest_push(ts: Seq<FrameTree>, t: FrameTree)
    ensures
        forall|g: usize| in_forest(ts.push(t), g) == (in_forest(ts, g) || appears(t, g)),
{
    assert forall|g: usize| in_forest(ts.push(t), g) == (in_forest(ts, g) || appears(t, g)) by {
        let all = ts.push(t);
        if in_forest(all, g) {
            let i = choose|i: int| 0 <= i < all.len() && appears(#[trigger] all[i], g);
            if i < ts.len() {
                assert(all[i] == ts[i]);
            }
        }
        if in_forest(ts, g) {
            let i = choose|i: int| 0 <= i < ts.len() && appears(#[trigger] ts[i], g);
            assert(all[i] == ts[i]);
        }
        if appears(t, g) {
            assert(all[ts.len() as int] == t);
        }
    }
}

impl FrameGraph {
    /// The tree shown under frame `f` when `path` holds its ancestors.
    /// Also marks in `seen` every frame of that tree.
    fn build_node(&self, f: usize, path: &mut Vec<usize>, depth_left: usize, seen: &mut Vec<bool>) -> (r: TreeNode)
        requires
            self.wf(),
            f < self.spec_names().len(),
            depth_left == self.spec_names().len() - old(path)@.len(),
            old(seen)@.len() == self.spec_names().len(),
        ensures
            shows(r, tree_of(self.spec_children(), f, old(path)@), self.spec_names()),
            final(path)@ == old(path)@,
            final(seen)@.len() == old(seen)@.len(),
            forall|g: int| 0 <= g < final(seen)@.len() ==> #[trigger] final(seen)@[g] == (old(seen)@[g]
                || appears(tree_of(self.spec_children(), f, old(path)@), g as usize)),
        decreases depth_left,
    {
        let ghost names = self.spec_names();
        let ghost kids = self.spec_children();
        let ghost start = path@;
        let ghost seen0 = seen@;
        let n_frames = self.names.len();
        assert(names.len() == n_frames);
        let mut node = TreeNode::new(self.names[f].as_str());
        assert(node.name@ == names[f as int]);
        seen.set(f, true);
        if path.len() < self.names.len() {
            path.push(f);
            let ghost inner = path@;
            let cs = &self.children[f];
            assert(cs@ == kids[f as int]);
            let mut k: usize = 0;
            while k < cs.len()
                invariant
                    self.wf(),
                    names == self.spec_names(),
                    kids == self.spec_children(),
                    f < names.len(),
                    depth_left == names.len() - start.len(),
                    inner == start.push(f),
                    path@ == inner,
                    inner.len() <= names.len(),
                    cs@ == kids[f as int],
                    k <= cs@.len(),
                    node.name@ == names[f as int],
                    node.children@.len() == forest_of(kids, cs@, inner, k as nat).len(),
                    seen@.len() == names.len(),
                    seen0.len() == names.len(),
                    names.len() <= usize::MAX,
                    forall|g: int| 0 <= g < names.len() ==> #[trigger] seen@[g] == (seen0[g] || g == f
                        || in_forest(forest_of(kids, cs@, inner, k as nat), g as usize)),
                    forall|i: int| 0 <= i < node.children@.len() ==> shows(
                        *node.children@[i],
                        #[trigger] forest_of(kids, cs@, inner, k as nat)[i],
                        names,
                    ),
                decreases cs@.len() - k,
            {
                let c = cs[k];
                let ghost prev = forest_of(kids, cs@, inner, k as nat);
                let ghost prev_nodes = node.children@;
                let ghost prev_seen = seen@;
                if !contains_index(path, c) {
                    assert(c < names.len());
                    let child = self.build_node(c, path, depth_left - 1, seen);
                    node.children.push(Box::new(child));
                    proof {
                        let next = forest_of(kids, cs@, inner, (k + 1) as nat);
                        assert(next == prev.push(tree_of(kids, c, inner)));
                        lemma_in_forest_push(prev, tree_of(kids, c, inner));
                        assert forall|g: int| 0 <= g < names.len() implies seen@[g] == (seen0[g] || g == f
                            || in_forest(next, g as usize)) by {
                            assert(seen@[g] == (prev_seen[g] || appears(tree_of(kids, c, inner), g as usize)));
                            assert(in_forest(next, g as usize) == (in_forest(prev, g as usize) || appears(tree_of(kids, c, inner), g as usize)));
                        }
                        assert forall|i: int| 0 <= i < node.children@.len() implies shows(
                            *node.children@[i],
                            #[trigger] next[i],
                            names,
                        ) by {
                            if i < prev.len() {
                                assert(node.children@[i] == prev_nodes[i]);
                                assert(next[i] == prev[i]);
                            }
                        }
                    }
                } else {
                    assert(forest_of(kids, cs@, inner, (k + 1) as nat) == prev);
                }
                k = k + 1;
            }
            proof {
                let t = tree_of(kids, f, start);
                assert(t.children == forest_of(kids, kids[f as int], inner, kids[f as int].len()));
                assert(k == cs@.len());
                assert(t.children == forest_of(kids, cs@, inner, k as nat));
                assert forall|g: int| 0 <= g < names.len() implies seen@[g] == (seen0[g] || appears(t, g as usize)) by {
                    assert(t.frame == f);
                    if g == f as int {
                        assert((g as usize) == f);
                        assert(appears(t, g as usize));
                    }
                    let fs = forest_of(kids, cs@, inner, k as nat);
                    assert(seen@[g] == (seen0[g] || g == f as int || in_forest(fs, g as usize)));
                    if in_forest(fs, g as usize) {
                        let i = choose|i: int| 0 <= i < fs.len() && appears(#[trigger] fs[i], g as usize);
                        assert(t.children[i] == fs[i]);
                        assert(appears(t.children[i], g as usize));
                        assert(appears(t, g as usize));
                    }
                    if appears(t, g as usize) && g != f as int {
                        assert(t.frame == f);
                        let i = choose|i: int| 0 <= i < t.children.len() && appears(#[trigger] t.children[i], g as usize);
                        assert(in_forest(t.children, g as usize));
                    }
                }
            }
            path.pop();
            assert(path@ =~= start);
        } else {
            proof {
                let t = tree_of(kids, f, start);
                assert(t.children.len() == 0);
                assert forall|g: int| 0 <= g < names.len() implies seen@[g] == (seen0[g] || appears(t, g as usize)) by {}
            }
        }
        node
    }

    /// The forest of frames: one tree under each root, in order of name.
    /// The roots are the frames that are nobody's child, and the frames that
    /// no tree of those shows because they sit on a cycle that nothing
    /// outside reaches. Under each frame stand its children in the order they
    /// were recorded, leaving out any that is already one of its ancestors.
    /// Every frame of the graph stands in the forest.
    pub fn build_tree(&self) -> (r: Vec<TreeNode>)
        requires
            self.wf(),
        ensures
            exists|rs: Seq<usize>|
                {
                    &&& roots_in_order(self.spec_names(), self.spec_children(), rs)
                    &&& shows_every_frame(self.spec_children(), rs)
                    &&& r@.len() == rs.len()
                    &&& forall|i: int| 0 <= i < rs.len() ==> shows(
                        #[trigger] r@[i],
                        tree_of(self.spec_children(), rs[i], Seq::empty()),
                        self.spec_names(),
                    )
                },
    {
        let roots = self.root_frames();
        proof {
            lemma_every_frame_shown(self.spec_names(), self.spec_children(), roots@);
        }
        let mut r: Vec<TreeNode> = Vec::new();
        let mut i: usize = 0;
        while i < roots.len()
            invariant
                self.wf(),
                roots_in_order(self.spec_names(), self.spec_children(), roots@),
                i <= roots@.len(),
                r@.len() == i,
                forall|j: int| 0 <= j < i ==> shows(
                    #[trigger] r@[j],
                    tree_of(self.spec_children(), roots@[j], Seq::empty()),
                    self.spec_names(),
                ),
            decreases roots@.len() - i,
        {
            let f = roots[i];
            assert(roots@.contains(f));
            let mut path: Vec<usize> = Vec::new();
            let mut seen = self.no_marks();
            let node = self.build_node(f, &mut path, self.names.len(), &mut seen);
            assert(path@ =~= Seq::<usize>::empty());
            r.push(node);
            i = i + 1;
        }
        r
    }
}

proof fn lemma_sorted_unique(names: Seq<Seq<char>>, a: Seq<usize>, b: Seq<usize>)
    requires
        sorted_by_name(names, a),
        sorted_by_name(names, b),
        a.no_duplicates(),
        b.no_duplicates(),
        forall|x: usize| a.contains(x) <==> b.contains(x),
    ensures
        a == b,
    decreases a.len(),
{
    if a.len() == 0 {
        if b.len() > 0 {
            assert(b.contains(b[0]));
        }
        assert(a =~= b);
    } else if b.len() == 0 {
        assert(a.contains(a[0]));
    } else {
        if a[0] != b[0] {
            assert(a.contains(b[0]) && b.contains(a[0])) by {
                assert(b.contains(b[0]));
                assert(a.contains(a[0]));
            }
            let j = choose|j: int| 0 <= j < a.len() && a[j] == b[0];
            let k = choose|k: int| 0 <= k < b.len() && b[k] == a[0];
            assert(name_lt(names[a[0] as int], names[a[j] as int]));
            assert(name_lt(names[b[0] as int], names[b[k] as int]));
            lemma_name_lt_transitive(names[a[0] as int], names[b[0] as int], names[a[0] as int]);
            lemma_name_lt_irreflexive(names[a[0] as int]);
        }
        let a1 = a.drop_first();
        let b1 = b.drop_first();
        assert forall|x: usize| a1.contains(x) <==> b1.contains(x) by {
            if a1.contains(x) {
                let i = choose|i: int| 0 <= i < a1.len() && a1[i] == x;
                assert(a[i + 1] == x);
                assert(a.contains(x));
                let k = choose|k: int| 0 <= k < b.len() && b[k] == x;
                assert(k != 0);
                assert(b1[k - 1] == x);
            }
            if b1.contains(x) {
                let i = choose|i: int| 0 <= i < b1.len() && b1[i] == x;
                assert(b[i + 1] == x);
                assert(b.contains(x));
                let k = choose|k: int| 0 <= k < a.len() && a[k] == x;
                assert(k != 0);
                assert(a1[k - 1] == x);
            }
        }
        assert(sorted_by_name(names, a1)) by {
            assert forall|i: int, j: int| 0 <= i < j < a1.len() implies name_lt(names[a1[i] as int], names[a1[j] as int]) by {
                assert(a1[i] == a[i + 1] && a1[j] == a[j + 1]);
            }
        }
        assert(sorted_by_name(names, b1)) by {
            assert forall|i: int, j: int| 0 <= i < j < b1.len() implies name_lt(names[b1[i] as int], names[b1[j] as int]) by {
                assert(b1[i] == b[i + 1] && b1[j] == b[j + 1]);
            }
        }
        lemma_sorted_unique(names, a1, b1);
        assert(a =~= b) by {
            assert forall|i: int| 0 <= i < a.len() implies a[i] == b[i] by {
                if i > 0 {
                    assert(a[i] == a1[i - 1] && b[i] == b1[i - 1]);
                }
            }
        }
    }
}

/// At most one order of roots meets `roots_in_order`: the contracts that
/// speak of "some" such order name the one order of frames by name.
pub proof fn lemma_root_order_unique(names: Seq<Seq<char>>, kids: Seq<Seq<usize>>, a: Seq<usize>, b: Seq<usize>)
    requires
        roots_in_order(names, kids, a),
        roots_in_order(names, kids, b),
    ensures
        a == b,
{
    lemma_sorted_unique(names, a, b);
}

/// Frame `f` stands in the tree of one of the roots `rs`.
pub open spec fn shown_under(kids: Seq<Seq<usize>>, rs: Seq<usize>, f: usize) -> bool {
    exists|i: int| 0 <= i < rs.len() && #[trigger] appears(tree_of(kids, rs[i], Seq::empty()), f)
}

/// Every frame of the graph stands in the tree of one of the roots `rs`.
pub open spec fn shows_every_frame(kids: Seq<Seq<usize>>, rs: Seq<usize>) -> bool {
    forall|f: usize| f < kids.len() ==> #[trigger] shown_under(kids, rs, f)
}

/// No frame is dropped: with the roots in order, every frame of the graph,
/// also one on a cycle that nothing outside reaches, stands in the forest.
pub proof fn lemma_every_frame_shown(names: Seq<Seq<char>>, kids: Seq<Seq<usize>>, rs: Seq<usize>)
    requires
        roots_in_order(names, kids, rs),
    ensures
        shows_every_frame(kids, rs),
{
    assert forall|f: usize| f < kids.len() implies #[trigger] shown_under(kids, rs, f) by {
        if is_root(kids, f) {
            assert(rs.contains(f));
            let i = choose|i: int| 0 <= i < rs.len() && rs[i] == f;
            assert(tree_of(kids, rs[i], Seq::empty()).frame == f);
            assert(appears(tree_of(kids, rs[i], Seq::empty()), f));
        } else {
            let r = choose|r: usize| r < kids.len() && !is_child(kids, r) && #[trigger] appears(tree_of(kids, r, Seq::empty()), f);
            assert(is_root(kids, r));
            assert(rs.contains(r));
            let i = choose|i: int| 0 <= i < rs.len() && rs[i] == r;
            assert(appears(tree_of(kids, rs[i], Seq::empty()), f));
        }
    }
}

} // verus!
