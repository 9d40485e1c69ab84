//! Git tree model: object ids, entry kinds, and the decisions made while
//! walking the trees of a Kart repository.

use vstd::prelude::*;
use vstd::multiset::Multiset;
use vstd::seq_lib::lemma_multiset_commutative;

verus! {

/// A git object id (a SHA-1 digest).
#[allow(non_camel_case_types)]
pub type git_oid = [u8; 20];

/// The kind of object a tree entry points to.
#[allow(non_camel_case_types)]
#[derive(Copy, Clone, PartialEq, Eq, Debug, Structural)]
pub enum git_object_t {
    GIT_OBJECT_COMMIT,
    GIT_OBJECT_TREE,
    GIT_OBJECT_BLOB,
    GIT_OBJECT_OTHER,
}

/// Nothing needs initialising before repositories are read.
pub fn git_libgit2_init() {
}

/// One entry of a git tree: its file name, the object it points to, and
/// that object's kind.
#[derive(Debug, Clone)]
pub struct TreeEntry {
    pub name: String,
    pub oid: git_oid,
    pub kind: git_object_t,
}

/// The ids of the subtrees among tree entries, in order.
pub open spec fn subtree_ids(e: Seq<TreeEntry>) -> Seq<git_oid>
    decreases e.len(),
{
    if e.len() == 0 {
        Seq::empty()
    } else if e.last().kind == git_object_t::GIT_OBJECT_TREE {
        subtree_ids(e.drop_last()).push(e.last().oid)
    } else {
        subtree_ids(e.drop_last())
    }
}

/// The names and ids of the blobs among tree entries, in order.
pub open spec fn blob_entries(e: Seq<TreeEntry>) -> Seq<(Seq<char>, git_oid)>
    decreases e.len(),
{
    if e.len() == 0 {
        Seq::empty()
    } else if e.last().kind == git_object_t::GIT_OBJECT_BLOB {
        blob_entries(e.drop_last()).push((e.last().name@, e.last().oid))
    } else {
        blob_entries(e.drop_last())
    }
}

/// The subtrees of a listing are exactly the ids of its tree entries, and
/// its blobs exactly the names and ids of its blob entries, in order.
pub proof fn lemma_listing_kinds(e: Seq<TreeEntry>)
    ensures
        forall|x: git_oid| subtree_ids(e).contains(x) <==> exists|i: int|
            0 <= i < e.len() && (#[trigger] e[i]).kind == git_object_t::GIT_OBJECT_TREE && e[i].oid == x,
        forall|x: (Seq<char>, git_oid)| blob_entries(e).contains(x) <==> exists|i: int|
            0 <= i < e.len() && (#[trigger] e[i]).kind == git_object_t::GIT_OBJECT_BLOB && (e[i].name@, e[i].oid) == x,
        subtree_ids(e).len() + blob_entries(e).len() <= e.len(),
    decreases e.len(),
{
    if e.len() > 0 {
        let d = e.drop_last();
        lemma_listing_kinds(d);
        assert forall|i: int| 0 <= i < d.len() implies #[trigger] d[i] == e[i] by {}
        assert forall|x: git_oid| subtree_ids(e).contains(x) <==> exists|i: int|
            0 <= i < e.len() && (#[trigger] e[i]).kind == git_object_t::GIT_OBJECT_TREE && e[i].oid == x by {
            if subtree_ids(e).contains(x) {
                if e.last().kind == git_object_t::GIT_OBJECT_TREE && x == e.last().oid {
                    assert(e[e.len() - 1].kind == git_object_t::GIT_OBJECT_TREE);
                } else {
                    let k = choose|k: int| 0 <= k < subtree_ids(e).len() && subtree_ids(e)[k] == x;
                    if e.last().kind == git_object_t::GIT_OBJECT_TREE {
                        assert(k < subtree_ids(d).len());
                        assert(subtree_ids(d)[k] == x);
                    }
                    assert(subtree_ids(d).contains(x));
                    let i = choose|i: int| 0 <= i < d.len() && (#[trigger] d[i]).kind == git_object_t::GIT_OBJECT_TREE && d[i].oid == x;
                    assert(e[i] == d[i]);
                }
            }
            if exists|i: int| 0 <= i < e.len() && (#[trigger] e[i]).kind == git_object_t::GIT_OBJECT_TREE && e[i].oid == x {
                let i = choose|i: int| 0 <= i < e.len() && (#[trigger] e[i]).kind == git_object_t::GIT_OBJECT_TREE && e[i].oid == x;
                if i == e.len() - 1 {
                    assert(subtree_ids(e) == subtree_ids(d).push(x));
                    assert(subtree_ids(e)[subtree_ids(d).len() as int] == x);
                } else {
                    assert(d[i] == e[i]);
                    assert(subtree_ids(d).contains(x));
                    let k = choose|k: int| 0 <= k < subtree_ids(d).len() && subtree_ids(d)[k] == x;
                    if e.last().kind == git_object_t::GIT_OBJECT_TREE {
                        assert(subtree_ids(e)[k] == x);
                    }
                }
            }
        }
        assert forall|x: (Seq<char>, git_oid)| blob_entries(e).contains(x) <==> exists|i: int|
            0 <= i < e.len() && (#[trigger] e[i]).kind == git_object_t::GIT_OBJECT_BLOB && (e[i].name@, e[i].oid) == x by {
            if blob_entries(e).contains(x) {
                if e.last().kind == git_object_t::GIT_OBJECT_BLOB && x == (e.last().name@, e.last().oid) {
                    assert(e[e.len() - 1].kind == git_object_t::GIT_OBJECT_BLOB);
                } else {
                    let k = choose|k: int| 0 <= k < blob_entries(e).len() && blob_entries(e)[k] == x;
                    if e.last().kind == git_object_t::GIT_OBJECT_BLOB {
                        assert(k < blob_entries(d).len());
                        assert(blob_entries(d)[k] == x);
                    }
                    assert(blob_entries(d).contains(x));
                    let i = choose|i: int| 0 <= i < d.len() && (#[trigger] d[i]).kind == git_object_t::GIT_OBJECT_BLOB && (d[i].name@, d[i].oid) == x;
                    assert(e[i] == d[i]);
                }
            }
            if exists|i: int| 0 <= i < e.len() && (#[trigger] e[i]).kind == git_object_t::GIT_OBJECT_BLOB && (e[i].name@, e[i].oid) == x {
                let i = choose|i: int| 0 <= i < e.len() && (#[trigger] e[i]).kind == git_object_t::GIT_OBJECT_BLOB && (e[i].name@, e[i].oid) == x;
                if i == e.len() - 1 {
                    assert(blob_entries(e) == blob_entries(d).push(x));
                    assert(blob_entries(e)[blob_entries(d).len() as int] == x);
                } else {
                    assert(d[i] == e[i]);
                    assert(blob_entries(d).contains(x));
                    let k = choose|k: int| 0 <= k < blob_entries(d).len() && blob_entries(d)[k] == x;
                    if e.last().kind == git_object_t::GIT_OBJECT_BLOB {
                        assert(blob_entries(e)[k] == x);
                    }
                }
            }
        }
    }
}

/// The names and ids of a list of named objects.
pub open spec fn named_ids(v: Seq<(String, git_oid)>) -> Seq<(Seq<char>, git_oid)> {
    v.map_values(|e: (String, git_oid)| (e.0@, e.1))
}

/// Sorts tree entries into the ids of subtrees and the names and ids of
/// blobs, keeping their order; other entries are left out.
pub fn classify_entries(entries: &Vec<TreeEntry>) -> (r: (Vec<git_oid>, Vec<(String, git_oid)>))
    ensures
        r.0@ == subtree_ids(entries@),
        named_ids(r.1@) == blob_entries(entries@),
{
    let mut trees: Vec<git_oid> = Vec::new();
    let mut blobs: Vec<(String, git_oid)> = Vec::new();
    let mut i: usize = 0;
    assert(entries@.subrange(0, 0) =~= Seq::<TreeEntry>::empty());
    while i < entries.len()
        invariant
            i <= entries@.len(),
            trees@ == subtree_ids(entries@.subrange(0, i as int)),
            named_ids(blobs@) == blob_entries(entries@.subrange(0, i as int)),
        decreases entries@.len() - i,
    {
        let ghost next = entries@.subrange(0, i + 1);
        assert(next.drop_last() =~= entries@.subrange(0, i as int));
        let e = &entries[i];
        if e.kind == git_object_t::GIT_OBJECT_TREE {
            trees.push(e.oid);
        } else if e.kind == git_object_t::GIT_OBJECT_BLOB {
            let ghost before = blobs@;
            blobs.push((e.name.clone(), e.oid));
            assert(named_ids(blobs@) =~= named_ids(before).push((e.name@, e.oid)));
        }
        i = i + 1;
    }
    assert(entries@.subrange(0, entries@.len() as int) =~= entries@);
    (trees, blobs)
}

/// The subtree ids of several tree listings, one listing after another.
pub open spec fn all_subtree_ids(ls: Seq<Vec<TreeEntry>>) -> Seq<git_oid>
    decreases ls.len(),
{
    if ls.len() == 0 {
        Seq::empty()
    } else {
        all_subtree_ids(ls.drop_last()) + subtree_ids(ls.last()@)
    }
}

/// The blobs of several tree listings, one listing after another.
pub open spec fn all_blob_entries(ls: Seq<Vec<TreeEntry>>) -> Seq<(Seq<char>, git_oid)>
    decreases ls.len(),
{
    if ls.len() == 0 {
        Seq::empty()
    } else {
        all_blob_entries(ls.drop_last()) + blob_entries(ls.last()@)
    }
}

/// The state of a breadth-first walk of a dataset's feature trees: the
/// trees of the current level still to be listed, and the blobs met so
/// far above them.
pub struct FeatureWalk {
    pub current_trees: Vec<git_oid>,
    pub direct_blobs: Vec<(String, git_oid)>,
}

/// The level width at which the walk stops expanding and hands whole
/// subtrees out to threads.
pub open spec fn target_subtrees() -> nat {
    64
}

/// How feature collection finishes once the walk has stopped expanding.
#[derive(Debug)]
pub enum WalkPlan {
    /// No subtrees are left: the blobs met are all the features.
    Done,
    /// One subtree is left, to be walked on this thread.
    Sequential(git_oid),
    /// The subtrees left, in groups, one group per thread.
    Parallel(Vec<Vec<git_oid>>),
}

/// The number of threads to walk `n` subtrees with: at most 16, at most
/// `n`, and at most `available` (8 when unknown).
pub open spec fn spec_walk_threads(available: Option<usize>, n: nat) -> nat {
    let a: nat = match available {
        Some(a) => a as nat,
        None => 8,
    };
    let t = if a < n { a } else { n };
    if t < 16 { t } else { 16 }
}

/// `s` cut into consecutive groups of `size` items, the last one shorter
/// when `size` does not divide the length.
pub open spec fn spec_chunks(s: Seq<git_oid>, size: nat) -> Seq<Seq<git_oid>>
    decreases s.len(),
{
    if s.len() == 0 || size == 0 {
        Seq::empty()
    } else if s.len() <= size {
        seq![s]
    } else {
        seq![s.subrange(0, size as int)] + spec_chunks(s.subrange(size as int, s.len() as int), size)
    }
}

/// The items of the groups, one group after another.
pub open spec fn flatten_chunks(c: Seq<Seq<git_oid>>) -> Seq<git_oid>
    decreases c.len(),
{
    if c.len() == 0 {
        Seq::empty()
    } else {
        c[0] + flatten_chunks(c.subrange(1, c.len() as int))
    }
}

/// Cutting into groups loses and reorders nothing.
pub proof fn lemma_chunks_flatten(s: Seq<git_oid>, size: nat)
    requires
        size > 0,
    ensures
        flatten_chunks(spec_chunks(s, size)) == s,
    decreases s.len(),
{
    if s.len() == 0 {
    } else if s.len() <= size {
        let c = seq![s];
        assert(c.subrange(1, 1) =~= Seq::<Seq<git_oid>>::empty());
        assert(flatten_chunks(c.subrange(1, 1)) =~= Seq::<git_oid>::empty());
        assert(s + Seq::<git_oid>::empty() =~= s);
    } else {
        let rest = s.subrange(size as int, s.len() as int);
        lemma_chunks_flatten(rest, size);
        let c = seq![s.subrange(0, size as int)] + spec_chunks(rest, size);
        assert(c.subrange(1, c.len() as int) =~= spec_chunks(rest, size));
        assert(s.subrange(0, size as int) + rest =~= s);
    }
}

/// Cutting into groups of `size` gives `ceil(n / size)` groups, none empty,
/// each of `size` items but possibly the last, which holds the rest.
pub proof fn lemma_chunks_shape(s: Seq<git_oid>, size: nat)
    requires
        size > 0,
    ensures
        spec_chunks(s, size).len() == ceil_div_nat(s.len(), size),
        forall|i: int| 0 <= i < spec_chunks(s, size).len() ==> 0 < (#[trigger] spec_chunks(s, size)[i]).len() <= size,
        forall|i: int| 0 <= i < spec_chunks(s, size).len() - 1 ==> (#[trigger] spec_chunks(s, size)[i]).len() == size,
    decreases s.len(),
{
    let c = spec_chunks(s, size);
    if s.len() == 0 {
        assert(ceil_div_nat(0, size) == 0) by (nonlinear_arith)
            requires size > 0;
    } else if s.len() <= size {
        assert(ceil_div_nat(s.len(), size) == 1) by (nonlinear_arith)
            requires size > 0, 0 < s.len() <= size;
    } else {
        let rest = s.subrange(size as int, s.len() as int);
        lemma_chunks_shape(rest, size);
        let cr = spec_chunks(rest, size);
        assert(c == seq![s.subrange(0, size as int)] + cr);
        assert(ceil_div_nat(s.len(), size) == 1 + ceil_div_nat(rest.len(), size)) by (nonlinear_arith)
            requires size > 0, s.len() > size, rest.len() == s.len() - size;
        assert forall|i: int| 0 <= i < c.len() implies 0 < (#[trigger] c[i]).len() <= size by {
            if i > 0 {
                assert(c[i] == cr[i - 1]);
            }
        }
        assert forall|i: int| 0 <= i < c.len() - 1 implies (#[trigger] c[i]).len() == size by {
            if i > 0 {
                assert(c[i] == cr[i - 1]);
            }
        }
    }
}

/// A walk that hands its `n` subtrees (more than one) out to threads uses
/// between one and 16 threads, no more than there are subtrees, and cuts
/// the subtrees into at most that many groups.
pub proof fn lemma_plan_groups_fit_threads(n: nat, available: Option<usize>)
    requires
        n > 1,
        available matches Some(a) ==> a > 0,
    ensures
        1 <= spec_walk_threads(available, n) <= 16,
        spec_walk_threads(available, n) <= n,
        ceil_div_nat(n, ceil_div_nat(n, spec_walk_threads(available, n))) <= spec_walk_threads(available, n),
{
    let t = spec_walk_threads(available, n);
    let size = ceil_div_nat(n, t);
    assert(size * t >= n && size >= 1) by (nonlinear_arith)
        requires t >= 1, size == (n + t - 1) / (t as int), n > 1;
    assert(ceil_div_nat(n, size) <= t) by (nonlinear_arith)
        requires size >= 1, size * t >= n, t >= 1, ceil_div_nat(n, size) == (n + size - 1) / (size as int);
}

/// Cuts `items` into consecutive groups of `size`.
pub fn split_chunks(items: &Vec<git_oid>, size: usize) -> (r: Vec<Vec<git_oid>>)
    requires
        size > 0,
    ensures
        r@.map_values(|c: Vec<git_oid>| c@) == spec_chunks(items@, size as nat),
{
    let mut out: Vec<Vec<git_oid>> = Vec::new();
    let mut pos: usize = 0;
    let n = items.len();
    assert(items@.subrange(0, n as int) =~= items@);
    while pos < n
        invariant
            pos <= n,
            n == items@.len(),
            size > 0,
            out@.map_values(|c: Vec<git_oid>| c@) + spec_chunks(items@.subrange(pos as int, n as int), size as nat)
                == spec_chunks(items@, size as nat),
        decreases n - pos,
    {
        let end = if n - pos <= size { n } else { pos + size };
        let mut chunk: Vec<git_oid> = Vec::new();
        let mut k = pos;
        while k < end
            invariant
                pos <= k <= end <= n,
                n == items@.len(),
                chunk@ == items@.subrange(pos as int, k as int),
            decreases end - k,
        {
            chunk.push(items[k]);
            k = k + 1;
            assert(chunk@ =~= items@.subrange(pos as int, k as int));
        }
        let ghost rest = items@.subrange(pos as int, n as int);
        let ghost before = out@.map_values(|c: Vec<git_oid>| c@);
        if n - pos > size {
            assert(rest.subrange(0, size as int) =~= chunk@);
            assert(rest.subrange(size as int, rest.len() as int) =~= items@.subrange(end as int, n as int));
        } else {
            assert(rest =~= chunk@);
            assert(items@.subrange(end as int, n as int) =~= Seq::<git_oid>::empty());
        }
        out.push(chunk);
        assert(out@.map_values(|c: Vec<git_oid>| c@) =~= before.push(chunk@));
        assert(before.push(chunk@) + spec_chunks(items@.subrange(end as int, n as int), size as nat)
            =~= before + spec_chunks(rest, size as nat));
        pos = end;
    }
    assert(items@.subrange(n as int, n as int) =~= Seq::<git_oid>::empty());
    assert(out@.map_values(|c: Vec<git_oid>| c@) + Seq::<Seq<git_oid>>::empty() =~= out@.map_values(|c: Vec<git_oid>| c@));
    out
}

impl FeatureWalk {
    /// A walk that starts at the feature tree `root`.
    pub fn new(root: git_oid) -> (w: FeatureWalk)
        ensures
            w.current_trees@ == seq![root],
            w.direct_blobs@.len() == 0,
    {
        FeatureWalk { current_trees: vec![root], direct_blobs: Vec::new() }
    }

    /// Whether the current level is to be listed and expanded: it has
    /// trees, fewer than the target width.
    pub fn wants_listing(&self) -> (b: bool)
        ensures
            b == (self.current_trees@.len() > 0 && self.current_trees@.len() < target_subtrees()),
    {
        !self.current_trees.is_empty() && self.current_trees.len() < 64
    }

    /// Moves one level down, given the entries of each current tree (an
    /// unreadable tree given as no entries): the subtrees found form the
    /// next level and the blobs found are kept. A level without subtrees
    /// ends the expansion with no trees left.
    pub fn expand(&mut self, listings: Vec<Vec<TreeEntry>>)
        requires
            listings@.len() == old(self).current_trees@.len(),
        ensures
            final(self).current_trees@ == all_subtree_ids(listings@),
            named_ids(final(self).direct_blobs@) == named_ids(old(self).direct_blobs@) + all_blob_entries(listings@),
    {
        let ghost start = named_ids(self.direct_blobs@);
        let mut next: Vec<git_oid> = Vec::new();
        let mut i: usize = 0;
        assert(listings@.subrange(0, 0) =~= Seq::<Vec<TreeEntry>>::empty());
        assert(start + Seq::<(Seq<char>, git_oid)>::empty() =~= start);
        while i < listings.len()
            invariant
                i <= listings@.len(),
                next@ == all_subtree_ids(listings@.subrange(0, i as int)),
                named_ids(self.direct_blobs@) == start + all_blob_entries(listings@.subrange(0, i as int)),
            decreases listings@.len() - i,
        {
            let ghost sub = listings@.subrange(0, i + 1);
            assert(sub.drop_last() =~= listings@.subrange(0, i as int));
            let (trees, blobs) = classify_entries(&listings[i]);
            let ghost before_next = next@;
            let ghost before_blobs = named_ids(self.direct_blobs@);
            let mut t: usize = 0;
            while t < trees.len()
                invariant
                    t <= trees@.len(),
                    next@ == before_next + trees@.subrange(0, t as int),
                decreases trees@.len() - t,
            {
                next.push(trees[t]);
                t = t + 1;
                assert(next@ =~= before_next + trees@.subrange(0, t as int));
            }
            let mut b: usize = 0;
            while b < blobs.len()
                invariant
                    b <= blobs@.len(),
                    named_ids(self.direct_blobs@) == before_blobs + named_ids(blobs@).subrange(0, b as int),
                decreases blobs@.len() - b,
            {
                let ghost prev = self.direct_blobs@;
                self.direct_blobs.push((blobs[b].0.clone(), blobs[b].1));
                assert(named_ids(self.direct_blobs@) =~= named_ids(prev).push((blobs@[b as int].0@, blobs@[b as int].1)));
                b = b + 1;
                assert(named_ids(self.direct_blobs@) =~= before_blobs + named_ids(blobs@).subrange(0, b as int));
            }
            assert(trees@.subrange(0, trees@.len() as int) =~= trees@);
            assert(named_ids(blobs@).subrange(0, blobs@.len() as int) =~= named_ids(blobs@));
            assert(start + all_blob_entries(sub) =~= start + all_blob_entries(listings@.subrange(0, i as int)) + named_ids(blobs@));
            i = i + 1;
        }
        assert(listings@.subrange(0, listings@.len() as int) =~= listings@);
        self.current_trees = next;
    }

    /// How to finish once the walk no longer wants listings; `available`
    /// is the machine's parallelism when known.
    pub fn plan(&self, available: Option<usize>) -> (p: WalkPlan)
        requires
            available matches Some(a) ==> a > 0,
        ensures
            self.current_trees@.len() == 0 ==> p is Done,
            self.current_trees@.len() == 1 ==> p == WalkPlan::Sequential(self.current_trees@[0]),
            self.current_trees@.len() > 1 ==> (p matches WalkPlan::Parallel(chunks)
                && chunks@.map_values(|c: Vec<git_oid>| c@) == spec_chunks(
                    self.current_trees@,
                    ceil_div_nat(self.current_trees@.len(), spec_walk_threads(available, self.current_trees@.len())),
                )),
    {
        let n = self.current_trees.len();
        if n == 0 {
            return WalkPlan::Done;
        }
        if n <= 1 {
            return WalkPlan::Sequential(self.current_trees[0]);
        }
        let a = match available {
            Some(a) => a,
            None => 8,
        };
        let t = if a < n { a } else { n };
        let num_threads = if t < 16 { t } else { 16 };
        assert(num_threads >= 1);
        assert(((n - 1) as usize) / num_threads <= n - 1) by (nonlinear_arith)
            requires
                num_threads >= 1,
                n >= 1,
        {
        }
        let chunk_size = (n - 1) / num_threads + 1;
        assert(chunk_size == ceil_div_nat(n as nat, num_threads as nat)) by (nonlinear_arith)
            requires
                num_threads >= 1,
                n >= 1,
                chunk_size == ((n - 1) as usize) / num_threads + 1,
        {
        }
        WalkPlan::Parallel(split_chunks(&self.current_trees, chunk_size))
    }
}

/// `n` divided by `d`, rounded up.
pub open spec fn ceil_div_nat(n: nat, d: nat) -> nat {
    if d == 0 {
        0
    } else {
        ((n + d - 1) / (d as int)) as nat
    }
}

/// What looking up one component of a path in a tree's entries decides.
#[derive(Debug, PartialEq, Eq)]
pub enum PathStep {
    /// The last component names this entry.
    Found(git_oid, git_object_t),
    /// The component names this subtree, where the lookup goes on.
    Descend(git_oid),
    /// The component names an entry that is not a tree, but more
    /// components follow.
    NotATree,
    /// No entry has the component's name.
    NotFound,
}

/// The first position at or after `i` of an entry named `name`.
pub open spec fn entry_index_from(e: Seq<TreeEntry>, name: Seq<char>, i: int) -> Option<int>
    decreases e.len() - i,
{
    if i < 0 || i >= e.len() {
        None
    } else if e[i].name@ == name {
        Some(i)
    } else {
        entry_index_from(e, name, i + 1)
    }
}

/// The decision for path component `part` among tree entries `e`, when it
/// is or is not the path's last component.
pub open spec fn spec_path_step(e: Seq<TreeEntry>, part: Seq<char>, is_last: bool) -> PathStep {
    match entry_index_from(e, part, 0) {
        None => PathStep::NotFound,
        Some(i) => if is_last {
            PathStep::Found(e[i].oid, e[i].kind)
        } else if e[i].kind == git_object_t::GIT_OBJECT_TREE {
            PathStep::Descend(e[i].oid)
        } else {
            PathStep::NotATree
        },
    }
}

proof fn lemma_entry_index_from(e: Seq<TreeEntry>, name: Seq<char>, i: int)
    requires
        0 <= i,
    ensures
        match entry_index_from(e, name, i) {
            Some(p) => i <= p < e.len() && e[p].name@ == name && forall|j: int| i <= j < p ==> e[j].name@ != name,
            None => forall|j: int| i <= j < e.len() ==> e[j].name@ != name,
        },
    decreases e.len() - i,
{
    if i < e.len() && e[i].name@ != name {
        lemma_entry_index_from(e, name, i + 1);
    }
}

/// Looking up a path component takes the first entry with its name: the
/// last component is found as that entry's object and kind; an earlier
/// one descends into that entry when it is a tree and fails as not a tree
/// otherwise; a name that no entry has is not found.
pub proof fn lemma_path_step_first_entry(e: Seq<TreeEntry>, part: Seq<char>, is_last: bool)
    ensures
        spec_path_step(e, part, is_last) is NotFound <==> forall|j: int| 0 <= j < e.len() ==> e[j].name@ != part,
        !(spec_path_step(e, part, is_last) is NotFound) ==> exists|i: int|
            0 <= i < e.len() && #[trigger] e[i].name@ == part && (forall|j: int| 0 <= j < i ==> e[j].name@ != part) && (
            match spec_path_step(e, part, is_last) {
                PathStep::Found(oid, kind) => is_last && oid == e[i].oid && kind == e[i].kind,
                PathStep::Descend(oid) => !is_last && e[i].kind == git_object_t::GIT_OBJECT_TREE && oid == e[i].oid,
                PathStep::NotATree => !is_last && e[i].kind != git_object_t::GIT_OBJECT_TREE,
                PathStep::NotFound => false,
            }),
{
    lemma_entry_index_from(e, part, 0);
    if let Some(p) = entry_index_from(e, part, 0) {
        assert(e[p].name@ == part);
    }
}

/// Looks up one path component among a tree's entries.
pub fn path_step(entries: &Vec<TreeEntry>, part: &str, is_last: bool) -> (s: PathStep)
    ensures
        s == spec_path_step(entries@, part@, is_last),
{
    let mut i: usize = 0;
    while i < entries.len()
        invariant
            i <= entries@.len(),
            entry_index_from(entries@, part@, 0) == entry_index_from(entries@, part@, i as int),
        decreases entries@.len() - i,
    {
        let e = &entries[i];
        if crate::kart::str_eq(e.name.as_str(), part) {
            if is_last {
                return PathStep::Found(e.oid, e.kind);
            } else if e.kind == git_object_t::GIT_OBJECT_TREE {
                return PathStep::Descend(e.oid);
            } else {
                return PathStep::NotATree;
            }
        }
        i = i + 1;
    }
    PathStep::NotFound
}

/// The non-empty `/`-separated components of a path, built character by
/// character: a character other than `/` extends the component in
/// progress, or starts one after a `/` or at the start.
pub open spec fn path_parts(s: Seq<char>) -> Seq<Seq<char>>
    decreases s.len(),
{
    if s.len() == 0 {
        Seq::empty()
    } else if s.last() == '/' {
        path_parts(s.drop_last())
    } else {
        let p = path_parts(s.drop_last());
        if s.len() >= 2 && s[s.len() - 2] != '/' {
            p.update(p.len() - 1, p.last().push(s.last()))
        } else {
            p.push(seq![s.last()])
        }
    }
}

/// The components of a path are non-empty and hold no `/`; a path that
/// does not end in `/` has at least one.
pub proof fn lemma_path_parts_clean(s: Seq<char>)
    ensures
        s.len() > 0 && s.last() != '/' ==> path_parts(s).len() > 0,
        forall|i: int| 0 <= i < path_parts(s).len()
            ==> (#[trigger] path_parts(s)[i]).len() > 0 && !path_parts(s)[i].contains('/'),
    decreases s.len(),
{
    if s.len() > 0 {
        let d = s.drop_last();
        lemma_path_parts_clean(d);
        if s.last() != '/' {
            let p = path_parts(d);
            let c = s.last();
            if s.len() >= 2 && s[s.len() - 2] != '/' {
                assert(d.last() == s[s.len() - 2]);
                let q = p.update(p.len() - 1, p.last().push(c));
                assert(q == path_parts(s));
                assert forall|i: int| 0 <= i < q.len() implies (#[trigger] q[i]).len() > 0 && !q[i].contains('/') by {
                    if i == p.len() - 1 {
                        let w = p.last().push(c);
                        assert(q[i] == w);
                        if w.contains('/') {
                            let k = choose|k: int| 0 <= k < w.len() && w[k] == '/';
                            assert(k < p.last().len());
                            assert(p.last()[k] == '/');
                            assert(p[p.len() - 1].contains('/'));
                        }
                    } else {
                        assert(q[i] == p[i]);
                    }
                }
            } else {
                let q = p.push(seq![c]);
                assert(q == path_parts(s));
                assert forall|i: int| 0 <= i < q.len() implies (#[trigger] q[i]).len() > 0 && !q[i].contains('/') by {
                    if i < p.len() {
                        assert(q[i] == p[i]);
                    } else {
                        assert(q[i] == seq![c]);
                        if q[i].contains('/') {
                            let k = choose|k: int| 0 <= k < q[i].len() && q[i][k] == '/';
                            assert(k == 0);
                        }
                    }
                }
            }
        }
    }
}

/// Components joined by `/`.
pub open spec fn join_with_slash(parts: Seq<Seq<char>>) -> Seq<char>
    decreases parts.len(),
{
    if parts.len() == 0 {
        Seq::empty()
    } else if parts.len() == 1 {
        parts[0]
    } else {
        join_with_slash(parts.drop_last()) + seq!['/'] + parts.last()
    }
}

/// Whether a path has no `/` at its start or end and never two in a row.
pub open spec fn clean_path(s: Seq<char>) -> bool {
    s.len() > 0 ==> (s[0] != '/' && s.last() != '/' && forall|i: int| 0 <= i < s.len() - 1 && s[i] == '/' ==> #[trigger] s[i + 1] != '/')
}

/// The components of a clean path, joined by `/`, give the path back: the
/// path is cut exactly at its slashes.
pub proof fn lemma_path_parts_rejoin(s: Seq<char>)
    requires
        clean_path(s),
    ensures
        join_with_slash(path_parts(s)) == s,
    decreases s.len(),
{
    if s.len() > 0 {
        let n = s.len();
        let c = s.last();
        let d = s.drop_last();
        if n == 1 {
            assert(d =~= Seq::<char>::empty());
            assert(path_parts(d) =~= Seq::<Seq<char>>::empty());
            assert(c != '/');
            assert(path_parts(s) =~= seq![seq![c]]);
            assert(seq![c] =~= s);
        } else if s[n - 2] != '/' {
            assert(clean_path(d)) by {
                assert(d[0] == s[0]);
                assert(d.last() == s[n - 2]);
                assert forall|i: int| 0 <= i < d.len() - 1 && d[i] == '/' implies #[trigger] d[i + 1] != '/' by {
                    assert(d[i] == s[i] && d[i + 1] == s[i + 1]);
                }
            }
            lemma_path_parts_rejoin(d);
            lemma_path_parts_clean(d);
            let p = path_parts(d);
            assert(d.last() == s[n - 2]);
            let q = p.update(p.len() - 1, p.last().push(c));
            assert(path_parts(s) == q);
            if p.len() == 1 {
                assert(join_with_slash(q) == q[0]);
                assert(q[0] =~= d.push(c));
            } else {
                assert(q.drop_last() =~= p.drop_last());
                assert(join_with_slash(q) =~= join_with_slash(p).push(c));
            }
            assert(d.push(c) =~= s);
        } else {
            let e = d.drop_last();
            assert(d.last() == '/');
            assert(n >= 3) by {
                if n == 2 {
                    assert(s[0] == s[n - 2]);
                }
            }
            assert(clean_path(e)) by {
                assert(e[0] == s[0]);
                assert(e.last() == s[n - 3]);
                assert(s[n - 3] != '/') by {
                    let i = n - 3;
                    if s[i] == '/' {
                        assert(0 <= i < s.len() - 1);
                        assert(s[i + 1] != '/');
                    }
                }
                assert forall|i: int| 0 <= i < e.len() - 1 && e[i] == '/' implies #[trigger] e[i + 1] != '/' by {
                    assert(e[i] == s[i] && e[i + 1] == s[i + 1]);
                }
            }
            lemma_path_parts_rejoin(e);
            lemma_path_parts_clean(e);
            assert(path_parts(d) == path_parts(e));
            let p = path_parts(e);
            let q = p.push(seq![c]);
            assert(path_parts(s) == q);
            assert(q.drop_last() =~= p);
            assert(q.len() >= 2);
            assert(join_with_slash(q) == join_with_slash(p) + seq!['/'] + seq![c]);
            assert(e + seq!['/'] + seq![c] =~= s);
        }
    }
}

/// The non-empty `/`-separated components of a path.
pub fn split_path(path: &str) -> (parts: Vec<String>)
    ensures
        parts@.map_values(|p: String| p@) == path_parts(path@),
{
    let ghost s = path@;
    let n = path.unicode_len();
    let mut parts: Vec<String> = Vec::new();
    let mut start: usize = 0;
    let mut i: usize = 0;
    let mut prev_is_slash = true;
    while i < n
        invariant
            n == s.len(),
            i > 0 ==> prev_is_slash == (s[i - 1] == '/'),
            i == 0 ==> prev_is_slash,
            s == path@,
            start <= i <= n,
            forall|k: int| start <= k < i ==> s[k] != '/',
            start == 0 || s[start - 1] == '/',
            path_parts(s.subrange(0, i as int)) == parts@.map_values(|p: String| p@) + (if start < i {
                seq![s.subrange(start as int, i as int)]
            } else {
                Seq::<Seq<char>>::empty()
            }),
        decreases n - i,
    {
        let ghost before = parts@.map_values(|p: String| p@);
        let ghost t = s.subrange(0, i + 1);
        assert(t.drop_last() =~= s.subrange(0, i as int));
        let c = path.get_char(i);
        if c == '/' {
            if start < i {
                let part = path.substring_char(start, i).to_owned();
                parts.push(part);
                assert(parts@.map_values(|p: String| p@) =~= before.push(s.subrange(start as int, i as int)));
                assert(before + seq![s.subrange(start as int, i as int)] =~= before.push(s.subrange(start as int, i as int)));
            }
            start = i + 1;
            assert(parts@.map_values(|p: String| p@) + Seq::<Seq<char>>::empty() =~= parts@.map_values(|p: String| p@));
        } else {
            if !prev_is_slash {
                assert(start < i);
                let ghost p = path_parts(s.subrange(0, i as int));
                assert(c == s[i as int]);
                assert(p =~= before + seq![s.subrange(start as int, i as int)]);
                assert(p.last() == s.subrange(start as int, i as int));
                assert(s.subrange(start as int, i as int).push(c) =~= s.subrange(start as int, i + 1));
                assert(p.update(p.len() - 1, p.last().push(c)) =~= before + seq![s.subrange(start as int, i + 1)]);
            } else {
                assert(start == i);
                assert(c == s[i as int]);
                assert(seq![c] =~= s.subrange(start as int, i + 1));
                assert(before + Seq::<Seq<char>>::empty() =~= before);
                assert(before.push(seq![c]) =~= before + seq![s.subrange(start as int, i + 1)]);
            }
        }
        prev_is_slash = c == '/';
        i = i + 1;
    }
    assert(s.subrange(0, n as int) =~= s);
    if start < n {
        let ghost before = parts@.map_values(|p: String| p@);
        let part = path.substring_char(start, n).to_owned();
        parts.push(part);
        assert(parts@.map_values(|p: String| p@) =~= before + seq![s.subrange(start as int, n as int)]);
    } else {
        assert(parts@.map_values(|p: String| p@) + Seq::<Seq<char>>::empty() =~= parts@.map_values(|p: String| p@));
    }
    parts
}

/// Whether `c` is white space in the sense of Unicode's `White_Space`
/// property, as `char::is_whitespace` has it.
pub open spec fn is_unicode_space(c: char) -> bool {
    let u = c as u32;
    (0x09 <= u <= 0x0d) || u == 0x20 || u == 0x85 || u == 0xa0 || u == 0x1680 || (0x2000 <= u <= 0x200a)
        || u == 0x2028 || u == 0x2029 || u == 0x202f || u == 0x205f || u == 0x3000
}

/// `s` without its leading white space.
pub open spec fn trim_start(s: Seq<char>) -> Seq<char>
    decreases s.len(),
{
    if s.len() > 0 && is_unicode_space(s[0]) {
        trim_start(s.subrange(1, s.len() as int))
    } else {
        s
    }
}

/// `s` without its trailing white space.
pub open spec fn trim_end(s: Seq<char>) -> Seq<char>
    decreases s.len(),
{
    if s.len() > 0 && is_unicode_space(s.last()) {
        trim_end(s.drop_last())
    } else {
        s
    }
}

/// `s` without leading and trailing white space.
pub open spec fn trim(s: Seq<char>) -> Seq<char> {
    trim_end(trim_start(s))
}

/// The text of a `.git` file that points to a repository elsewhere:
/// `gitdir:` and a path, with white space around both trimmed.
pub open spec fn spec_gitdir_target(content: Seq<char>) -> Option<Seq<char>> {
    let t = trim(content);
    if t.len() >= 7 && t.subrange(0, 7) == "gitdir:"@ {
        Some(trim(t.subrange(7, t.len() as int)))
    } else {
        None
    }
}

/// Whether every character of `w` is white space.
pub open spec fn all_space(w: Seq<char>) -> bool {
    forall|i: int| 0 <= i < w.len() ==> is_unicode_space(#[trigger] w[i])
}

proof fn lemma_trim_start_space(w: Seq<char>, x: Seq<char>)
    requires
        all_space(w),
    ensures
        trim_start(w + x) == trim_start(x),
    decreases w.len(),
{
    if w.len() == 0 {
        assert(w + x =~= x);
    } else {
        let w1 = w.subrange(1, w.len() as int);
        assert((w + x)[0] == w[0]);
        assert((w + x).subrange(1, (w + x).len() as int) =~= w1 + x);
        assert(all_space(w1)) by {
            assert forall|i: int| 0 <= i < w1.len() implies is_unicode_space(#[trigger] w1[i]) by {
                assert(w1[i] == w[i + 1]);
            }
        }
        lemma_trim_start_space(w1, x);
    }
}

proof fn lemma_trim_end_space(x: Seq<char>, w: Seq<char>)
    requires
        all_space(w),
    ensures
        trim_end(x + w) == trim_end(x),
    decreases w.len(),
{
    if w.len() == 0 {
        assert(x + w =~= x);
    } else {
        let w1 = w.drop_last();
        assert((x + w).last() == w.last());
        assert((x + w).drop_last() =~= x + w1);
        assert(all_space(w1)) by {
            assert forall|i: int| 0 <= i < w1.len() implies is_unicode_space(#[trigger] w1[i]) by {
                assert(w1[i] == w[i]);
            }
        }
        lemma_trim_end_space(x, w1);
    }
}

/// The text of a `.git` file that is `gitdir:` and a path, with any white
/// space before and after each, points to exactly that path.
pub proof fn lemma_gitdir_target_reads_path(w1: Seq<char>, w2: Seq<char>, path: Seq<char>, w3: Seq<char>)
    requires
        all_space(w1),
        all_space(w2),
        all_space(w3),
        path.len() > 0 ==> !is_unicode_space(path[0]) && !is_unicode_space(path.last()),
    ensures
        spec_gitdir_target(w1 + "gitdir:"@ + w2 + path + w3) == Some(path),
{
    reveal_strlit("gitdir:");
    let g = "gitdir:"@;
    assert(g.len() == 7 && g[0] == 'g' && g[6] == ':');
    let body = g + w2 + path;
    assert(w1 + g + w2 + path + w3 =~= w1 + (body + w3));
    lemma_trim_start_space(w1, body + w3);
    assert((body + w3)[0] == 'g');
    assert(trim_start(body + w3) == body + w3);
    lemma_trim_end_space(body, w3);
    if path.len() > 0 {
        assert(body.last() == path.last());
    } else {
        assert(body =~= g + w2);
        lemma_trim_end_space(g, w2);
        assert(g.last() == ':');
        assert(trim_end(g) == g);
    }
    let t = trim(w1 + g + w2 + path + w3);
    if path.len() > 0 {
        assert(trim_end(body) == body);
        assert(t == body);
        assert(t.subrange(0, 7) =~= g);
        assert(t.subrange(7, t.len() as int) =~= w2 + path);
        lemma_trim_start_space(w2, path);
        assert(trim_start(path) == path);
        assert(trim_end(path) == path);
    } else {
        assert(t == g);
        assert(t.subrange(0, 7) =~= g);
        assert(t.subrange(7, 7) =~= path);
    }
}

/// The bounds of `s[from..to]` without leading and trailing white space.
fn trim_bounds(s: &str, from: usize, to: usize) -> (r: (usize, usize))
    requires
        from <= to <= s@.len(),
    ensures
        from <= r.0 <= r.1 <= to,
        s@.subrange(r.0 as int, r.1 as int) == trim(s@.subrange(from as int, to as int)),
{
    let mut a = from;
    while a < to && is_space_char(s.get_char(a))
        invariant
            from <= a <= to <= s@.len(),
            trim_start(s@.subrange(from as int, to as int)) == trim_start(s@.subrange(a as int, to as int)),
        decreases to - a,
    {
        assert(s@.subrange(a as int, to as int).subrange(1, (to - a) as int) =~= s@.subrange(a + 1, to as int));
        a = a + 1;
    }
    let mut b = to;
    while b > a && is_space_char(s.get_char(b - 1))
        invariant
            from <= a <= b <= to <= s@.len(),
            trim_end(s@.subrange(a as int, to as int)) == trim_end(s@.subrange(a as int, b as int)),
        decreases b - a,
    {
        assert(s@.subrange(a as int, b as int).drop_last() =~= s@.subrange(a as int, b - 1));
        b = b - 1;
    }
    (a, b)
}

fn is_space_char(c: char) -> (r: bool)
    ensures
        r == is_unicode_space(c),
{
    let u = c as u32;
    (0x09 <= u && u <= 0x0d) || u == 0x20 || u == 0x85 || u == 0xa0 || u == 0x1680 || (0x2000 <= u && u <= 0x200a)
        || u == 0x2028 || u == 0x2029 || u == 0x202f || u == 0x205f || u == 0x3000
}

/// The repository path that the text of a `.git` file points to, when it
/// has the form `gitdir: <path>`.
pub fn gitdir_target(content: &str) -> (r: Option<String>)
    ensures
        match spec_gitdir_target(content@) {
            Some(t) => r matches Some(p) && p@ == t,
            None => r is None,
        },
{
    let n = content.unicode_len();
    let (a, b) = trim_bounds(content, 0, n);
    assert(content@.subrange(0, n as int) =~= content@);
    let ghost t = content@.subrange(a as int, b as int);
    let prefix = "gitdir:";
    proof {
        reveal_strlit("gitdir:");
    }
    if b - a < 7 {
        return None;
    }
    let mut k: usize = 0;
    while k < 7
        invariant
            a + 7 <= b <= content@.len(),
            k <= 7,
            t == content@.subrange(a as int, b as int),
            t == trim(content@),
            prefix@ == "gitdir:"@,
            prefix@.len() == 7,
            forall|j: int| 0 <= j < k ==> t[j] == prefix@[j],
        decreases 7 - k,
    {
        if content.get_char(a + k) != prefix.get_char(k) {
            assert(t[k as int] == content@[a + k]);
            assert(t.subrange(0, 7)[k as int] != "gitdir:"@[k as int]);
            assert(t.subrange(0, 7) != "gitdir:"@);
            return None;
        }
        k = k + 1;
    }
    assert(t.subrange(0, 7) =~= "gitdir:"@);
    let (c, d) = trim_bounds(content, a + 7, b);
    assert(content@.subrange(a + 7, b as int) =~= t.subrange(7, t.len() as int));
    Some(content.substring_char(c, d).to_owned())
}

/// The entries of tree `t` in a repository given by the entries of each
/// tree that can be read; a tree that cannot be read lists nothing.
pub open spec fn listing(repo: Map<git_oid, Seq<TreeEntry>>, t: git_oid) -> Seq<TreeEntry> {
    if repo.dom().contains(t) {
        repo[t]
    } else {
        Seq::empty()
    }
}

/// The blob entries found within `h` levels below the trees `trees`, each
/// counted once for every path that reaches it: the blobs of each tree and
/// those below its subtrees.
pub open spec fn blobs_below(repo: Map<git_oid, Seq<TreeEntry>>, trees: Seq<git_oid>, h: nat) -> Multiset<
    (Seq<char>, git_oid),
>
    decreases h, trees.len(),
{
    if h == 0 || trees.len() == 0 {
        Multiset::empty()
    } else {
        let l = listing(repo, trees.last());
        blobs_below(repo, trees.drop_last(), h).add(blob_entries(l).to_multiset()).add(
            blobs_below(repo, subtree_ids(l), (h - 1) as nat),
        )
    }
}

/// The blobs of the trees `trees`, tree after tree.
pub open spec fn level_blobs(repo: Map<git_oid, Seq<TreeEntry>>, trees: Seq<git_oid>) -> Seq<(Seq<char>, git_oid)>
    decreases trees.len(),
{
    if trees.len() == 0 {
        Seq::empty()
    } else {
        level_blobs(repo, trees.drop_last()) + blob_entries(listing(repo, trees.last()))
    }
}

/// The subtrees of the trees `trees`, tree after tree: the next level.
pub open spec fn level_subtrees(repo: Map<git_oid, Seq<TreeEntry>>, trees: Seq<git_oid>) -> Seq<git_oid>
    decreases trees.len(),
{
    if trees.len() == 0 {
        Seq::empty()
    } else {
        level_subtrees(repo, trees.drop_last()) + subtree_ids(listing(repo, trees.last()))
    }
}

/// The blob entries within `h` levels below `trees`, in the order a
/// breadth-first walk meets them: level by level.
pub open spec fn bfs_blobs(repo: Map<git_oid, Seq<TreeEntry>>, trees: Seq<git_oid>, h: nat) -> Seq<(Seq<char>, git_oid)>
    decreases h,
{
    if h == 0 {
        Seq::empty()
    } else {
        level_blobs(repo, trees) + bfs_blobs(repo, level_subtrees(repo, trees), (h - 1) as nat)
    }
}

/// The blob entries within `h` levels below tree `t`, in the order a
/// depth-first walk with a stack meets them: the tree's own blobs, then
/// what lies below its subtrees, the last subtree first.
pub open spec fn dfs_blobs(repo: Map<git_oid, Seq<TreeEntry>>, t: git_oid, h: nat) -> Seq<(Seq<char>, git_oid)>
    decreases h, 0nat, 0nat,
{
    if h == 0 {
        Seq::empty()
    } else {
        let l = listing(repo, t);
        blob_entries(l) + dfs_list(repo, subtree_ids(l).reverse(), (h - 1) as nat)
    }
}

/// The depth-first walks of the trees `ts`, one after another.
pub open spec fn dfs_list(repo: Map<git_oid, Seq<TreeEntry>>, ts: Seq<git_oid>, h: nat) -> Seq<(Seq<char>, git_oid)>
    decreases h, 1nat, ts.len(),
{
    if ts.len() == 0 {
        Seq::empty()
    } else {
        dfs_blobs(repo, ts[0], h) + dfs_list(repo, ts.subrange(1, ts.len() as int), h)
    }
}

/// The depth-first walks of the trees of each group, group after group.
pub open spec fn groups_dfs(repo: Map<git_oid, Seq<TreeEntry>>, groups: Seq<Seq<git_oid>>, h: nat) -> Seq<
    (Seq<char>, git_oid),
>
    decreases groups.len(),
{
    if groups.len() == 0 {
        Seq::empty()
    } else {
        dfs_list(repo, groups[0], h) + groups_dfs(repo, groups.subrange(1, groups.len() as int), h)
    }
}

/// Counting below a run of trees adds up over its parts.
proof fn lemma_blobs_below_append(repo: Map<git_oid, Seq<TreeEntry>>, x: Seq<git_oid>, y: Seq<git_oid>, h: nat)
    ensures
        blobs_below(repo, x + y, h) == blobs_below(repo, x, h).add(blobs_below(repo, y, h)),
    decreases y.len(),
{
    broadcast use vstd::multiset::group_multiset_axioms;

    if h == 0 {
        assert(blobs_below(repo, x, h).add(blobs_below(repo, y, h)) =~= Multiset::empty());
    } else if y.len() == 0 {
        assert(x + y =~= x);
        assert(blobs_below(repo, x, h).add(blobs_below(repo, y, h)) =~= blobs_below(repo, x, h));
    } else {
        let y1 = y.drop_last();
        assert((x + y).drop_last() =~= x + y1);
        assert((x + y).last() == y.last());
        lemma_blobs_below_append(repo, x, y1, h);
        assert(blobs_below(repo, x + y, h) =~= blobs_below(repo, x, h).add(blobs_below(repo, y, h)));
    }
}

/// Counting below the trees of a level is counting the level's blobs and
/// what lies below the next level.
proof fn lemma_blobs_below_level(repo: Map<git_oid, Seq<TreeEntry>>, trees: Seq<git_oid>, h: nat)
    requires
        h > 0,
    ensures
        blobs_below(repo, trees, h) == level_blobs(repo, trees).to_multiset().add(
            blobs_below(repo, level_subtrees(repo, trees), (h - 1) as nat),
        ),
    decreases trees.len(),
{
    broadcast use vstd::multiset::group_multiset_axioms;
    broadcast use vstd::seq_lib::group_to_multiset_ensures;

    if trees.len() == 0 {
        assert(level_blobs(repo, trees).to_multiset() =~= Multiset::empty());
        assert(blobs_below(repo, trees, h) =~= level_blobs(repo, trees).to_multiset().add(
            blobs_below(repo, level_subtrees(repo, trees), (h - 1) as nat),
        ));
    } else {
        let a = trees.drop_last();
        let l = listing(repo, trees.last());
        lemma_blobs_below_level(repo, a, h);
        lemma_blobs_below_append(repo, level_subtrees(repo, a), subtree_ids(l), (h - 1) as nat);
        lemma_multiset_commutative(level_blobs(repo, a), blob_entries(l));
        assert(blobs_below(repo, trees, h) =~= level_blobs(repo, trees).to_multiset().add(
            blobs_below(repo, level_subtrees(repo, trees), (h - 1) as nat),
        ));
    }
}

/// The breadth-first walk meets every blob below the trees once per path.
proof fn lemma_bfs_counts_every_blob(repo: Map<git_oid, Seq<TreeEntry>>, trees: Seq<git_oid>, h: nat)
    ensures
        bfs_blobs(repo, trees, h).to_multiset() == blobs_below(repo, trees, h),
    decreases h,
{
    broadcast use vstd::multiset::group_multiset_axioms;
    broadcast use vstd::seq_lib::group_to_multiset_ensures;

    if h == 0 {
        assert(bfs_blobs(repo, trees, h).to_multiset() =~= blobs_below(repo, trees, h));
    } else {
        lemma_bfs_counts_every_blob(repo, level_subtrees(repo, trees), (h - 1) as nat);
        lemma_blobs_below_level(repo, trees, h);
        lemma_multiset_commutative(level_blobs(repo, trees), bfs_blobs(repo, level_subtrees(repo, trees), (h - 1) as nat));
    }
}

/// The order of the trees does not change what lies below them.
proof fn lemma_blobs_below_reverse(repo: Map<git_oid, Seq<TreeEntry>>, ts: Seq<git_oid>, h: nat)
    ensures
        blobs_below(repo, ts.reverse(), h) == blobs_below(repo, ts, h),
    decreases ts.len(),
{
    broadcast use vstd::multiset::group_multiset_axioms;

    if ts.len() > 0 {
        let a = ts.drop_last();
        let x = ts.last();
        lemma_blobs_below_reverse(repo, a, h);
        assert(ts.reverse() =~= seq![x] + a.reverse());
        assert(ts =~= a + seq![x]);
        lemma_blobs_below_append(repo, seq![x], a.reverse(), h);
        lemma_blobs_below_append(repo, a, seq![x], h);
        assert(blobs_below(repo, ts.reverse(), h) =~= blobs_below(repo, ts, h));
    } else {
        assert(ts.reverse() =~= ts);
    }
}

/// The depth-first walk of a tree meets every blob below it once per path.
proof fn lemma_dfs_counts_every_blob(repo: Map<git_oid, Seq<TreeEntry>>, t: git_oid, h: nat)
    ensures
        dfs_blobs(repo, t, h).to_multiset() == blobs_below(repo, seq![t], h),
    decreases h, 0nat, 0nat,
{
    broadcast use vstd::multiset::group_multiset_axioms;
    broadcast use vstd::seq_lib::group_to_multiset_ensures;

    if h == 0 {
        assert(dfs_blobs(repo, t, h).to_multiset() =~= Multiset::empty());
    } else {
        let l = listing(repo, t);
        let subs = subtree_ids(l);
        lemma_dfs_list_counts_every_blob(repo, subs.reverse(), (h - 1) as nat);
        lemma_blobs_below_reverse(repo, subs, (h - 1) as nat);
        lemma_multiset_commutative(blob_entries(l), dfs_list(repo, subs.reverse(), (h - 1) as nat));
        let one = seq![t];
        assert(one.drop_last() =~= Seq::<git_oid>::empty());
        assert(one.last() == t);
        assert(blobs_below(repo, one.drop_last(), h) =~= Multiset::empty());
        assert(dfs_blobs(repo, t, h).to_multiset() =~= blobs_below(repo, seq![t], h));
    }
}

/// The depth-first walks of several trees meet every blob below them once
/// per path.
proof fn lemma_dfs_list_counts_every_blob(repo: Map<git_oid, Seq<TreeEntry>>, ts: Seq<git_oid>, h: nat)
    ensures
        dfs_list(repo, ts, h).to_multiset() == blobs_below(repo, ts, h),
    decreases h, 1nat, ts.len(),
{
    broadcast use vstd::multiset::group_multiset_axioms;
    broadcast use vstd::seq_lib::group_to_multiset_ensures;

    if ts.len() == 0 {
        assert(dfs_list(repo, ts, h).to_multiset() =~= Multiset::empty());
        assert(blobs_below(repo, ts, h) =~= Multiset::empty());
    } else {
        let rest = ts.subrange(1, ts.len() as int);
        lemma_dfs_counts_every_blob(repo, ts[0], h);
        lemma_dfs_list_counts_every_blob(repo, rest, h);
        lemma_multiset_commutative(dfs_blobs(repo, ts[0], h), dfs_list(repo, rest, h));
        assert(ts =~= seq![ts[0]] + rest);
        lemma_blobs_below_append(repo, seq![ts[0]], rest, h);
    }
}

/// The depth-first walks of groups of trees meet every blob below all of
/// their trees once per path.
proof fn lemma_groups_count_every_blob(repo: Map<git_oid, Seq<TreeEntry>>, groups: Seq<Seq<git_oid>>, h: nat)
    ensures
        groups_dfs(repo, groups, h).to_multiset() == blobs_below(repo, flatten_chunks(groups), h),
    decreases groups.len(),
{
    broadcast use vstd::multiset::group_multiset_axioms;
    broadcast use vstd::seq_lib::group_to_multiset_ensures;

    if groups.len() == 0 {
        assert(groups_dfs(repo, groups, h).to_multiset() =~= Multiset::empty());
        assert(blobs_below(repo, flatten_chunks(groups), h) =~= Multiset::empty());
    } else {
        let rest = groups.subrange(1, groups.len() as int);
        lemma_groups_count_every_blob(repo, rest, h);
        lemma_dfs_list_counts_every_blob(repo, groups[0], h);
        lemma_multiset_commutative(dfs_list(repo, groups[0], h), groups_dfs(repo, rest, h));
        lemma_blobs_below_append(repo, groups[0], flatten_chunks(rest), h);
    }
}

/// Expanding one level of the walk, given the entries of its trees as the
/// repository lists them, finds the level's blobs and moves to the next
/// level: the blobs found, followed by the breadth-first blobs within `h`
/// levels below the next level, are the breadth-first blobs within `h + 1`
/// levels below the level expanded.
pub proof fn lemma_expand_walk(
    repo: Map<git_oid, Seq<TreeEntry>>,
    trees: Seq<git_oid>,
    listings: Seq<Vec<TreeEntry>>,
    h: nat,
)
    requires
        listings.len() == trees.len(),
        forall|i: int| 0 <= i < trees.len() ==> (#[trigger] listings[i])@ == listing(repo, trees[i]),
    ensures
        all_subtree_ids(listings) == level_subtrees(repo, trees),
        all_blob_entries(listings) == level_blobs(repo, trees),
        all_blob_entries(listings) + bfs_blobs(repo, all_subtree_ids(listings), h) == bfs_blobs(repo, trees, h + 1),
    decreases trees.len(),
{
    if trees.len() > 0 {
        lemma_expand_walk(repo, trees.drop_last(), listings.drop_last(), h);
        assert(listings.last()@ == listing(repo, trees.last()));
    }
    assert(bfs_blobs(repo, trees, h + 1) == level_blobs(repo, trees) + bfs_blobs(repo, level_subtrees(repo, trees), h));
}

/// Collecting features finds every blob entry below the feature tree, each
/// once per path: when the walk's blobs, followed by the breadth-first
/// blobs within `h` levels below its current trees, are the breadth-first
/// blobs within `levels + h` levels below `root` (as `lemma_expand_walk`
/// keeps them from the start, where there are no blobs and the current
/// trees are `root` alone), and the current trees are cut into groups,
/// then the walk's blobs followed by the depth-first walks of the groups
/// hold exactly the blob entries within `levels + h` levels below `root`.
/// Counting them gives as many as are collected.
pub proof fn lemma_walk_finds_every_blob(
    repo: Map<git_oid, Seq<TreeEntry>>,
    root: git_oid,
    levels: nat,
    h: nat,
    direct: Seq<(Seq<char>, git_oid)>,
    current: Seq<git_oid>,
    groups: Seq<Seq<git_oid>>,
)
    requires
        direct + bfs_blobs(repo, current, h) == bfs_blobs(repo, seq![root], levels + h),
        flatten_chunks(groups) == current,
    ensures
        (direct + groups_dfs(repo, groups, h)).to_multiset() == blobs_below(repo, seq![root], levels + h),
        (direct + groups_dfs(repo, groups, h)).len() == blobs_below(repo, seq![root], levels + h).len(),
{
    broadcast use vstd::multiset::group_multiset_axioms;
    broadcast use vstd::seq_lib::group_to_multiset_ensures;

    lemma_groups_count_every_blob(repo, groups, h);
    lemma_bfs_counts_every_blob(repo, current, h);
    lemma_bfs_counts_every_blob(repo, seq![root], levels + h);
    lemma_multiset_commutative(direct, groups_dfs(repo, groups, h));
    lemma_multiset_commutative(direct, bfs_blobs(repo, current, h));
}

} // verus!
