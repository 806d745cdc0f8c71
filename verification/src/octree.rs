//! The octree quantizer: an arena of octants keyed by bit-prefix, built by
//! an eight-level descent per color, then reduced bottom-up by collapsing
//! branches into leaves until the palette is small enough.

use crate::color::chan;
use crate::color::hi_fold;
use crate::color::in_hull;
use crate::color::lo_fold;
use crate::color::spec_level_index;
use crate::color::Rgb24;
use vstd::multiset::Multiset;
use vstd::prelude::*;

verus! {

/// Reserved handle. Used to reference empty children in a branch octant.
pub const EMPTY: usize = usize::MAX;

/// Branch octants hold handles to 8 child octants.
#[derive(Debug, Clone, Copy, PartialEq, Eq)]
pub struct Branch {
    pub children: [usize; 8],
}

/// Leaf octants hold summed RGB values.
#[derive(Debug, Clone, Copy, PartialEq, Eq)]
pub struct Leaf {
    pub count: u64,
    pub r: u64,
    pub g: u64,
    pub b: u64,
}

/// RGB octant.
#[derive(Debug, Clone, Copy, PartialEq, Eq)]
pub enum Octant {
    Branch(Branch),
    Leaf(Leaf),
}

/// The pixel count that an octant carries: a leaf's count, nothing for a
/// branch.
pub open spec fn octant_count(o: Octant) -> int {
    match o {
        Octant::Leaf(l) => l.count as int,
        Octant::Branch(_) => 0,
    }
}

/// Whether an octant is a leaf that still carries pixels.
pub open spec fn is_live_leaf(o: Octant) -> bool {
    octant_count(o) > 0
}

/// The child handle of an octant at one slot; a leaf has no children.
pub open spec fn child_of(o: Octant, j: int) -> usize {
    match o {
        Octant::Branch(b) => b.children[j],
        Octant::Leaf(_) => EMPTY,
    }
}

/// How many of the first `upto` child slots of an octant hold a handle.
pub open spec fn nonempty_children(o: Octant, upto: int) -> int
    decreases upto,
{
    if upto <= 0 {
        0
    } else {
        nonempty_children(o, upto - 1) + if child_of(o, upto - 1) != EMPTY {
            1int
        } else {
            0int
        }
    }
}

/// How many child slots of an octant hold a handle.
pub open spec fn spec_child_count(o: Octant) -> int {
    nonempty_children(o, 8)
}

impl Octant {
    /// Creates a new branch octant.
    pub fn new_branch() -> (o: Self)
        ensures
            o is Branch,
            forall|j: int| 0 <= j < 8 ==> child_of(o, j) == EMPTY,
    {
        Self::Branch(Branch { children: [EMPTY; 8] })
    }

    /// Creates leaf octant from summed RGB values.
    pub fn new_leaf(count: u64, r: u64, g: u64, b: u64) -> (o: Self)
        ensures
            o == Octant::Leaf(Leaf { count, r, g, b }),
    {
        Self::Leaf(Leaf { count, r, g, b })
    }

    /// Retrieves a child octant.
    pub fn child(&self, index: usize) -> (r: Option<usize>)
        requires
            index < 8,
        ensures
            self is Branch ==> r == Some(child_of(*self, index as int)),
            self is Leaf ==> r is None,
    {
        match self {
            Octant::Branch(Branch { children }) => Some(children[index]),
            Octant::Leaf(_) => None,
        }
    }

    /// Checks whether a child octant at a particular index exists.
    pub fn child_exists(&self, index: usize) -> (r: bool)
        requires
            index < 8,
        ensures
            r == (self is Branch && child_of(*self, index as int) != EMPTY),
    {
        match self {
            Octant::Branch(Branch { children }) => children[index] != EMPTY,
            Octant::Leaf(_) => false,
        }
    }

    /// Sets a child octant. Does nothing if the specified octant is a leaf.
    pub fn set_child(&mut self, index: usize, handle: usize)
        requires
            index < 8,
        ensures
            *old(self) is Leaf ==> *final(self) == *old(self),
            *old(self) is Branch ==> {
                &&& *final(self) is Branch
                &&& child_of(*final(self), index as int) == handle
                &&& forall|j: int|
                    0 <= j < 8 && j != index ==> child_of(*final(self), j) == child_of(
                        *old(self),
                        j,
                    )
            },
    {
        match *self {
            Octant::Branch(b) => {
                let mut children = b.children;
                children[index] = handle;
                *self = Octant::Branch(Branch { children });
            },
            Octant::Leaf(_) => (),
        }
    }

    /// Retrieves the number of child octants.
    pub fn child_count(&self) -> (n: usize)
        ensures
            n == spec_child_count(*self),
            n <= 8,
    {
        match self {
            Octant::Branch(Branch { children }) => {
                let mut n: usize = 0;
                let mut j: usize = 0;
                while j < 8
                    invariant
                        j <= 8,
                        n <= j,
                        n == nonempty_children(*self, j as int),
                        self is Branch,
                        forall|q: int| 0 <= q < 8 ==> child_of(*self, q) == children@[q],
                    decreases 8 - j,
                {
                    if children[j] != EMPTY {
                        n += 1;
                    }
                    j += 1;
                }
                n
            },
            Octant::Leaf(_) => {
                proof {
                    assert forall|u: int| 0 <= u <= 8 implies nonempty_children(*self, u) == 0 by {
                        lemma_nonempty_children_leaf(*self, u);
                    }
                }
                0
            },
        }
    }

    /// Adds a color into the octant. Accumulates into a leaf; a branch is
    /// left unchanged.
    pub fn add_color(&mut self, color: &Rgb24)
        requires
            *old(self) is Leaf ==> octant_count(*old(self)) < 0x100_0000_0000_0000
                && old(self)->Leaf_0.r < u64::MAX - 255 && old(self)->Leaf_0.g < u64::MAX - 255
                && old(self)->Leaf_0.b < u64::MAX - 255,
        ensures
            *old(self) is Branch ==> *final(self) == *old(self),
            *old(self) is Leaf ==> *final(self) == Octant::Leaf(
                Leaf {
                    count: (old(self)->Leaf_0.count + 1) as u64,
                    r: (old(self)->Leaf_0.r + color.r) as u64,
                    g: (old(self)->Leaf_0.g + color.g) as u64,
                    b: (old(self)->Leaf_0.b + color.b) as u64,
                },
            ),
    {
        match *self {
            Octant::Branch(_) => (),
            Octant::Leaf(leaf) => {
                *self = Octant::Leaf(
                    Leaf {
                        count: leaf.count + 1,
                        r: leaf.r + color.r() as u64,
                        g: leaf.g + color.g() as u64,
                        b: leaf.b + color.b() as u64,
                    },
                );
            },
        }
    }

    /// Consumes the octant and returns the averaged RGB value: the channel
    /// sums divided by the pixel count, or nothing for a branch or an
    /// emptied leaf.
    pub fn make_rgb24(&self) -> (r: Option<Rgb24>)
        requires
            self is Leaf ==> self->Leaf_0.r <= 255 * self->Leaf_0.count && self->Leaf_0.g <= 255
                * self->Leaf_0.count && self->Leaf_0.b <= 255 * self->Leaf_0.count,
        ensures
            r is Some <==> is_live_leaf(*self),
            is_live_leaf(*self) ==> r == Some(
                Rgb24 {
                    r: (self->Leaf_0.r as int / self->Leaf_0.count as int) as u8,
                    g: (self->Leaf_0.g as int / self->Leaf_0.count as int) as u8,
                    b: (self->Leaf_0.b as int / self->Leaf_0.count as int) as u8,
                },
            ),
    {
        match self {
            Octant::Branch(_) => None,
            Octant::Leaf(Leaf { count, r, g, b }) => {
                if *count > 0 {
                    proof {
                        lemma_leaf_mean_bound(*r as int, *count as int);
                        lemma_leaf_mean_bound(*g as int, *count as int);
                        lemma_leaf_mean_bound(*b as int, *count as int);
                    }
                    Some(Rgb24::new((r / count) as u8, (g / count) as u8, (b / count) as u8))
                } else {
                    None
                }
            },
        }
    }
}

/// The 8-step child-index path that a color descends along: its level
/// indices from level 0 down to level 7. By the injectivity of the level
/// indices, the path determines the color.
pub open spec fn color_path(c: Rgb24) -> Seq<u8> {
    Seq::new(8, |l: int| spec_level_index(c, l as u8))
}

/// Whether every color of `g` agrees with the child-index path `p` on all
/// of `p`'s levels: the group sits in the subtree that `p` names.
pub open spec fn on_path(g: Seq<Rgb24>, p: Seq<u8>) -> bool {
    forall|k: int, l: int|
        0 <= k < g.len() && 0 <= l < p.len() ==> spec_level_index(#[trigger] g[k], l as u8)
            == #[trigger] p[l]
}

/// The handle reached by following child slots along `idxs`, starting from
/// `start`; `-1` where the walk leaves the arena or finds no child.
pub open spec fn route(s: Seq<Octant>, start: int, idxs: Seq<u8>) -> int
    decreases idxs.len(),
{
    if !(0 <= start < s.len()) {
        -1
    } else if idxs.len() == 0 {
        start
    } else if s[start] is Branch && child_of(s[start], idxs[0] as int) != EMPTY {
        route(s, child_of(s[start], idxs[0] as int) as int, idxs.drop_first())
    } else {
        -1
    }
}

/// One more step of a walk goes to that child of the walk's end.
proof fn lemma_route_step(s: Seq<Octant>, start: int, idxs: Seq<u8>, x: u8)
    ensures
        route(s, start, idxs.push(x)) == {
            let h = route(s, start, idxs);
            if 0 <= h < s.len() && s[h] is Branch && child_of(s[h], x as int) != EMPTY && child_of(
                s[h],
                x as int,
            ) < s.len() {
                child_of(s[h], x as int) as int
            } else {
                -1
            }
        },
    decreases idxs.len(),
{
    if !(0 <= start < s.len()) {
    } else if idxs.len() == 0 {
        assert(idxs.push(x)[0] == x);
        if s[start] is Branch && child_of(s[start], x as int) != EMPTY {
            let ch = child_of(s[start], x as int) as int;
            assert(idxs.push(x).drop_first() =~= Seq::<u8>::empty());
            assert(route(s, start, idxs.push(x)) == route(s, ch, Seq::<u8>::empty()));
            assert(route(s, ch, Seq::<u8>::empty()) == if 0 <= ch < s.len() {
                ch
            } else {
                -1
            });
        }
    } else {
        assert(idxs.push(x)[0] == idxs[0]);
        if s[start] is Branch && child_of(s[start], idxs[0] as int) != EMPTY {
            let ch = child_of(s[start], idxs[0] as int) as int;
            assert(idxs.push(x).drop_first() =~= idxs.drop_first().push(x));
            assert(route(s, start, idxs.push(x)) == route(s, ch, idxs.drop_first().push(x)));
            lemma_route_step(s, ch, idxs.drop_first(), x);
        }
    }
}

/// A walk that succeeds keeps its end when the arena only fills child
/// slots that used to be empty, turns leaves into other leaves, and grows.
proof fn lemma_route_frame(s1: Seq<Octant>, s2: Seq<Octant>, start: int, idxs: Seq<u8>)
    requires
        s1.len() <= s2.len(),
        forall|i: int, j: int|
            0 <= i < s1.len() && 0 <= j < 8 && s1[i] is Branch && #[trigger] child_of(s1[i], j)
                != EMPTY ==> s2[i] is Branch && child_of(s2[i], j) == child_of(s1[i], j),
        forall|k: int| 0 <= k < idxs.len() ==> #[trigger] idxs[k] < 8,
        route(s1, start, idxs) != -1,
    ensures
        route(s2, start, idxs) == route(s1, start, idxs),
    decreases idxs.len(),
{
    assert(0 <= start < s1.len());
    if idxs.len() > 0 {
        assert(s1[start] is Branch && child_of(s1[start], idxs[0] as int) != EMPTY);
        let ch = child_of(s1[start], idxs[0] as int) as int;
        assert(route(s1, start, idxs) == route(s1, ch, idxs.drop_first()));
        assert(forall|k: int|
            0 <= k < idxs.drop_first().len() ==> #[trigger] idxs.drop_first()[k] < 8);
        lemma_route_frame(s1, s2, ch, idxs.drop_first());
        assert(s2[start] is Branch && child_of(s2[start], idxs[0] as int) == child_of(
            s1[start],
            idxs[0] as int,
        ));
        assert(route(s2, start, idxs) == route(s2, ch, idxs.drop_first()));
    }
}

/// Installing a fresh octant in a child slot that used to be empty keeps
/// every existing walk at its end and routes the one extended path to the
/// newcomer.
proof fn lemma_attach_routes(
    oldo: Seq<Octant>,
    newo: Seq<Octant>,
    old_paths: Seq<Seq<u8>>,
    new_paths: Seq<Seq<u8>>,
    handle: int,
    index: int,
)
    requires
        0 <= handle < oldo.len() < EMPTY,
        0 <= index < 8,
        oldo[handle] is Branch,
        child_of(oldo[handle], index) == EMPTY,
        newo.len() == oldo.len() + 1,
        newo[handle] is Branch,
        child_of(newo[handle], index) == oldo.len(),
        forall|j: int|
            0 <= j < 8 && j != index ==> child_of(newo[handle as int], j) == child_of(
                oldo[handle as int],
                j,
            ),
        forall|i: int| 0 <= i < oldo.len() && i != handle ==> newo[i] == oldo[i],
        old_paths.len() == oldo.len(),
        new_paths == old_paths.push(old_paths[handle].push(index as u8)),
        forall|i: int, l: int|
            0 <= i < oldo.len() && 0 <= l < old_paths[i].len() ==> #[trigger] old_paths[i][l] < 8,
        forall|i: int| 0 <= i < oldo.len() ==> route(oldo, 0, #[trigger] old_paths[i]) == i,
    ensures
        forall|i: int| 0 <= i < newo.len() ==> route(newo, 0, #[trigger] new_paths[i]) == i,
{
    assert forall|i2: int, j2: int|
        0 <= i2 < oldo.len() && 0 <= j2 < 8 && oldo[i2] is Branch && #[trigger] child_of(
        oldo[i2],
        j2,
    ) != EMPTY implies newo[i2] is Branch && child_of(newo[i2], j2) == child_of(
        oldo[i2],
        j2,
    ) by {
        if i2 == handle {
            assert(j2 != index);
        }
    }
    assert forall|i: int| 0 <= i < newo.len() implies route(newo, 0, new_paths[i]) == i by {
        if i < oldo.len() {
            assert(route(oldo, 0, old_paths[i]) == i);
            lemma_route_frame(oldo, newo, 0, old_paths[i]);
            assert(new_paths[i] == old_paths[i]);
        } else {
            lemma_route_frame(oldo, newo, 0, old_paths[handle]);
            lemma_route_step(newo, 0, old_paths[handle], index as u8);
            assert(new_paths[i] == old_paths[handle].push(index as u8));
        }
    }
}

/// Two colors on one full eight-level path are the same color.
proof fn lemma_same_path_same_color(x: Rgb24, c: Rgb24)
    requires
        color_path(x) == color_path(c),
    ensures
        x == c,
{
    assert forall|level: u8| level < 8 implies spec_level_index(x, level) == spec_level_index(
        c,
        level,
    ) by {
        let l = level as int;
        assert(color_path(x)[l] == spec_level_index(x, l as u8));
        assert(color_path(c)[l] == spec_level_index(c, l as u8));
        assert(l as u8 == level);
    }
    crate::color::lemma_level_index_injective(x, c);
}

/// The pixels carried by a whole arena: the sum of all leaf counts.
pub open spec fn total_count(s: Seq<Octant>) -> int
    decreases s.len(),
{
    if s.len() == 0 {
        0
    } else {
        total_count(s.drop_last()) + octant_count(s.last())
    }
}

/// 1 for a leaf that still carries pixels, 0 for anything else.
pub open spec fn liv(o: Octant) -> int {
    if is_live_leaf(o) {
        1
    } else {
        0
    }
}

/// How many live leaves an arena holds.
pub open spec fn live_leaves(s: Seq<Octant>) -> int
    decreases s.len(),
{
    if s.len() == 0 {
        0
    } else {
        live_leaves(s.drop_last()) + liv(s.last())
    }
}

/// Every child handle of every branch points inside the arena or nowhere.
pub open spec fn arena_ok(s: Seq<Octant>) -> bool {
    forall|i: int, j: int|
        0 <= i < s.len() && 0 <= j < 8 && s[i] is Branch ==> #[trigger] child_of(s[i], j) == EMPTY
            || child_of(s[i], j) < s.len()
}

/// The bookkeeping that a single leaf keeps sound: each channel sum is at
/// most 255 per pixel, and lies inside the hull that the inserted colors
/// span, scaled by the pixel count.
pub open spec fn leaf_ok(l: Leaf, s: Seq<Rgb24>) -> bool {
    &&& l.r <= 255 * l.count && l.g <= 255 * l.count && l.b <= 255 * l.count
    &&& l.count * lo_fold(s, 0) <= l.r && l.r <= l.count * hi_fold(s, 0)
    &&& l.count * lo_fold(s, 1) <= l.g && l.g <= l.count * hi_fold(s, 1)
    &&& l.count * lo_fold(s, 2) <= l.b && l.b <= l.count * hi_fold(s, 2)
}

/// Every leaf of the arena keeps its bookkeeping sound with respect to the
/// colors inserted so far.
pub open spec fn leaves_ok(s: Seq<Octant>, colors: Seq<Rgb24>) -> bool {
    forall|i: int| 0 <= i < s.len() && #[trigger] s[i] is Leaf ==> leaf_ok(s[i]->Leaf_0, colors)
}

/// The total pixel count of an arena is never negative.
pub proof fn lemma_total_count_nonneg(s: Seq<Octant>)
    ensures
        total_count(s) >= 0,
        live_leaves(s) >= 0,
    decreases s.len(),
{
    if s.len() > 0 {
        lemma_total_count_nonneg(s.drop_last());
    }
}

/// One leaf never carries more pixels than the whole arena.
pub proof fn lemma_octant_le_total(s: Seq<Octant>, i: int)
    requires
        0 <= i < s.len(),
    ensures
        octant_count(s[i]) <= total_count(s),
        liv(s[i]) <= live_leaves(s),
    decreases s.len(),
{
    lemma_total_count_nonneg(s.drop_last());
    if i < s.len() - 1 {
        lemma_octant_le_total(s.drop_last(), i);
        assert(s.drop_last()[i] == s[i]);
    }
}

/// Replacing one octant moves the totals by exactly the difference at that
/// spot.
pub proof fn lemma_counts_update(s: Seq<Octant>, i: int, x: Octant)
    requires
        0 <= i < s.len(),
    ensures
        total_count(s.update(i, x)) == total_count(s) - octant_count(s[i]) + octant_count(x),
        live_leaves(s.update(i, x)) == live_leaves(s) - liv(s[i]) + liv(x),
    decreases s.len(),
{
    let t = s.update(i, x);
    if i == s.len() - 1 {
        assert(t.drop_last() =~= s.drop_last());
        assert(t.last() == x);
    } else {
        assert(t.drop_last() =~= s.drop_last().update(i, x));
        assert(t.last() == s.last());
        lemma_counts_update(s.drop_last(), i, x);
        assert(s.drop_last()[i] == s[i]);
    }
}

/// Appending one octant adds exactly its own numbers to the totals.
pub proof fn lemma_counts_push(s: Seq<Octant>, x: Octant)
    ensures
        total_count(s.push(x)) == total_count(s) + octant_count(x),
        live_leaves(s.push(x)) == live_leaves(s) + liv(x),
{
    assert(s.push(x).drop_last() =~= s);
    assert(s.push(x).last() == x);
}

/// An arena that still carries pixels still has a live leaf.
pub proof fn lemma_total_count_live(s: Seq<Octant>)
    requires
        total_count(s) > 0,
    ensures
        live_leaves(s) > 0,
    decreases s.len(),
{
    if s.len() > 0 {
        if octant_count(s.last()) > 0 {
            lemma_total_count_nonneg(s.drop_last());
        } else {
            lemma_total_count_live(s.drop_last());
        }
    }
}

/// RGB-indexed octree: an arena of octants, the root branch at handle 0,
/// and, for each level of the descent, the handles created at that level in
/// creation order. The ghost fields carry the proof's model of the tree:
/// `inserted` the colors built in so far, `depths` the depth each octant
/// was created at, `pixels` the input pixels each octant accounts for, and
/// `paths` the child-index path that names each octant's subtree.
pub struct Octree {
    pub octants: Vec<Octant>,
    pub levels: Vec<Vec<usize>>,
    pub inserted: Ghost<Seq<Rgb24>>,
    pub depths: Ghost<Seq<int>>,
    pub pixels: Ghost<Seq<Seq<Rgb24>>>,
    pub paths: Ghost<Seq<Seq<u8>>>,
}

/// All the pixels that a family of groups holds, as one multiset.
pub open spec fn group_multiset(gs: Seq<Seq<Rgb24>>) -> Multiset<Rgb24>
    decreases gs.len(),
{
    if gs.len() == 0 {
        Multiset::empty()
    } else {
        group_multiset(gs.drop_last()).add(gs.last().to_multiset())
    }
}

/// The channel-wise floor mean of a nonempty pixel group.
pub open spec fn group_mean(g: Seq<Rgb24>) -> Rgb24 {
    Rgb24 {
        r: (crate::color::sum_chan(g, 0) / g.len() as int) as u8,
        g: (crate::color::sum_chan(g, 1) / g.len() as int) as u8,
        b: (crate::color::sum_chan(g, 2) / g.len() as int) as u8,
    }
}

/// What it means for `palette` to be a grouped emission of `input`: the
/// groups partition the input pixels, each group holds at least one pixel
/// and sits in the subtree its recorded bit-prefix of one to eight levels
/// names, and each palette entry is the floor mean of its group.
pub open spec fn is_grouped_emission(
    input: Seq<Rgb24>,
    groups: Seq<Seq<Rgb24>>,
    prefixes: Seq<Seq<u8>>,
    palette: Seq<Rgb24>,
) -> bool {
    &&& group_multiset(groups) == input.to_multiset()
    &&& groups.len() == palette.len()
    &&& prefixes.len() == groups.len()
    &&& (forall|j: int| 0 <= j < groups.len() ==> #[trigger] groups[j].len() >= 1)
    &&& (forall|j: int| 0 <= j < groups.len() ==> palette[j] == group_mean(#[trigger] groups[j]))
    &&& (forall|j: int|
        0 <= j < groups.len() ==> 1 <= (#[trigger] prefixes[j]).len() <= 8 && on_path(
            groups[j],
            prefixes[j],
        ))
}

/// Every pixel of every group is counted by the whole family.
proof fn lemma_group_member_in_whole(gs: Seq<Seq<Rgb24>>, j: int, x: Rgb24)
    requires
        0 <= j < gs.len(),
        gs[j].to_multiset().count(x) > 0,
    ensures
        group_multiset(gs).count(x) > 0,
    decreases gs.len(),
{
    broadcast use vstd::multiset::group_multiset_axioms;

    if j == gs.len() - 1 {
        assert(gs.last() == gs[j]);
    } else {
        assert(gs.drop_last()[j] == gs[j]);
        lemma_group_member_in_whole(gs.drop_last(), j, x);
    }
}

/// Over an input whose colors are all one color, a grouped emission emits
/// only that color: every group is a batch of copies, and the floor mean of
/// copies is the color itself.
pub proof fn lemma_uniform_grouped_emission(
    input: Seq<Rgb24>,
    groups: Seq<Seq<Rgb24>>,
    prefixes: Seq<Seq<u8>>,
    palette: Seq<Rgb24>,
    c: Rgb24,
)
    requires
        is_grouped_emission(input, groups, prefixes, palette),
        input.len() >= 1,
        forall|i: int| 0 <= i < input.len() ==> input[i] == c,
    ensures
        forall|j: int| 0 <= j < palette.len() ==> palette[j] == c,
{
    input.to_multiset_ensures();
    assert forall|j: int| 0 <= j < palette.len() implies palette[j] == c by {
        let g = groups[j];
        g.to_multiset_ensures();
        assert forall|i: int| 0 <= i < g.len() implies g[i] == c by {
            assert(g.contains(g[i]));
            assert(g.to_multiset().count(g[i]) > 0);
            lemma_group_member_in_whole(groups, j, g[i]);
            assert(input.to_multiset().count(g[i]) > 0);
            assert(input.contains(g[i]));
        }
        assert forall|ch: int|
            0 <= ch < 3 implies crate::color::sum_chan(g, ch) / g.len() as int == chan(c, ch) by {
            crate::color::lemma_sum_chan_uniform(g, c, ch);
            let m = g.len() as int;
            let x = chan(c, ch) as int;
            assert(m * x == x * m) by (nonlinear_arith);
            vstd::arithmetic::div_mod::lemma_fundamental_div_mod_converse(m * x, m, x, 0);
        }
        assert(palette[j] == group_mean(g));
    }
}

/// How many different root child slots the colors of a sequence occupy:
/// the number of distinct level-0 indices.
pub open spec fn top_octant_count(s: Seq<Rgb24>) -> nat {
    Seq::new(s.len(), |i: int| spec_level_index(s[i], 0u8)).to_set().len()
}

/// A grouped emission never merges across root children: the root is never
/// reduced, every group's prefix pins its level-0 index, and the groups
/// cover every pixel, so the palette holds at least one entry per occupied
/// root child slot.
pub proof fn lemma_grouped_emission_top_split(
    input: Seq<Rgb24>,
    groups: Seq<Seq<Rgb24>>,
    prefixes: Seq<Seq<u8>>,
    palette: Seq<Rgb24>,
)
    requires
        is_grouped_emission(input, groups, prefixes, palette),
    ensures
        palette.len() >= top_octant_count(input),
{
    broadcast use vstd::multiset::group_multiset_axioms;
    broadcast use vstd::set::group_set_axioms;
    broadcast use vstd::seq_lib::seq_to_set_is_finite;

    let tops = Seq::new(input.len(), |i: int| spec_level_index(input[i], 0u8));
    let firsts = Seq::new(groups.len(), |j: int| prefixes[j][0]);
    assert forall|v: u8| tops.to_set().contains(v) implies firsts.to_set().contains(v) by {
        assert(tops.contains(v));
        let i = choose|i: int| 0 <= i < tops.len() && tops[i] == v;
        let c = input[i];
        input.to_multiset_ensures();
        assert(input.contains(c));
        assert(input.to_multiset().count(c) > 0);
        assert(group_multiset(groups).count(c) > 0);
        lemma_whole_member_in_group(groups, c);
        let j = choose|j: int|
            0 <= j < groups.len() && (#[trigger] groups[j]).to_multiset().count(c) > 0;
        groups[j].to_multiset_ensures();
        assert(groups[j].contains(c));
        let k = choose|k: int| 0 <= k < groups[j].len() && groups[j][k] == c;
        assert(spec_level_index(groups[j][k], 0u8) == prefixes[j][0]);
        assert(firsts[j] == v);
        assert(firsts.contains(v));
    }
    vstd::set_lib::lemma_len_subset(tops.to_set(), firsts.to_set());
    firsts.lemma_cardinality_of_set();
}

/// A pixel counted by the whole family sits in one of its groups.
proof fn lemma_whole_member_in_group(gs: Seq<Seq<Rgb24>>, x: Rgb24)
    requires
        group_multiset(gs).count(x) > 0,
    ensures
        exists|j: int| 0 <= j < gs.len() && (#[trigger] gs[j]).to_multiset().count(x) > 0,
    decreases gs.len(),
{
    broadcast use vstd::multiset::group_multiset_axioms;

    if gs.len() == 0 {
        assert(group_multiset(gs).count(x) == 0);
    } else if gs.last().to_multiset().count(x) > 0 {
        assert(gs[gs.len() - 1] == gs.last());
        assert((gs[gs.len() - 1]).to_multiset().count(x) > 0);
    } else {
        assert(group_multiset(gs.drop_last()).count(x) > 0);
        lemma_whole_member_in_group(gs.drop_last(), x);
        let j = choose|j: int|
            0 <= j < gs.drop_last().len() && (#[trigger] gs.drop_last()[j]).to_multiset().count(x)
                > 0;
        assert(gs[j] == gs.drop_last()[j]);
        assert((gs[j]).to_multiset().count(x) > 0);
    }
}

/// An empty sequence holds the empty multiset.
pub proof fn lemma_empty_seq_multiset(s: Seq<Rgb24>)
    requires
        s.len() == 0,
    ensures
        s.to_multiset() =~= Multiset::<Rgb24>::empty(),
{
    broadcast use vstd::multiset::group_multiset_axioms;

    s.to_multiset_ensures();
    assert forall|x: Rgb24| s.to_multiset().count(x) == 0 by {
        assert(!s.contains(x));
    }
}

/// Appending one group adds exactly its pixels to the whole.
pub proof fn lemma_group_multiset_push(gs: Seq<Seq<Rgb24>>, x: Seq<Rgb24>)
    ensures
        group_multiset(gs.push(x)) == group_multiset(gs).add(x.to_multiset()),
{
    assert(gs.push(x).drop_last() =~= gs);
    assert(gs.push(x).last() == x);
}

/// Replacing one group exchanges exactly its pixels against the new
/// group's, additively.
pub proof fn lemma_group_multiset_update(gs: Seq<Seq<Rgb24>>, i: int, x: Seq<Rgb24>)
    requires
        0 <= i < gs.len(),
    ensures
        group_multiset(gs.update(i, x)).add(gs[i].to_multiset()) =~= group_multiset(gs).add(
            x.to_multiset(),
        ),
    decreases gs.len(),
{
    broadcast use vstd::multiset::group_multiset_axioms;

    let t = gs.update(i, x);
    if i == gs.len() - 1 {
        assert(t.drop_last() =~= gs.drop_last());
        assert(t.last() == x);
    } else {
        assert(t.drop_last() =~= gs.drop_last().update(i, x));
        assert(t.last() == gs.last());
        lemma_group_multiset_update(gs.drop_last(), i, x);
        assert(gs.drop_last()[i] == gs[i]);
        assert forall|y: Rgb24|
            group_multiset(t).add(gs[i].to_multiset()).count(y) == group_multiset(gs).add(
                x.to_multiset(),
            ).count(y) by {
            assert(group_multiset(gs.drop_last().update(i, x)).add(
                gs[i].to_multiset(),
            ).count(y) == group_multiset(gs.drop_last()).add(x.to_multiset()).count(y));
        }
    }
}

/// Adding the same pixels to equal wholes leaves equal wholes: multiset
/// addition cancels.
pub proof fn lemma_multiset_cancel(a: Multiset<Rgb24>, b: Multiset<Rgb24>, m: Multiset<Rgb24>)
    requires
        a.add(m) == b.add(m),
    ensures
        a =~= b,
{
    broadcast use vstd::multiset::group_multiset_axioms;

    assert forall|x: Rgb24| a.count(x) == b.count(x) by {
        assert(a.add(m).count(x) == a.count(x) + m.count(x));
        assert(b.add(m).count(x) == b.count(x) + m.count(x));
        assert(a.add(m).count(x) == b.add(m).count(x));
    }
}

impl Octree {
    /// The arena bookkeeping that holds through building and reduction
    /// alike: valid child handles, sound leaf sums, and a total pixel count
    /// that is exactly the number of colors inserted.
    pub open spec fn arena_wf(&self) -> bool {
        &&& self.octants@.len() >= 1
        &&& self.levels@.len() == 8
        &&& arena_ok(self.octants@)
        &&& leaves_ok(self.octants@, self.inserted@)
        &&& total_count(self.octants@) == self.inserted@.len()
        &&& self.pixels_wf()
        &&& self.paths_wf()
    }

    /// Each octant's ghost child-index path names the subtree it stands
    /// for: a leaf's path has between one and eight levels, all its pixels
    /// agree with the path, and path entries are child indices.
    pub open spec fn paths_wf(&self) -> bool {
        &&& self.paths@.len() == self.octants@.len()
        &&& (forall|i: int, l: int|
            0 <= i < self.octants@.len() && 0 <= l < self.paths@[i].len()
                ==> #[trigger] self.paths@[i][l] < 8)
        &&& (forall|i: int|
            0 <= i < self.octants@.len() && (#[trigger] self.octants@[i]) is Leaf ==> 1
                <= self.paths@[i].len() <= 8 && on_path(self.pixels@[i], self.paths@[i]))
    }

    /// Each octant's ghost pixel group carries exactly the pixels its
    /// counters claim, and all groups together hold exactly the inserted
    /// colors.
    pub open spec fn pixels_wf(&self) -> bool {
        &&& self.pixels@.len() == self.octants@.len()
        &&& (forall|i: int|
            0 <= i < self.octants@.len() ==> octant_count(#[trigger] self.octants@[i])
                == self.pixels@[i].len())
        &&& (forall|i: int|
            0 <= i < self.octants@.len() && (#[trigger] self.octants@[i]) is Leaf ==> {
                let l = self.octants@[i]->Leaf_0;
                l.r == crate::color::sum_chan(self.pixels@[i], 0) && l.g
                    == crate::color::sum_chan(self.pixels@[i], 1) && l.b
                    == crate::color::sum_chan(self.pixels@[i], 2)
            })
        &&& group_multiset(self.pixels@) == self.inserted@.to_multiset()
    }

    /// The extra structure that holds while the octree is being built:
    /// depths assign every octant its place, leaves sit exactly at the
    /// bottom, all carry pixels, and the level lists index fresh distinct
    /// branches and leaves.
    pub open spec fn build_wf(&self) -> bool {
        &&& self.arena_wf()
        &&& self.depths@.len() == self.octants@.len()
        &&& self.depths@[0] == 0
        &&& self.octants@[0] is Branch
        &&& forall|i: int| 0 <= i < self.octants@.len() ==> 0 <= #[trigger] self.depths@[i] <= 8
        &&& forall|i: int|
            0 <= i < self.octants@.len() ==> ((#[trigger] self.octants@[i]) is Leaf <==> self.depths@[i]
                == 8)
        &&& forall|i: int|
            0 <= i < self.octants@.len() && (#[trigger] self.octants@[i]) is Leaf ==> octant_count(
                self.octants@[i],
            ) >= 1
        &&& forall|i: int, j: int|
            0 <= i < self.octants@.len() && 0 <= j < 8 && self.octants@[i] is Branch
                && #[trigger] child_of(self.octants@[i], j) != EMPTY ==> self.depths@[child_of(
                self.octants@[i],
                j,
            ) as int] == self.depths@[i] + 1
        &&& forall|l: int, k: int|
            0 <= l < 8 && 0 <= k < self.levels@[l]@.len() ==> 1 <= #[trigger] self.levels@[l]@[k]
                < self.octants@.len()
        &&& forall|l: int, k: int|
            0 <= l < 8 && 0 <= k < self.levels@[l]@.len() ==> self.depths@[#[trigger] self.levels@[
                l
            ]@[k] as int] == l + 1
        &&& forall|l: int, k1: int, k2: int|
            0 <= l < 8 && 0 <= k1 < k2 < self.levels@[l]@.len() ==> #[trigger] self.levels@[l]@[k1]
                != #[trigger] self.levels@[l]@[k2]
        &&& live_leaves(self.octants@) == self.levels@[7]@.len()
        &&& forall|i: int|
            0 <= i < self.octants@.len() ==> (#[trigger] self.paths@[i]).len() == self.depths@[i]
        &&& forall|i: int, j: int|
            0 <= i < self.octants@.len() && 0 <= j < 8 && self.octants@[i] is Branch
                && #[trigger] child_of(self.octants@[i], j) != EMPTY ==> self.paths@[child_of(
                self.octants@[i],
                j,
            ) as int] == self.paths@[i].push(j as u8)
        &&& forall|i: int|
            0 <= i < self.octants@.len() ==> route(self.octants@, 0, #[trigger] self.paths@[i])
                == i
        &&& self.levels@[7]@.len() == self.inserted@.to_set().len()
    }

    /// Creates a new RGB octree.
    pub fn new() -> (t: Self)
        ensures
            t.build_wf(),
            t.inserted@ == Seq::<Rgb24>::empty(),
            t.octants@.len() == 1,
            t.levels@[7]@.len() == 0,
    {
        let mut levels: Vec<Vec<usize>> = Vec::new();
        let mut l: usize = 0;
        while l < 8
            invariant
                levels@.len() == l <= 8,
                forall|q: int| 0 <= q < l ==> #[trigger] levels@[q]@.len() == 0,
            decreases 8 - l,
        {
            levels.push(Vec::new());
            l += 1;
        }
        let mut octants: Vec<Octant> = Vec::new();
        octants.push(Octant::new_branch());
        let ghost root_depths: Seq<int> = seq![0int];
        let ghost root_pixels: Seq<Seq<Rgb24>> = seq![Seq::empty()];
        let ghost root_paths: Seq<Seq<u8>> = seq![Seq::empty()];
        let t = Self {
            octants,
            levels,
            inserted: Ghost(Seq::empty()),
            depths: Ghost(root_depths),
            pixels: Ghost(root_pixels),
            paths: Ghost(root_paths),
        };
        proof {
            broadcast use vstd::set::group_set_axioms;

            assert(t.octants@.drop_last() =~= Seq::<Octant>::empty());
            assert(total_count(Seq::<Octant>::empty()) == 0);
            assert(live_leaves(Seq::<Octant>::empty()) == 0);
            assert(total_count(t.octants@) == 0);
            assert(live_leaves(t.octants@) == 0);
            assert(t.pixels@.drop_last() =~= Seq::<Seq<Rgb24>>::empty());
            assert(group_multiset(Seq::<Seq<Rgb24>>::empty()) =~= Multiset::<Rgb24>::empty());
            lemma_empty_seq_multiset(Seq::<Rgb24>::empty());
            lemma_empty_seq_multiset(t.inserted@);
            assert(group_multiset(t.pixels@) =~= t.inserted@.to_multiset());
            assert(route(t.octants@, 0, t.paths@[0]) == 0);
            assert(t.inserted@.to_set() =~= Set::<Rgb24>::empty());
        }
        t
    }

    /// Retrieves the total number of branch and leaf octants.
    pub fn len(&self) -> (n: usize)
        ensures
            n == self.octants@.len(),
    {
        self.octants.len()
    }

    /// Determines whether the octree is empty.
    pub fn is_empty(&self) -> (r: bool)
        ensures
            r == (self.octants@.len() == 0),
    {
        self.len() == 0
    }
}

impl Default for Octree {
    fn default() -> (t: Self)
        ensures
            t.build_wf(),
            t.inserted@ == Seq::<Rgb24>::empty(),
    {
        Self::new()
    }
}

/// Growing the inserted colors never shrinks the hull, so every leaf's
/// bookkeeping stays sound when one more color arrives.
pub proof fn lemma_leaves_ok_push(octs: Seq<Octant>, s: Seq<Rgb24>, c: Rgb24)
    requires
        leaves_ok(octs, s),
    ensures
        leaves_ok(octs, s.push(c)),
{
    assert(s.push(c).drop_last() =~= s);
    assert(s.push(c).last() == c);
    assert forall|i: int|
        0 <= i < octs.len() && (#[trigger] octs[i]) is Leaf implies leaf_ok(
        octs[i]->Leaf_0,
        s.push(c),
    ) by {
        let l = octs[i]->Leaf_0;
        assert(leaf_ok(l, s));
        assert forall|ch: int| 0 <= ch < 3 implies lo_fold(s.push(c), ch) <= lo_fold(s, ch)
            && hi_fold(s, ch) <= hi_fold(s.push(c), ch) by {}
        assert(l.count * lo_fold(s.push(c), 0) <= l.count * lo_fold(s, 0) && l.count * hi_fold(
            s,
            0,
        ) <= l.count * hi_fold(s.push(c), 0)) by (nonlinear_arith)
            requires
                l.count >= 0,
                lo_fold(s.push(c), 0) <= lo_fold(s, 0),
                hi_fold(s, 0) <= hi_fold(s.push(c), 0),
        ;
        assert(l.count * lo_fold(s.push(c), 1) <= l.count * lo_fold(s, 1) && l.count * hi_fold(
            s,
            1,
        ) <= l.count * hi_fold(s.push(c), 1)) by (nonlinear_arith)
            requires
                l.count >= 0,
                lo_fold(s.push(c), 1) <= lo_fold(s, 1),
                hi_fold(s, 1) <= hi_fold(s.push(c), 1),
        ;
        assert(l.count * lo_fold(s.push(c), 2) <= l.count * lo_fold(s, 2) && l.count * hi_fold(
            s,
            2,
        ) <= l.count * hi_fold(s.push(c), 2)) by (nonlinear_arith)
            requires
                l.count >= 0,
                lo_fold(s.push(c), 2) <= lo_fold(s, 2),
                hi_fold(s, 2) <= hi_fold(s.push(c), 2),
        ;
    }
}

impl Octree {
    /// Create a fresh handle: the next free index of the arena.
    fn make_handle(&self) -> (h: usize)
        ensures
            h == self.octants@.len(),
    {
        self.octants.len()
    }

    /// Add a new branch under `handle` at child slot `index`, recording it
    /// at `level`.
    fn add_branch(&mut self, handle: usize, index: usize, level: usize)
        requires
            old(self).build_wf(),
            handle < old(self).octants@.len(),
            old(self).octants@[handle as int] is Branch,
            old(self).depths@[handle as int] == level,
            index < 8,
            level < 7,
            child_of(old(self).octants@[handle as int], index as int) == EMPTY,
        ensures
            final(self).build_wf(),
            final(self).inserted == old(self).inserted,
            final(self).octants@.len() == old(self).octants@.len() + 1,
            final(self).octants@[handle as int] is Branch,
            final(self).depths@[handle as int] == level,
            final(self).paths@[handle as int] == old(self).paths@[handle as int],
            child_of(final(self).octants@[handle as int], index as int) == old(
                self,
            ).octants@.len(),
            child_of(final(self).octants@[handle as int], index as int) != EMPTY,
            final(self).octants@[old(self).octants@.len() as int] is Branch,
            final(self).depths@[old(self).octants@.len() as int] == level + 1,
            final(self).levels@[7]@ == old(self).levels@[7]@,
            forall|i: int|
                0 <= i < old(self).octants@.len() && i != handle
                    ==> final(self).octants@[i] == old(self).octants@[i],
            forall|i: int|
                0 <= i < old(self).octants@.len() ==> final(self).pixels@[i] == old(
                    self,
                ).pixels@[i],
    {
        let branch_handle = self.make_handle();
        let ghost prev = *self;
        let fresh = Octant::new_branch();
        self.octants.push(fresh);
        proof {
            broadcast use vstd::multiset::group_multiset_axioms;

            self.depths@ = self.depths@.push(level as int + 1);
            self.pixels@ = self.pixels@.push(Seq::empty());
            self.paths@ = self.paths@.push(prev.paths@[handle as int].push(index as u8));
            lemma_counts_push(prev.octants@, fresh);
            lemma_group_multiset_push(prev.pixels@, Seq::empty());
            lemma_empty_seq_multiset(Seq::<Rgb24>::empty());
            assert(group_multiset(self.pixels@) =~= group_multiset(prev.pixels@));
            vstd::std_specs::vec::axiom_spec_len(&self.octants);
            assert(branch_handle < EMPTY);
        }
        let mut parent = self.octants[handle];
        parent.set_child(index, branch_handle);
        let ghost mid = self.octants@;
        self.octants[handle] = parent;
        proof {
            lemma_counts_update(mid, handle as int, parent);
        }
        self.levels[level].push(branch_handle);
        proof {
            let cur = self.octants@;
            let n0 = prev.octants@.len() as int;
            assert forall|i: int|
                0 <= i < cur.len() && (#[trigger] cur[i]) is Leaf implies leaf_ok(
                cur[i]->Leaf_0,
                self.inserted@,
            ) by {
                if i != handle && i < n0 {
                    assert(cur[i] == prev.octants@[i]);
                }
            }
            assert forall|i: int, j: int|
                0 <= i < cur.len() && 0 <= j < 8 && cur[i] is Branch && #[trigger] child_of(
                cur[i],
                j,
            ) != EMPTY implies self.depths@[child_of(cur[i], j) as int] == self.depths@[i]
                + 1 by {
                if i == handle {
                    if j != index {
                        assert(child_of(cur[i], j) == child_of(prev.octants@[i], j));
                    }
                } else if i < n0 {
                    assert(cur[i] == prev.octants@[i]);
                    assert(child_of(cur[i], j) == child_of(prev.octants@[i], j));
                }
            }
            assert forall|i: int, j: int|
                0 <= i < cur.len() && 0 <= j < 8 && cur[i] is Branch implies #[trigger] child_of(
                cur[i],
                j,
            ) == EMPTY || child_of(cur[i], j) < cur.len() by {
                if i == handle {
                } else if i < n0 {
                    assert(cur[i] == prev.octants@[i]);
                }
            }
            assert forall|l: int, k: int|
                0 <= l < 8 && 0 <= k < self.levels@[l]@.len() implies 1 <= #[trigger] self.levels@[
                l
            ]@[k] < cur.len() && self.depths@[self.levels@[l]@[k] as int] == l + 1 by {
                if l == level && k == self.levels@[l]@.len() - 1 {
                } else {
                    assert(self.levels@[l]@[k] == prev.levels@[l]@[k]);
                }
            }
            assert forall|l: int, k1: int, k2: int|
                0 <= l < 8 && 0 <= k1 < k2 < self.levels@[l]@.len() implies #[trigger] self.levels@[
                l
            ]@[k1] != #[trigger] self.levels@[l]@[k2] by {
                if l == level && k2 == self.levels@[l]@.len() - 1 {
                    assert(self.levels@[l]@[k1] == prev.levels@[l]@[k1]);
                    assert(self.levels@[l]@[k1] < n0);
                } else {
                    assert(self.levels@[l]@[k1] == prev.levels@[l]@[k1]);
                    assert(self.levels@[l]@[k2] == prev.levels@[l]@[k2]);
                }
            }
            assert forall|i: int, j: int|
                0 <= i < cur.len() && 0 <= j < 8 && cur[i] is Branch && #[trigger] child_of(
                cur[i],
                j,
            ) != EMPTY implies self.paths@[child_of(cur[i], j) as int] == self.paths@[i].push(
                j as u8,
            ) by {
                if i == handle {
                    if j != index {
                        assert(child_of(cur[i], j) == child_of(prev.octants@[i], j));
                    }
                } else if i < n0 {
                    assert(cur[i] == prev.octants@[i]);
                    assert(child_of(cur[i], j) == child_of(prev.octants@[i], j));
                }
            }
            lemma_attach_routes(
                prev.octants@,
                cur,
                prev.paths@,
                self.paths@,
                handle as int,
                index as int,
            );
        }
    }

    /// Add a new leaf under `handle` at child slot `index`, recording it at
    /// `level` and in the inserted colors.
    fn add_leaf(&mut self, handle: usize, index: usize, level: usize, color: &Rgb24)
        requires
            old(self).build_wf(),
            handle < old(self).octants@.len(),
            old(self).octants@[handle as int] is Branch,
            old(self).depths@[handle as int] == level,
            index < 8,
            level == 7,
            child_of(old(self).octants@[handle as int], index as int) == EMPTY,
            old(self).paths@[handle as int].push(index as u8) == color_path(*color),
        ensures
            final(self).build_wf(),
            final(self).inserted@ == old(self).inserted@.push(*color),
            final(self).octants@.len() == old(self).octants@.len() + 1,
            final(self).levels@[7]@.len() == old(self).levels@[7]@.len() + 1,
            final(self).octants@[old(self).octants@.len() as int] is Leaf,
            final(self).pixels@[old(self).octants@.len() as int] == seq![*color],
            final(self).paths@[old(self).octants@.len() as int] == color_path(*color),
            forall|i: int|
                0 <= i < old(self).octants@.len() && i != handle
                    ==> final(self).octants@[i] == old(self).octants@[i],
            forall|i: int|
                0 <= i < old(self).octants@.len() ==> final(self).pixels@[i] == old(
                    self,
                ).pixels@[i],
    {
        let leaf_handle = self.make_handle();
        let ghost prev = *self;
        let fresh = Octant::new_leaf(1, color.r() as u64, color.g() as u64, color.b() as u64);
        self.octants.push(fresh);
        proof {
            broadcast use vstd::multiset::group_multiset_axioms;

            self.depths@ = self.depths@.push(8int);
            self.inserted@ = self.inserted@.push(*color);
            self.pixels@ = self.pixels@.push(seq![*color]);
            self.paths@ = self.paths@.push(prev.paths@[handle as int].push(index as u8));
            lemma_counts_push(prev.octants@, fresh);
            lemma_leaves_ok_push(prev.octants@, prev.inserted@, *color);
            assert(prev.inserted@.push(*color).drop_last() =~= prev.inserted@);
            // The fresh group holds exactly this one pixel.
            let one = seq![*color];
            assert(one.drop_last() =~= Seq::<Rgb24>::empty());
            assert(one.last() == *color);
            assert(crate::color::sum_chan(Seq::<Rgb24>::empty(), 0) == 0
                && crate::color::sum_chan(Seq::<Rgb24>::empty(), 1) == 0
                && crate::color::sum_chan(Seq::<Rgb24>::empty(), 2) == 0);
            assert(crate::color::sum_chan(one, 0) == color.r && crate::color::sum_chan(one, 1)
                == color.g && crate::color::sum_chan(one, 2) == color.b);
            lemma_group_multiset_push(prev.pixels@, one);
            lemma_empty_seq_multiset(Seq::<Rgb24>::empty());
            assert(Seq::<Rgb24>::empty().push(*color) =~= one);
            prev.inserted@.to_multiset_ensures();
            Seq::<Rgb24>::empty().to_multiset_ensures();
            assert(one.to_multiset() =~= Multiset::<Rgb24>::empty().insert(*color));
            assert(group_multiset(self.pixels@) =~= self.inserted@.to_multiset());
            vstd::std_specs::vec::axiom_spec_len(&self.octants);
            assert(leaf_handle < EMPTY);
        }
        let mut parent = self.octants[handle];
        parent.set_child(index, leaf_handle);
        let ghost mid = self.octants@;
        self.octants[handle] = parent;
        proof {
            lemma_counts_update(mid, handle as int, parent);
        }
        self.levels[level].push(leaf_handle);
        proof {
            let cur = self.octants@;
            let n0 = prev.octants@.len() as int;
            let s2 = self.inserted@;
            assert forall|i: int|
                0 <= i < cur.len() && (#[trigger] cur[i]) is Leaf implies leaf_ok(
                cur[i]->Leaf_0,
                s2,
            ) by {
                if i == n0 {
                    assert(lo_fold(s2, 0) <= chan(*color, 0) && chan(*color, 0) <= hi_fold(s2, 0));
                    assert(lo_fold(s2, 1) <= chan(*color, 1) && chan(*color, 1) <= hi_fold(s2, 1));
                    assert(lo_fold(s2, 2) <= chan(*color, 2) && chan(*color, 2) <= hi_fold(s2, 2));
                } else if i != handle {
                    assert(cur[i] == prev.octants@[i]);
                }
            }
            assert forall|i: int, j: int|
                0 <= i < cur.len() && 0 <= j < 8 && cur[i] is Branch && #[trigger] child_of(
                cur[i],
                j,
            ) != EMPTY implies self.depths@[child_of(cur[i], j) as int] == self.depths@[i]
                + 1 by {
                if i == handle {
                    if j != index {
                        assert(child_of(cur[i], j) == child_of(prev.octants@[i], j));
                    }
                } else if i < n0 {
                    assert(cur[i] == prev.octants@[i]);
                    assert(child_of(cur[i], j) == child_of(prev.octants@[i], j));
                }
            }
            assert forall|i: int, j: int|
                0 <= i < cur.len() && 0 <= j < 8 && cur[i] is Branch implies #[trigger] child_of(
                cur[i],
                j,
            ) == EMPTY || child_of(cur[i], j) < cur.len() by {
                if i == handle {
                } else if i < n0 {
                    assert(cur[i] == prev.octants@[i]);
                }
            }
            assert forall|l: int, k: int|
                0 <= l < 8 && 0 <= k < self.levels@[l]@.len() implies 1 <= #[trigger] self.levels@[
                l
            ]@[k] < cur.len() && self.depths@[self.levels@[l]@[k] as int] == l + 1 by {
                if l == level && k == self.levels@[l]@.len() - 1 {
                } else {
                    assert(self.levels@[l]@[k] == prev.levels@[l]@[k]);
                }
            }
            assert forall|l: int, k1: int, k2: int|
                0 <= l < 8 && 0 <= k1 < k2 < self.levels@[l]@.len() implies #[trigger] self.levels@[
                l
            ]@[k1] != #[trigger] self.levels@[l]@[k2] by {
                if l == level && k2 == self.levels@[l]@.len() - 1 {
                    assert(self.levels@[l]@[k1] == prev.levels@[l]@[k1]);
                    assert(self.levels@[l]@[k1] < n0);
                } else {
                    assert(self.levels@[l]@[k1] == prev.levels@[l]@[k1]);
                    assert(self.levels@[l]@[k2] == prev.levels@[l]@[k2]);
                }
            }
            assert forall|i: int, j: int|
                0 <= i < cur.len() && 0 <= j < 8 && cur[i] is Branch && #[trigger] child_of(
                cur[i],
                j,
            ) != EMPTY implies self.paths@[child_of(cur[i], j) as int] == self.paths@[i].push(
                j as u8,
            ) by {
                if i == handle {
                    if j != index {
                        assert(child_of(cur[i], j) == child_of(prev.octants@[i], j));
                    }
                } else if i < n0 {
                    assert(cur[i] == prev.octants@[i]);
                    assert(child_of(cur[i], j) == child_of(prev.octants@[i], j));
                }
            }
            lemma_attach_routes(
                prev.octants@,
                cur,
                prev.paths@,
                self.paths@,
                handle as int,
                index as int,
            );
            // The fresh leaf sits at the color's own path, and its one pixel
            // agrees with it.
            let leaf_path = prev.paths@[handle as int].push(index as u8);
            assert(self.paths@[n0] == leaf_path && leaf_path == color_path(*color));
            assert forall|k: int, l: int|
                0 <= k < self.pixels@[n0].len() && 0 <= l < leaf_path.len() implies spec_level_index(
                #[trigger] self.pixels@[n0][k],
                l as u8,
            ) == #[trigger] leaf_path[l] by {
                assert(self.pixels@[n0][k] == *color);
                assert(color_path(*color)[l] == spec_level_index(*color, l as u8));
            }
            // The color is new: a leaf already holding it would sit at this
            // very path, but the walk along that path dies at the slot that
            // was still empty.
            broadcast use vstd::set::group_set_axioms;

            if prev.inserted@.contains(*color) {
                assert(prev.inserted@.to_multiset().count(*color) > 0);
                assert(group_multiset(prev.pixels@).count(*color) > 0);
                lemma_whole_member_in_group(prev.pixels@, *color);
                let j = choose|j: int|
                    0 <= j < prev.pixels@.len() && (#[trigger] prev.pixels@[j]).to_multiset().count(
                        *color,
                    ) > 0;
                prev.pixels@[j].to_multiset_ensures();
                assert(prev.pixels@[j].contains(*color));
                let k = choose|k: int| 0 <= k < prev.pixels@[j].len() && prev.pixels@[j][k] == *color;
                assert(octant_count(prev.octants@[j]) >= 1);
                assert(prev.octants@[j] is Leaf);
                assert(prev.paths@[j].len() == 8);
                assert(prev.paths@[j] =~= color_path(*color)) by {
                    assert forall|l: int| 0 <= l < 8 implies prev.paths@[j][l] == color_path(
                        *color,
                    )[l] by {
                        assert(spec_level_index(prev.pixels@[j][k], l as u8) == prev.paths@[j][l]);
                        assert(color_path(*color)[l] == spec_level_index(*color, l as u8));
                    }
                }
                assert(route(prev.octants@, 0, prev.paths@[j]) == j);
                assert(route(prev.octants@, 0, prev.paths@[handle as int]) == handle);
                lemma_route_step(prev.octants@, 0, prev.paths@[handle as int], index as u8);
                assert(route(prev.octants@, 0, color_path(*color)) == -1);
                assert(false);
            }
            assert(self.inserted@.to_set() =~= prev.inserted@.to_set().insert(*color)) by {
                assert forall|a: Rgb24|
                    self.inserted@.to_set().contains(a) <==> prev.inserted@.to_set().insert(
                        *color,
                    ).contains(a) by {
                    if a == *color {
                        assert(self.inserted@[self.inserted@.len() - 1] == *color);
                        assert(self.inserted@.contains(*color));
                    } else {
                        if self.inserted@.contains(a) {
                            let ka = choose|ka: int|
                                0 <= ka < self.inserted@.len() && self.inserted@[ka] == a;
                            assert(prev.inserted@[ka] == a);
                            assert(prev.inserted@.contains(a));
                        }
                        if prev.inserted@.contains(a) {
                            let ka = choose|ka: int|
                                0 <= ka < prev.inserted@.len() && prev.inserted@[ka] == a;
                            assert(self.inserted@[ka] == a);
                            assert(self.inserted@.contains(a));
                        }
                    }
                }
            }
            vstd::seq_lib::seq_to_set_is_finite::<Rgb24>(prev.inserted@);
            assert(self.inserted@.to_set().len() == prev.inserted@.to_set().len() + 1);
        }
    }
}

impl Octree {
    /// Adds a color via index traversal: descend seven branch levels,
    /// creating branches as needed, then create or feed the leaf at the
    /// bottom.
    fn add_color(&mut self, color: &Rgb24)
        requires
            old(self).build_wf(),
            old(self).inserted@.len() < 0x100_0000_0000_0000,
        ensures
            final(self).build_wf(),
            final(self).inserted@ == old(self).inserted@.push(*color),
            final(self).levels@[7]@.len() <= old(self).levels@[7]@.len() + 1,
            old(self).octants@.len() <= final(self).octants@.len() <= old(self).octants@.len() + 8,
            0 <= route(final(self).octants@, 0, color_path(*color)) < final(self).octants@.len(),
            final(self).octants@[route(final(self).octants@, 0, color_path(*color))] is Leaf,
            final(self).pixels@[route(final(self).octants@, 0, color_path(*color))].len() >= 1,
            final(self).pixels@[route(final(self).octants@, 0, color_path(*color))].last()
                == *color,
            forall|i: int|
                0 <= i < old(self).octants@.len() && (#[trigger] old(self).octants@[i]) is Leaf && i
                    != route(final(self).octants@, 0, color_path(*color))
                    ==> final(self).octants@[i] == old(self).octants@[i] && final(self).pixels@[i]
                    == old(self).pixels@[i],
    {
        let ghost at_entry = *self;
        let ghost len7 = self.levels@[7]@.len();
        let ghost cp = color_path(*color);
        let mut handle: usize = 0;
        proof {
            assert(self.paths@[0] =~= cp.subrange(0, 0));
        }

        let mut level: usize = 0;
        while level < 7
            invariant
                self.build_wf(),
                self.inserted == at_entry.inserted,
                self.levels@[7]@.len() == len7,
                level < 8,
                handle < self.octants@.len(),
                self.octants@[handle as int] is Branch,
                self.depths@[handle as int] == level,
                cp == color_path(*color),
                self.paths@[handle as int] == cp.subrange(0, level as int),
                at_entry.octants@.len() <= self.octants@.len() <= at_entry.octants@.len() + level,
                forall|i: int|
                    0 <= i < at_entry.octants@.len() && (#[trigger] at_entry.octants@[i]) is Leaf
                        ==> self.octants@[i] == at_entry.octants@[i] && self.pixels@[i]
                        == at_entry.pixels@[i],
            decreases 7 - level,
        {
            let index = color.level_index(level);

            if !self.octants[handle].child_exists(index) {
                self.add_branch(handle, index, level);
            }

            let next = self.octants[handle].child(index).unwrap();
            proof {
                assert(child_of(self.octants@[handle as int], index as int) != EMPTY);
                assert(self.depths@[next as int] == level + 1);
                assert(self.paths@[next as int] == self.paths@[handle as int].push(index as u8));
                assert(cp[level as int] == spec_level_index(*color, level as u8));
                assert(cp.subrange(0, level as int).push(index as u8) =~= cp.subrange(
                    0,
                    level as int + 1,
                ));
            }
            handle = next;
            level += 1;
        }

        let index = color.level_index(7);
        proof {
            assert(cp[7] == spec_level_index(*color, 7u8));
            assert(self.paths@[handle as int].push(index as u8) =~= cp);
        }
        if !self.octants[handle].child_exists(index) {
            let ghost before = *self;
            self.add_leaf(handle, index, 7, color);
            proof {
                let fresh = before.octants@.len() as int;
                assert(self.paths@[fresh] == cp);
                assert(route(self.octants@, 0, cp) == fresh);
                assert(self.pixels@[fresh] == seq![*color]);
                assert(self.pixels@[fresh].last() == *color);
            }
        } else {
            let child_handle = self.octants[handle].child(index).unwrap();
            proof {
                assert(child_of(self.octants@[handle as int], index as int) != EMPTY);
                assert(self.depths@[child_handle as int] == 8);
                assert(self.octants@[child_handle as int] is Leaf);
                lemma_octant_le_total(self.octants@, child_handle as int);
                assert(self.paths@[child_handle as int] == self.paths@[handle as int].push(
                    index as u8,
                ));
                assert(self.paths@[child_handle as int] == cp);
            }
            let ghost prev = *self;
            let mut oct = self.octants[child_handle];
            oct.add_color(color);
            self.octants[child_handle] = oct;
            proof {
                broadcast use vstd::multiset::group_multiset_axioms;

                lemma_counts_update(prev.octants@, child_handle as int, oct);
                self.inserted@ = self.inserted@.push(*color);
                let s2 = self.inserted@;
                assert(s2.drop_last() =~= prev.inserted@);
                assert(s2.last() == *color);
                lemma_leaves_ok_push(prev.octants@, prev.inserted@, *color);
                // The pixel lands in the existing leaf's group.
                let psi = prev.pixels@[child_handle as int];
                let grown = psi.push(*color);
                self.pixels@ = self.pixels@.update(child_handle as int, grown);
                assert(grown.drop_last() =~= psi);
                assert(grown.last() == *color);
                lemma_group_multiset_update(prev.pixels@, child_handle as int, grown);
                psi.to_multiset_ensures();
                prev.inserted@.to_multiset_ensures();
                assert(grown.to_multiset() =~= psi.to_multiset().insert(*color));
                assert(group_multiset(self.pixels@).add(psi.to_multiset()) =~= group_multiset(
                    prev.pixels@,
                ).insert(*color).add(psi.to_multiset()));
                lemma_multiset_cancel(
                    group_multiset(self.pixels@),
                    group_multiset(prev.pixels@).insert(*color),
                    psi.to_multiset(),
                );
                assert(group_multiset(self.pixels@) =~= s2.to_multiset());
                let cur = self.octants@;
                let l0 = prev.octants@[child_handle as int]->Leaf_0;
                let l1 = oct->Leaf_0;
                assert forall|i: int|
                    0 <= i < cur.len() && (#[trigger] cur[i]) is Leaf implies leaf_ok(
                    cur[i]->Leaf_0,
                    s2,
                ) by {
                    if i == child_handle {
                        assert(leaf_ok(l0, s2));
                        assert forall|ch: int|
                            0 <= ch < 3 implies lo_fold(s2, ch) <= chan(*color, ch) && chan(
                            *color,
                            ch,
                        ) <= hi_fold(s2, ch) by {}
                        assert(l1.count * lo_fold(s2, 0) <= l1.r && l1.r <= l1.count * hi_fold(
                            s2,
                            0,
                        )) by (nonlinear_arith)
                            requires
                                l1.count == l0.count + 1,
                                l1.r == l0.r + color.r,
                                l0.count * lo_fold(s2, 0) <= l0.r <= l0.count * hi_fold(s2, 0),
                                lo_fold(s2, 0) <= color.r <= hi_fold(s2, 0),
                        ;
                        assert(l1.count * lo_fold(s2, 1) <= l1.g && l1.g <= l1.count * hi_fold(
                            s2,
                            1,
                        )) by (nonlinear_arith)
                            requires
                                l1.count == l0.count + 1,
                                l1.g == l0.g + color.g,
                                l0.count * lo_fold(s2, 1) <= l0.g <= l0.count * hi_fold(s2, 1),
                                lo_fold(s2, 1) <= color.g <= hi_fold(s2, 1),
                        ;
                        assert(l1.count * lo_fold(s2, 2) <= l1.b && l1.b <= l1.count * hi_fold(
                            s2,
                            2,
                        )) by (nonlinear_arith)
                            requires
                                l1.count == l0.count + 1,
                                l1.b == l0.b + color.b,
                                l0.count * lo_fold(s2, 2) <= l0.b <= l0.count * hi_fold(s2, 2),
                                lo_fold(s2, 2) <= color.b <= hi_fold(s2, 2),
                        ;
                    } else {
                        assert(cur[i] == prev.octants@[i]);
                    }
                }
                assert forall|i: int, j: int|
                    0 <= i < cur.len() && 0 <= j < 8 && cur[i] is Branch && #[trigger] child_of(
                    cur[i],
                    j,
                ) != EMPTY implies self.depths@[child_of(cur[i], j) as int] == self.depths@[i]
                    + 1 by {
                    assert(cur[i] == prev.octants@[i]);
                }
                assert forall|i: int, j: int|
                    0 <= i < cur.len() && 0 <= j < 8 && cur[i] is Branch implies #[trigger] child_of(
                    cur[i],
                    j,
                ) == EMPTY || child_of(cur[i], j) < cur.len() by {
                    assert(cur[i] == prev.octants@[i]);
                }
                assert forall|i: int, j: int|
                    0 <= i < cur.len() && 0 <= j < 8 && cur[i] is Branch && #[trigger] child_of(
                    cur[i],
                    j,
                ) != EMPTY implies self.paths@[child_of(cur[i], j) as int] == self.paths@[i].push(
                    j as u8,
                ) by {
                    assert(cur[i] == prev.octants@[i]);
                }
                // Every walk still ends where it did: only a leaf changed.
                assert forall|i2: int, j2: int|
                    0 <= i2 < prev.octants@.len() && 0 <= j2 < 8 && prev.octants@[i2] is Branch
                        && #[trigger] child_of(prev.octants@[i2], j2) != EMPTY implies cur[
                    i2] is Branch && child_of(cur[i2], j2) == child_of(prev.octants@[i2], j2) by {
                    assert(i2 != child_handle);
                }
                assert forall|i: int| 0 <= i < cur.len() implies route(
                    cur,
                    0,
                    #[trigger] self.paths@[i],
                ) == i by {
                    assert(route(prev.octants@, 0, prev.paths@[i]) == i);
                    lemma_route_frame(prev.octants@, cur, 0, prev.paths@[i]);
                }
                // The grown group still sits on the leaf's path.
                assert forall|k: int, l: int|
                    0 <= k < grown.len() && 0 <= l < self.paths@[child_handle as int].len() implies spec_level_index(
                    #[trigger] grown[k],
                    l as u8,
                ) == #[trigger] self.paths@[child_handle as int][l] by {
                    if k < psi.len() {
                        assert(grown[k] == psi[k]);
                        assert(spec_level_index(psi[k], l as u8) == prev.paths@[child_handle as int][l]);
                    } else {
                        assert(grown[k] == *color);
                        assert(cp[l] == spec_level_index(*color, l as u8));
                    }
                }
                // The color was seen before: the leaf at its path already
                // carries a pixel, and a pixel on a full path is the color.
                assert(psi.len() >= 1);
                let x = psi[0];
                assert(spec_level_index(x, 0u8) == prev.paths@[child_handle as int][0]);
                assert(color_path(x) =~= cp) by {
                    assert forall|l: int| 0 <= l < 8 implies color_path(x)[l] == cp[l] by {
                        assert(spec_level_index(x, l as u8) == prev.paths@[child_handle as int][l]);
                        assert(color_path(x)[l] == spec_level_index(x, l as u8));
                    }
                }
                lemma_same_path_same_color(x, *color);
                psi.to_multiset_ensures();
                assert(psi.contains(x));
                assert(psi.to_multiset().count(*color) > 0);
                lemma_group_member_in_whole(prev.pixels@, child_handle as int, *color);
                assert(prev.inserted@.to_multiset().count(*color) > 0);
                assert(prev.inserted@.contains(*color));
                assert(s2.to_set() =~= prev.inserted@.to_set()) by {
                    assert forall|a: Rgb24|
                        s2.to_set().contains(a) <==> prev.inserted@.to_set().contains(a) by {
                        if a == *color {
                            assert(prev.inserted@.contains(*color));
                            assert(s2[s2.len() - 1] == *color);
                            assert(s2.contains(*color));
                        } else {
                            if s2.contains(a) {
                                let ka = choose|ka: int| 0 <= ka < s2.len() && s2[ka] == a;
                                assert(prev.inserted@[ka] == a);
                                assert(prev.inserted@.contains(a));
                            }
                            if prev.inserted@.contains(a) {
                                let ka = choose|ka: int|
                                    0 <= ka < prev.inserted@.len() && prev.inserted@[ka] == a;
                                assert(s2[ka] == a);
                                assert(s2.contains(a));
                            }
                        }
                    }
                }
                // The color landed at its own path.
                assert(route(cur, 0, self.paths@[child_handle as int]) == child_handle);
                assert(self.pixels@[child_handle as int].last() == *color);
            }
        }
    }

    /// Builds the octree from a list of colors: afterwards the tree holds
    /// one live leaf per distinct color inserted so far, each at its
    /// color's own eight-level bit path, with the color's multiplicity and
    /// multiplicity-scaled channel sums (see `lemma_built_leaf_uniform`).
    pub fn build(&mut self, colors: &[Rgb24])
        requires
            old(self).build_wf(),
            old(self).inserted@.len() + colors@.len() <= 0x100_0000_0000_0000,
        ensures
            final(self).build_wf(),
            final(self).inserted@ == old(self).inserted@ + colors@,
            final(self).levels@[7]@.len() <= old(self).levels@[7]@.len() + colors@.len(),
    {
        let n = colors.len();
        let mut i: usize = 0;
        while i < n
            invariant
                n == colors@.len(),
                0 <= i <= n,
                self.build_wf(),
                old(self).inserted@.len() + n <= 0x100_0000_0000_0000,
                self.inserted@ == old(self).inserted@ + colors@.take(i as int),
                self.levels@[7]@.len() <= old(self).levels@[7]@.len() + i,
            decreases n - i,
        {
            self.add_color(&colors[i]);
            proof {
                assert(old(self).inserted@ + colors@.take(i as int + 1) =~= (old(self).inserted@
                    + colors@.take(i as int)).push(colors@[i as int]));
            }
            i += 1;
        }
        proof {
            assert(colors@.take(n as int) =~= colors@);
        }
    }
}

/// In a freshly built octree every leaf stands for exactly one color: all
/// its pixels share the leaf's full eight-level path, so they are copies of
/// one color, and the leaf's counters are that color's multiplicity and the
/// multiplicity-scaled channel values. Together with the count of leaves —
/// one per distinct inserted color, by `build_wf` — this pins the built
/// tree's leaf layer.
pub proof fn lemma_built_leaf_uniform(t: &Octree, i: int)
    requires
        t.build_wf(),
        0 <= i < t.octants@.len(),
        t.octants@[i] is Leaf,
    ensures
        t.pixels@[i].len() >= 1,
        forall|k: int|
            0 <= k < t.pixels@[i].len() ==> #[trigger] t.pixels@[i][k] == t.pixels@[i][0],
        t.octants@[i]->Leaf_0.count == t.pixels@[i].len(),
        t.octants@[i]->Leaf_0.r == t.pixels@[i].len() * t.pixels@[i][0].r,
        t.octants@[i]->Leaf_0.g == t.pixels@[i].len() * t.pixels@[i][0].g,
        t.octants@[i]->Leaf_0.b == t.pixels@[i].len() * t.pixels@[i][0].b,
{
    let px = t.pixels@[i];
    let p = t.paths@[i];
    assert(p.len() == t.depths@[i]);
    assert(p.len() == 8);
    assert(octant_count(t.octants@[i]) >= 1);
    assert forall|k: int| 0 <= k < px.len() implies #[trigger] px[k] == px[0] by {
        assert forall|l: int| 0 <= l < 8 implies color_path(px[k])[l] == color_path(px[0])[l] by {
            assert(spec_level_index(px[k], l as u8) == p[l]);
            assert(spec_level_index(px[0], l as u8) == p[l]);
            assert(color_path(px[k])[l] == spec_level_index(px[k], l as u8));
            assert(color_path(px[0])[l] == spec_level_index(px[0], l as u8));
        }
        assert(color_path(px[k]) =~= color_path(px[0]));
        lemma_same_path_same_color(px[k], px[0]);
    }
    crate::color::lemma_sum_chan_uniform(px, px[0], 0);
    crate::color::lemma_sum_chan_uniform(px, px[0], 1);
    crate::color::lemma_sum_chan_uniform(px, px[0], 2);
}

/// The zero-count leaf left behind where a drained child used to be.
pub open spec fn erased_leaf() -> Octant {
    Octant::Leaf(Leaf { count: 0, r: 0, g: 0, b: 0 })
}

/// The well-behaved shape of a branch about to collapse: it has at least
/// one child, all its children are distinct live leaves, and none is the
/// branch itself.
pub open spec fn distinct_live_children(s: Seq<Octant>, h: int) -> bool {
    &&& spec_child_count(s[h]) >= 1
    &&& forall|j: int|
        0 <= j < 8 && #[trigger] child_of(s[h], j) != EMPTY ==> child_of(s[h], j) != h && child_of(
            s[h],
            j,
        ) < s.len() && is_live_leaf(s[child_of(s[h], j) as int])
    &&& forall|j1: int, j2: int|
        0 <= j1 < j2 < 8 && #[trigger] child_of(s[h], j1) != EMPTY && #[trigger] child_of(s[h], j2)
            != EMPTY ==> child_of(s[h], j1) != child_of(s[h], j2)
}

impl Octree {
    /// Creates a new leaf out of a branch by summing child colors: the
    /// branch's leaf children are drained into a fresh leaf that replaces
    /// the branch in place, and each drained child becomes a zero-count
    /// erasure leaf. The collapse conserves the total pixel count and never
    /// increases the number of live leaves; when the branch's children are
    /// distinct live leaves, the live leaf count drops by exactly the child
    /// count less one.
    fn branch_to_leaf(&mut self, handle: usize)
        requires
            old(self).arena_wf(),
            handle < old(self).octants@.len(),
            old(self).octants@[handle as int] is Branch,
            old(self).inserted@.len() <= 0x100_0000_0000_0000,
            1 <= old(self).paths@[handle as int].len() <= 7,
            forall|j: int|
                0 <= j < 8 && #[trigger] child_of(old(self).octants@[handle as int], j) != EMPTY
                    ==> old(self).paths@[child_of(old(self).octants@[handle as int], j) as int]
                    == old(self).paths@[handle as int].push(j as u8),
        ensures
            final(self).arena_wf(),
            final(self).inserted == old(self).inserted,
            final(self).levels == old(self).levels,
            final(self).depths == old(self).depths,
            final(self).paths == old(self).paths,
            final(self).octants@.len() == old(self).octants@.len(),
            final(self).octants@[handle as int] is Leaf,
            live_leaves(final(self).octants@) <= live_leaves(old(self).octants@),
            forall|i: int|
                0 <= i < old(self).octants@.len() && i != handle
                    ==> final(self).octants@[i] == old(self).octants@[i]
                    || ((#[trigger] old(self).octants@[i]) is Leaf
                    && final(self).octants@[i] == erased_leaf()
                    && (exists|j: int|
                        0 <= j < 8 && #[trigger] child_of(old(self).octants@[handle as int], j)
                            == i)),
            distinct_live_children(old(self).octants@, handle as int) ==> live_leaves(
                final(self).octants@,
            ) == live_leaves(old(self).octants@) - spec_child_count(
                old(self).octants@[handle as int],
            ) + 1,
            spec_child_count(old(self).octants@[handle as int]) >= 1 ==> live_leaves(
                final(self).octants@,
            ) >= live_leaves(old(self).octants@) - spec_child_count(
                old(self).octants@[handle as int],
            ) + 1,
    {
        let ghost orig = self.octants@;
        let ghost colors = self.inserted@;
        let ghost nice = distinct_live_children(orig, handle as int);
        let octant = self.octants[handle];
        let children = match octant {
            Octant::Branch(b) => b.children,
            Octant::Leaf(_) => {
                proof {
                    assert(false);
                }
                [EMPTY; 8]
            },
        };

        let mut acc_count: u64 = 0;
        let mut acc_r: u64 = 0;
        let mut acc_g: u64 = 0;
        let mut acc_b: u64 = 0;
        let ghost orig_pixels = self.pixels@;
        let ghost mut acc_px: Seq<Rgb24> = Seq::empty();
        proof {
            broadcast use vstd::multiset::group_multiset_axioms;

            lemma_empty_seq_multiset(acc_px);
            assert(group_multiset(self.pixels@).add(acc_px.to_multiset()) =~= group_multiset(
                orig_pixels,
            ));
        }

        let mut ci: usize = 0;
        while ci < 8
            invariant
                ci <= 8,
                handle < self.octants@.len(),
                self.octants@.len() == orig.len(),
                self.inserted@ == colors,
                self.inserted == old(self).inserted,
                self.levels == old(self).levels,
                self.depths == old(self).depths,
                self.octants@[handle as int] == orig[handle as int],
                orig[handle as int] is Branch,
                nice == distinct_live_children(orig, handle as int),
                forall|q: int| 0 <= q < 8 ==> child_of(orig[handle as int], q) == children@[q],
                arena_ok(self.octants@),
                leaves_ok(self.octants@, colors),
                total_count(orig) == colors.len() <= 0x100_0000_0000_0000,
                total_count(self.octants@) + acc_count == total_count(orig),
                self.pixels@.len() == orig.len(),
                acc_count == acc_px.len(),
                acc_r == crate::color::sum_chan(acc_px, 0),
                acc_g == crate::color::sum_chan(acc_px, 1),
                acc_b == crate::color::sum_chan(acc_px, 2),
                group_multiset(self.pixels@).add(acc_px.to_multiset()) =~= group_multiset(
                    orig_pixels,
                ),
                group_multiset(orig_pixels) == colors.to_multiset(),
                forall|i: int|
                    0 <= i < orig.len() ==> octant_count(#[trigger] self.octants@[i])
                        == self.pixels@[i].len(),
                forall|i: int|
                    0 <= i < orig.len() && (#[trigger] self.octants@[i]) is Leaf ==> {
                        let l = self.octants@[i]->Leaf_0;
                        l.r == crate::color::sum_chan(self.pixels@[i], 0) && l.g
                            == crate::color::sum_chan(self.pixels@[i], 1) && l.b
                            == crate::color::sum_chan(self.pixels@[i], 2)
                    },
                acc_r <= 255 * acc_count && acc_g <= 255 * acc_count && acc_b <= 255 * acc_count,
                acc_count * lo_fold(colors, 0) <= acc_r && acc_r <= acc_count * hi_fold(colors, 0),
                acc_count * lo_fold(colors, 1) <= acc_g && acc_g <= acc_count * hi_fold(colors, 1),
                acc_count * lo_fold(colors, 2) <= acc_b && acc_b <= acc_count * hi_fold(colors, 2),
                live_leaves(self.octants@) + liv(
                    Octant::Leaf(Leaf { count: acc_count, r: acc_r, g: acc_g, b: acc_b }),
                ) <= live_leaves(orig),
                forall|i: int|
                    0 <= i < orig.len() && i != handle ==> self.octants@[i] == orig[i] || ((
                    #[trigger] orig[i]) is Leaf && self.octants@[i] == erased_leaf() && (exists|
                        j: int,
                    |
                        0 <= j < 8 && #[trigger] child_of(orig[handle as int], j) == i)),
                nice ==> live_leaves(self.octants@) == live_leaves(orig) - nonempty_children(
                    orig[handle as int],
                    ci as int,
                ),
                acc_count == 0 ==> live_leaves(self.octants@) == live_leaves(orig),
                acc_count > 0 ==> live_leaves(self.octants@) >= live_leaves(orig)
                    - nonempty_children(orig[handle as int], ci as int),
                nice ==> (acc_count > 0 <==> nonempty_children(orig[handle as int], ci as int) > 0),
                nice ==> forall|q: int|
                    ci <= q < 8 && children@[q] != EMPTY ==> self.octants@[#[trigger] children@[
                        q
                    ] as int] == orig[children@[q] as int],
                self.paths == old(self).paths,
                self.paths_wf(),
                1 <= self.paths@[handle as int].len() <= 7,
                forall|j: int|
                    0 <= j < 8 && #[trigger] child_of(orig[handle as int], j) != EMPTY
                        ==> self.paths@[child_of(orig[handle as int], j) as int]
                        == self.paths@[handle as int].push(j as u8),
                on_path(acc_px, self.paths@[handle as int]),
            decreases 8 - ci,
        {
            proof {
                lemma_nonempty_children_nonneg(orig[handle as int], ci as int);
                assert(nonempty_children(orig[handle as int], ci as int + 1) == nonempty_children(
                    orig[handle as int],
                    ci as int,
                ) + (if child_of(orig[handle as int], ci as int) != EMPTY {
                    1int
                } else {
                    0int
                }));
            }
            let ch = children[ci];
            if ch != EMPTY {
                proof {
                    assert(child_of(self.octants@[handle as int], ci as int) == ch);
                    assert(ch < self.octants@.len());
                }
                let child_oct = self.octants[ch];
                match child_oct {
                    Octant::Leaf(l) => {
                        proof {
                            lemma_octant_le_total(self.octants@, ch as int);
                            lemma_total_count_nonneg(self.octants@);
                            assert(acc_count + l.count <= total_count(orig));
                            assert(leaf_ok(l, colors));
                            assert((acc_count + l.count) * lo_fold(colors, 0) <= acc_r + l.r
                                && acc_r + l.r <= (acc_count + l.count) * hi_fold(colors, 0))
                                by (nonlinear_arith)
                                requires
                                    acc_count * lo_fold(colors, 0) <= acc_r <= acc_count * hi_fold(
                                        colors,
                                        0,
                                    ),
                                    l.count * lo_fold(colors, 0) <= l.r <= l.count * hi_fold(
                                        colors,
                                        0,
                                    ),
                            ;
                            assert((acc_count + l.count) * lo_fold(colors, 1) <= acc_g + l.g
                                && acc_g + l.g <= (acc_count + l.count) * hi_fold(colors, 1))
                                by (nonlinear_arith)
                                requires
                                    acc_count * lo_fold(colors, 1) <= acc_g <= acc_count * hi_fold(
                                        colors,
                                        1,
                                    ),
                                    l.count * lo_fold(colors, 1) <= l.g <= l.count * hi_fold(
                                        colors,
                                        1,
                                    ),
                            ;
                            assert((acc_count + l.count) * lo_fold(colors, 2) <= acc_b + l.b
                                && acc_b + l.b <= (acc_count + l.count) * hi_fold(colors, 2))
                                by (nonlinear_arith)
                                requires
                                    acc_count * lo_fold(colors, 2) <= acc_b <= acc_count * hi_fold(
                                        colors,
                                        2,
                                    ),
                                    l.count * lo_fold(colors, 2) <= l.b <= l.count * hi_fold(
                                        colors,
                                        2,
                                    ),
                            ;
                        }
                        let ghost before = self.octants@;
                        acc_count = acc_count + l.count;
                        acc_r = acc_r + l.r;
                        acc_g = acc_g + l.g;
                        acc_b = acc_b + l.b;
                        self.octants[ch] = Octant::new_leaf(0, 0, 0, 0);
                        proof {
                            broadcast use vstd::multiset::group_multiset_axioms;

                            lemma_counts_update(before, ch as int, erased_leaf());
                            // The drained child's pixels move into the
                            // accumulated group.
                            let before_px = self.pixels@;
                            let psch = before_px[ch as int];
                            let acc_old = acc_px;
                            acc_px = acc_px + psch;
                            self.pixels@ = self.pixels@.update(ch as int, Seq::empty());
                            crate::color::lemma_sum_chan_concat(acc_old, psch, 0);
                            crate::color::lemma_sum_chan_concat(acc_old, psch, 1);
                            crate::color::lemma_sum_chan_concat(acc_old, psch, 2);
                            lemma_group_multiset_update(before_px, ch as int, Seq::empty());
                            lemma_empty_seq_multiset(Seq::<Rgb24>::empty());
                            vstd::seq_lib::lemma_multiset_commutative(acc_old, psch);
                            assert(group_multiset(self.pixels@).add(psch.to_multiset())
                                =~= group_multiset(before_px));
                            assert(group_multiset(self.pixels@).add(acc_px.to_multiset())
                                =~= group_multiset(orig_pixels));
                            assert(liv(erased_leaf()) == 0);
                            assert(live_leaves(self.octants@) == live_leaves(before) - liv(
                                before[ch as int],
                            ));
                            assert(liv(before[ch as int]) <= 1);
                            // the drained child was one of the branch's own
                            // children, and its pixels sit under the
                            // branch's path
                            assert(child_of(orig[handle as int], ci as int) == ch);
                            assert(exists|j: int|
                                0 <= j < 8 && #[trigger] child_of(orig[handle as int], j)
                                    == ch as int);
                            let bpath = self.paths@[handle as int];
                            assert(self.paths@[ch as int] == bpath.push(ci as u8));
                            assert forall|k: int, l: int|
                                0 <= k < acc_px.len() && 0 <= l < bpath.len() implies spec_level_index(
                                #[trigger] acc_px[k],
                                l as u8,
                            ) == #[trigger] bpath[l] by {
                                if k < acc_old.len() {
                                    assert(acc_px[k] == acc_old[k]);
                                } else {
                                    assert(acc_px[k] == psch[k - acc_old.len()]);
                                    assert(spec_level_index(psch[k - acc_old.len()], l as u8)
                                        == self.paths@[ch as int][l]);
                                    assert(self.paths@[ch as int][l] == bpath[l]);
                                }
                            }
                        }
                    },
                    Octant::Branch(_) => {
                        proof {
                            if nice {
                                assert(is_live_leaf(
                                    orig[child_of(orig[handle as int], ci as int) as int],
                                ));
                                assert(self.octants@[ch as int] == orig[ch as int] || orig[
                                    ch as int] is Leaf);
                                assert(false);
                            }
                        }
                    },
                }
            }
            ci += 1;
        }

        let ghost before_final = self.octants@;
        self.octants[handle] = Octant::new_leaf(acc_count, acc_r, acc_g, acc_b);
        proof {
            broadcast use vstd::multiset::group_multiset_axioms;

            lemma_counts_update(
                before_final,
                handle as int,
                Octant::Leaf(Leaf { count: acc_count, r: acc_r, g: acc_g, b: acc_b }),
            );
            // The branch's empty group gives way to the accumulated one.
            let before_px = self.pixels@;
            self.pixels@ = self.pixels@.update(handle as int, acc_px);
            lemma_group_multiset_update(before_px, handle as int, acc_px);
            lemma_empty_seq_multiset(before_px[handle as int]);
            assert(group_multiset(self.pixels@) =~= group_multiset(before_px).add(
                acc_px.to_multiset(),
            ));
            assert(group_multiset(self.pixels@) =~= colors.to_multiset());
            assert(spec_child_count(orig[handle as int]) == nonempty_children(
                orig[handle as int],
                8,
            ));
            if nice {
                assert(acc_count > 0);
            }
            assert forall|i: int, j: int|
                0 <= i < self.octants@.len() && 0 <= j < 8
                    && self.octants@[i] is Branch implies #[trigger] child_of(self.octants@[i], j)
                == EMPTY || child_of(self.octants@[i], j) < self.octants@.len() by {
                assert(child_of(before_final[i], j) == EMPTY || child_of(before_final[i], j)
                    < before_final.len());
            }
            // The merged leaf keeps sitting on the branch's own path.
            assert forall|i: int|
                0 <= i < self.octants@.len() && (#[trigger] self.octants@[i]) is Leaf implies 1
                <= self.paths@[i].len() <= 8 && on_path(self.pixels@[i], self.paths@[i]) by {
                if i != handle {
                    assert(self.octants@[i] == before_final[i]);
                    assert(self.pixels@[i] == before_px[i]);
                }
            }
        }
    }
}

/// A live leaf whose bookkeeping is sound emits a color inside the hull of
/// the inserted colors.
proof fn lemma_leaf_mean_in_hull(l: Leaf, s: Seq<Rgb24>)
    requires
        leaf_ok(l, s),
        l.count >= 1,
    ensures
        in_hull(
            Rgb24 {
                r: (l.r as int / l.count as int) as u8,
                g: (l.g as int / l.count as int) as u8,
                b: (l.b as int / l.count as int) as u8,
            },
            s,
        ),
{
    lemma_scaled_div_in_range(l.r as int, l.count as int, lo_fold(s, 0) as int, hi_fold(s, 0) as int);
    lemma_scaled_div_in_range(l.g as int, l.count as int, lo_fold(s, 1) as int, hi_fold(s, 1) as int);
    lemma_scaled_div_in_range(l.b as int, l.count as int, lo_fold(s, 2) as int, hi_fold(s, 2) as int);
}

/// A sum of `c` values that each lie in `[lo, hi]` has its floored mean in
/// `[lo, hi]` as well.
proof fn lemma_scaled_div_in_range(x: int, c: int, lo: int, hi: int)
    requires
        c >= 1,
        0 <= lo,
        c * lo <= x <= c * hi,
    ensures
        lo <= x / c <= hi,
{
    assert(c * lo == lo * c && c * hi == hi * c) by (nonlinear_arith);
    vstd::arithmetic::div_mod::lemma_fundamental_div_mod_converse(lo * c, c, lo, 0);
    vstd::arithmetic::div_mod::lemma_fundamental_div_mod_converse(hi * c, c, hi, 0);
    vstd::arithmetic::div_mod::lemma_div_is_ordered(lo * c, x, c);
    vstd::arithmetic::div_mod::lemma_div_is_ordered(x, hi * c, c);
}

impl Octree {
    /// Reduces an octree to the specified number of leaf octants and emits
    /// the palette: the mean color of every leaf that still carries pixels,
    /// in arena order.
    ///
    /// If the reduction cannot be made exactly, the number of octants is
    /// maintained above the expected size.
    pub fn into_palette(&mut self, size: usize) -> (palette: Vec<Rgb24>)
        requires
            old(self).build_wf(),
            1 <= size,
            old(self).inserted@.len() <= 0x100_0000_0000_0000,
        ensures
            forall|j: int|
                0 <= j < palette@.len() ==> in_hull(#[trigger] palette@[j], old(self).inserted@),
            palette@.len() <= old(self).levels@[7]@.len(),
            palette@.len() >= crate::min_int(size as int, old(self).levels@[7]@.len() as int),
            old(self).inserted@.len() >= 1 ==> palette@.len() >= 1,
            exists|groups: Seq<Seq<Rgb24>>, prefixes: Seq<Seq<u8>>|
                is_grouped_emission(old(self).inserted@, groups, prefixes, palette@),
            palette@.len() >= top_octant_count(old(self).inserted@),
    {
        let ghost orig = *old(self);
        let ghost colors = self.inserted@;
        let ghost live0 = live_leaves(self.octants@);

        // All leaves are initially stored at the highest level.
        let mut leaf_count: usize = self.levels[7].len();

        let mut stop = false;
        let mut lv: usize = 7;
        while 0 < lv && !stop
            invariant
                lv <= 7,
                1 <= size,
                self.inserted@ == colors,
                self.inserted == orig.inserted,
                self.levels == orig.levels,
                self.depths == orig.depths,
                orig.build_wf(),
                self.octants@.len() == orig.octants@.len(),
                self.levels@.len() == 8,
                arena_ok(self.octants@),
                leaves_ok(self.octants@, colors),
                self.pixels_wf(),
                total_count(self.octants@) == colors.len() <= 0x100_0000_0000_0000,
                live_leaves(self.octants@) <= live0,
                leaf_count <= live_leaves(self.octants@),
                live_leaves(self.octants@) >= crate::min_int(size as int, live0),
                leaf_count <= orig.levels@[7]@.len(),
                self.paths == orig.paths,
                self.paths_wf(),
                forall|l: int, k: int|
                    0 <= l < lv && 0 <= k < self.levels@[l]@.len()
                        ==> self.octants@[#[trigger] self.levels@[l]@[k] as int] == orig.octants@[
                        self.levels@[l]@[k] as int],
            decreases lv,
        {
            lv -= 1;
            let nhandles = self.levels[lv].len();
            let mut k: usize = 0;
            while k < nhandles && !stop
                invariant
                    lv < 7,
                    k <= nhandles,
                    1 <= size,
                    self.inserted@ == colors,
                    self.inserted == orig.inserted,
                    self.levels == orig.levels,
                    self.depths == orig.depths,
                    orig.build_wf(),
                    self.octants@.len() == orig.octants@.len(),
                    self.levels@.len() == 8,
                    nhandles == self.levels@[lv as int]@.len(),
                    arena_ok(self.octants@),
                    leaves_ok(self.octants@, colors),
                    self.pixels_wf(),
                    total_count(self.octants@) == colors.len() <= 0x100_0000_0000_0000,
                    live_leaves(self.octants@) <= live0,
                    leaf_count <= live_leaves(self.octants@),
                    live_leaves(self.octants@) >= crate::min_int(size as int, live0),
                    leaf_count <= orig.levels@[7]@.len(),
                    self.paths == orig.paths,
                    self.paths_wf(),
                    forall|l: int, kk: int|
                        0 <= l < lv && 0 <= kk < self.levels@[l]@.len()
                            ==> self.octants@[#[trigger] self.levels@[l]@[kk] as int]
                            == orig.octants@[self.levels@[l]@[kk] as int],
                    forall|kk: int|
                        k <= kk < nhandles ==> self.octants@[#[trigger] self.levels@[
                            lv as int
                        ]@[kk] as int] == orig.octants@[self.levels@[lv as int]@[kk] as int],
                decreases nhandles - k,
            {
                let handle = self.levels[lv][k];
                proof {
                    assert(1 <= handle < self.octants@.len());
                    assert(self.octants@[handle as int] == orig.octants@[handle as int]);
                    assert(self.octants@[handle as int] is Branch);
                    assert(orig.paths@[handle as int].len() == orig.depths@[handle as int]);
                    assert(1 <= self.paths@[handle as int].len() <= 7);
                    assert forall|j: int|
                        0 <= j < 8 && #[trigger] child_of(self.octants@[handle as int], j)
                            != EMPTY implies self.paths@[child_of(
                        self.octants@[handle as int],
                        j,
                    ) as int] == self.paths@[handle as int].push(j as u8) by {
                        assert(child_of(orig.octants@[handle as int], j) == child_of(
                            self.octants@[handle as int],
                            j,
                        ));
                    }
                }
                let count = self.octants[handle].child_count();

                // Reduction not possible, skip to next branch.
                let reducible = count <= leaf_count && leaf_count - count >= size - 1;
                if reducible {
                    // If the branch had no children at all, no more
                    // reductions are possible, so the loop must exit.
                    if count == 0 {
                        stop = true;
                    } else {
                        let ghost before = self.octants@;
                        self.branch_to_leaf(handle);
                        leaf_count = (leaf_count - count) + 1;
                        proof {
                            assert forall|l: int, kk: int|
                                0 <= l < lv + 1 && 0 <= kk < self.levels@[l]@.len() && !(l == lv
                                    && kk <= k) implies self.octants@[#[trigger] self.levels@[
                                l
                            ]@[kk] as int] == orig.octants@[self.levels@[l]@[kk] as int] by {
                                let h = self.levels@[l]@[kk];
                                assert(orig.depths@[h as int] == l + 1);
                                assert(orig.depths@[handle as int] == lv + 1);
                                if l == lv {
                                    assert(h != handle);
                                } else {
                                    assert(h != handle);
                                }
                                assert(before[h as int] == orig.octants@[h as int]);
                                assert(before[h as int] is Branch);
                                assert(self.octants@[h as int] == before[h as int]);
                            }
                        }
                    }
                }
                k += 1;
            }
        }

        let mut palette: Vec<Rgb24> = Vec::new();
        let ghost mut groups: Seq<Seq<Rgb24>> = Seq::empty();
        let ghost mut prefixes: Seq<Seq<u8>> = Seq::empty();
        let n = self.octants.len();
        let mut idx: usize = 0;
        while idx < n
            invariant
                n == self.octants@.len(),
                idx <= n,
                self.inserted@ == colors,
                leaves_ok(self.octants@, colors),
                self.pixels_wf(),
                total_count(self.octants@) == colors.len(),
                live_leaves(self.octants@) <= live0,
                live_leaves(self.octants@) >= crate::min_int(size as int, live0),
                palette@.len() == live_leaves(self.octants@.take(idx as int)),
                forall|j: int|
                    0 <= j < palette@.len() ==> in_hull(#[trigger] palette@[j], colors),
                groups.len() == palette@.len(),
                self.paths_wf(),
                forall|j: int|
                    0 <= j < groups.len() ==> #[trigger] groups[j].len() >= 1 && palette@[j]
                        == group_mean(groups[j]),
                prefixes.len() == groups.len(),
                forall|j: int|
                    0 <= j < groups.len() ==> 1 <= (#[trigger] prefixes[j]).len() <= 8 && on_path(
                        groups[j],
                        prefixes[j],
                    ),
                group_multiset(groups) == group_multiset(self.pixels@.take(idx as int)),
            decreases n - idx,
        {
            proof {
                broadcast use vstd::multiset::group_multiset_axioms;

                assert(self.octants@.take(idx as int + 1).drop_last() =~= self.octants@.take(
                    idx as int,
                ));
                assert(self.octants@.take(idx as int + 1).last() == self.octants@[idx as int]);
                assert(self.pixels@.take(idx as int + 1).drop_last() =~= self.pixels@.take(
                    idx as int,
                ));
                assert(self.pixels@.take(idx as int + 1).last() == self.pixels@[idx as int]);
            }
            let oct = self.octants[idx];
            match oct.make_rgb24() {
                Some(c) => {
                    proof {
                        broadcast use vstd::multiset::group_multiset_axioms;

                        lemma_leaf_mean_in_hull(oct->Leaf_0, colors);
                        let px = self.pixels@[idx as int];
                        lemma_group_multiset_push(groups, px);
                        groups = groups.push(px);
                        assert(c == group_mean(px));
                        prefixes = prefixes.push(self.paths@[idx as int]);
                        assert(1 <= self.paths@[idx as int].len() <= 8 && on_path(
                            px,
                            self.paths@[idx as int],
                        ));
                    }
                    palette.push(c);
                },
                None => {
                    proof {
                        broadcast use vstd::multiset::group_multiset_axioms;

                        lemma_empty_seq_multiset(self.pixels@[idx as int]);
                    }
                },
            }
            idx += 1;
        }
        proof {
            broadcast use vstd::multiset::group_multiset_axioms;

            assert(self.octants@.take(n as int) =~= self.octants@);
            assert(self.pixels@.take(n as int) =~= self.pixels@);
            lemma_live_le_total(self.octants@);
            if colors.len() >= 1 {
                lemma_total_count_live(self.octants@);
            }
            assert(is_grouped_emission(orig.inserted@, groups, prefixes, palette@));
            lemma_grouped_emission_top_split(orig.inserted@, groups, prefixes, palette@);
        }
        palette
    }
}

/// Every live leaf carries at least one pixel, so an arena never has more
/// live leaves than pixels.
proof fn lemma_live_le_total(s: Seq<Octant>)
    ensures
        live_leaves(s) <= total_count(s),
    decreases s.len(),
{
    if s.len() > 0 {
        lemma_live_le_total(s.drop_last());
    }
}

/// Finds a color palette using an RGB octree. The palette is the floor
/// means of a partition of the input pixels into nonempty groups, each
/// sitting inside one subtree of the octant hierarchy, so every entry lies
/// inside the hull of the input; the palette never exceeds the number of
/// distinct input colors, stays at or above the requested size while that
/// many distinct colors exist, and never merges across the root's children.
pub fn octree(colors: &[Rgb24], palette_size: usize) -> (palette: Vec<Rgb24>)
    requires
        1 <= palette_size,
        colors@.len() <= 0x100_0000_0000_0000,
    ensures
        forall|j: int| 0 <= j < palette@.len() ==> in_hull(#[trigger] palette@[j], colors@),
        palette@.len() <= colors@.len(),
        palette@.len() <= colors@.to_set().len(),
        palette@.len() >= crate::min_int(palette_size as int, colors@.to_set().len() as int),
        palette@.len() >= top_octant_count(colors@),
        colors@.len() >= 1 ==> palette@.len() >= 1,
        exists|groups: Seq<Seq<Rgb24>>, prefixes: Seq<Seq<u8>>|
            is_grouped_emission(colors@, groups, prefixes, palette@),
{
    let mut tree = Octree::new();
    tree.build(colors);
    proof {
        assert(tree.inserted@ =~= colors@);
        assert(tree.levels@[7]@.len() == colors@.to_set().len());
    }
    tree.into_palette(palette_size)
}

/// A slot tally never goes below zero.
proof fn lemma_nonempty_children_nonneg(o: Octant, upto: int)
    ensures
        nonempty_children(o, upto) >= 0,
    decreases upto,
{
    if upto > 0 {
        lemma_nonempty_children_nonneg(o, upto - 1);
    }
}

/// A leaf octant has no children at all.
proof fn lemma_nonempty_children_leaf(o: Octant, upto: int)
    requires
        o is Leaf,
    ensures
        nonempty_children(o, upto) == 0,
    decreases upto,
{
    if upto > 0 {
        lemma_nonempty_children_leaf(o, upto - 1);
    }
}

/// A channel sum at most 255 per pixel gives a mean that fits a byte.
proof fn lemma_leaf_mean_bound(sum: int, count: int)
    requires
        count >= 1,
        0 <= sum <= 255 * count,
    ensures
        0 <= sum / count <= 255,
{
    vstd::arithmetic::div_mod::lemma_div_is_ordered(0, sum, count);
    vstd::arithmetic::div_mod::lemma_div_is_ordered(sum, 255 * count, count);
    vstd::arithmetic::div_mod::lemma_fundamental_div_mod_converse(255 * count, count, 255, 0);
}

} // verus!
