use vstd::prelude::*;

verus! {

/// Objects of one leaf that can be sorted at once.
pub const MAX_OBJECTS: usize = 48;

/// An object to order: its identifier and its projected bounding box.
pub type BBoxForDrawOrdering<B> = (u32, B);

/// Rows of a comparison table.
pub open spec fn table_view(t: Seq<Vec<bool>>) -> Seq<Seq<bool>> {
    t.map_values(|row: Vec<bool>| row@)
}

/// Exchanges positions `i` and `j`.
pub open spec fn swapped<A>(s: Seq<A>, i: int, j: int) -> Seq<A> {
    s.update(i, s[j]).update(j, s[i])
}

/// One pass of the ordering: position `i` is compared with every later position
/// `j` (from `j` on); when the object at `i` must come after the one at `j`,
/// the two change places.
pub open spec fn order_pass(order: Seq<int>, before: Seq<Seq<bool>>, i: int, j: int) -> Seq<int>
    decreases order.len() - j,
{
    if j >= order.len() || j < 0 || i < 0 || i >= order.len() {
        order
    } else {
        let next = if before[order[i]][order[j]] { swapped(order, i, j) } else { order };
        proof {
            assert(next.len() == order.len());
        }
        order_pass(next, before, i, j + 1)
    }
}

/// A pass of the ordering keeps the number of objects.
pub proof fn lemma_pass_len(order: Seq<int>, before: Seq<Seq<bool>>, i: int, j: int)
    ensures
        order_pass(order, before, i, j).len() == order.len(),
    decreases order.len() - j,
{
    if j >= order.len() || j < 0 || i < 0 || i >= order.len() {
    } else {
        let next = if before[order[i]][order[j]] { swapped(order, i, j) } else { order };
        lemma_pass_len(next, before, i, j + 1);
    }
}

/// All passes from position `i` on.
pub open spec fn order_passes(order: Seq<int>, before: Seq<Seq<bool>>, i: int) -> Seq<int>
    decreases order.len() - i,
{
    if i < 0 || i + 1 >= order.len() {
        order
    } else {
        proof {
            lemma_pass_len(order, before, i, i + 1);
        }
        order_passes(order_pass(order, before, i, i + 1), before, i + 1)
    }
}

/// Integer values of indices.
pub open spec fn as_ints(s: Seq<usize>) -> Seq<int> {
    s.map_values(|x: usize| x as int)
}

/// The positions `0..n` in order.
pub open spec fn identity_order(n: nat) -> Seq<int> {
    Seq::new(n, |k: int| k)
}

/// The order in which `n` objects are drawn, given for every two objects `a`
/// and `b` (by their positions before sorting) whether `a` must move behind `b`.
pub open spec fn draw_order(n: nat, before: Seq<Seq<bool>>) -> Seq<int> {
    order_passes(identity_order(n), before, 0)
}

/// Every element lies in `0..n`.
pub open spec fn within(s: Seq<int>, n: int) -> bool {
    forall|k: int| 0 <= k < s.len() ==> 0 <= #[trigger] s[k] < n
}

proof fn lemma_pass_permutes(order: Seq<int>, before: Seq<Seq<bool>>, i: int, j: int)
    requires
        0 <= i < order.len(),
        within(order, order.len() as int),
    ensures
        order_pass(order, before, i, j).to_multiset() == order.to_multiset(),
        order_pass(order, before, i, j).len() == order.len(),
        within(order_pass(order, before, i, j), order.len() as int),
    decreases order.len() - j,
{
    if j >= order.len() || j < 0 || i < 0 || i >= order.len() {
    } else {
        let next = if before[order[i]][order[j]] { swapped(order, i, j) } else { order };
        if before[order[i]][order[j]] {
            crate::seq_util::lemma_swap_multiset(order, i, j);
        }
        lemma_pass_permutes(next, before, i, j + 1);
    }
}

proof fn lemma_passes_permute(order: Seq<int>, before: Seq<Seq<bool>>, i: int)
    requires
        within(order, order.len() as int),
    ensures
        order_passes(order, before, i).to_multiset() == order.to_multiset(),
        order_passes(order, before, i).len() == order.len(),
        within(order_passes(order, before, i), order.len() as int),
    decreases order.len() - i,
{
    if i < 0 || i + 1 >= order.len() {
    } else {
        lemma_pass_permutes(order, before, i, i + 1);
        lemma_passes_permute(order_pass(order, before, i, i + 1), before, i + 1);
    }
}

/// Whatever the comparisons say, the draw order holds every object exactly once.
pub proof fn lemma_draw_order_is_permutation(n: nat, before: Seq<Seq<bool>>)
    ensures
        draw_order(n, before).len() == n,
        draw_order(n, before).to_multiset() == identity_order(n).to_multiset(),
        within(draw_order(n, before), n as int),
{
    lemma_passes_permute(identity_order(n), before, 0);
}

/// `before` orders the objects `0..n` strictly: never both ways, and transitively.
pub open spec fn strict_order_on(before: Seq<Seq<bool>>, n: int) -> bool {
    &&& forall|a: int, b: int| 0 <= a < n && 0 <= b < n && #[trigger] before[a][b] ==> !before[b][a]
    &&& forall|a: int, b: int, c: int|
        0 <= a < n && 0 <= b < n && 0 <= c < n && #[trigger] before[a][b] && #[trigger] before[b][c] ==> before[a][c]
}

/// The object at `i` need not move behind any object after it, up to position `j`.
pub open spec fn first_settled(order: Seq<int>, before: Seq<Seq<bool>>, i: int, j: int) -> bool {
    forall|k: int| i < k < j ==> !before[order[i]][#[trigger] order[k]]
}

/// `x` is at position `i` of `order` or after it.
pub open spec fn occurs_from(order: Seq<int>, i: int, x: int) -> bool {
    exists|k: int| i <= k < order.len() && #[trigger] order[k] == x
}

/// Every object at or after position `i` of `result` was at or after position `i` of `order`.
pub open spec fn suffix_from(order: Seq<int>, result: Seq<int>, i: int) -> bool {
    forall|q: int| i <= q < result.len() ==> occurs_from(order, i, #[trigger] result[q])
}

proof fn lemma_suffix_from_itself(order: Seq<int>, i: int)
    ensures
        suffix_from(order, order, i),
{
    assert forall|q: int| i <= q < order.len() implies occurs_from(order, i, #[trigger] order[q]) by {
        assert(order[q] == order[q]);
    }
}

proof fn lemma_pass_settles_first(order: Seq<int>, before: Seq<Seq<bool>>, i: int, j: int)
    requires
        0 <= i < j,
        i < order.len(),
        within(order, order.len() as int),
        strict_order_on(before, order.len() as int),
        first_settled(order, before, i, j),
    ensures
        ({
            let r = order_pass(order, before, i, j);
            &&& r.len() == order.len()
            &&& within(r, order.len() as int)
            &&& forall|k: int| 0 <= k < i ==> #[trigger] r[k] == order[k]
            &&& suffix_from(order, r, i)
            &&& first_settled(r, before, i, order.len() as int)
        }),
    decreases order.len() - j,
{
    let n = order.len() as int;
    if j >= n {
        lemma_suffix_from_itself(order, i);
    } else {
        let x = order[i];
        let y = order[j];
        let next = if before[x][y] { swapped(order, i, j) } else { order };
        if before[x][y] {
            assert forall|k: int| i < k < j + 1 implies !before[next[i]][#[trigger] next[k]] by {
                if k == j {
                    assert(next[k] == x);
                } else {
                    assert(next[k] == order[k]);
                    if before[y][order[k]] {
                        assert(before[x][order[k]]);
                    }
                }
            }
        }
        assert(first_settled(next, before, i, j + 1));
        assert(within(next, n));
        lemma_pass_settles_first(next, before, i, j + 1);
        let r = order_pass(next, before, i, j + 1);
        assert(order_pass(order, before, i, j) == r);
        assert forall|q: int| i <= q < r.len() implies occurs_from(order, i, #[trigger] r[q]) by {
            assert(occurs_from(next, i, r[q]));
            let k1 = choose|k1: int| i <= k1 < next.len() && #[trigger] next[k1] == r[q];
            if before[x][y] {
                if k1 == i {
                    assert(order[j] == r[q]);
                } else if k1 == j {
                    assert(order[i] == r[q]);
                } else {
                    assert(order[k1] == r[q]);
                }
            } else {
                assert(order[k1] == r[q]);
            }
        }
    }
}

proof fn lemma_passes_order_strictly(order: Seq<int>, before: Seq<Seq<bool>>, i: int)
    requires
        0 <= i,
        within(order, order.len() as int),
        strict_order_on(before, order.len() as int),
    ensures
        ({
            let r = order_passes(order, before, i);
            &&& r.len() == order.len()
            &&& forall|k: int| 0 <= k < i && k < order.len() ==> #[trigger] r[k] == order[k]
            &&& suffix_from(order, r, i)
            &&& forall|p: int, q: int| i <= p < q < r.len() ==> !before[#[trigger] r[p]][#[trigger] r[q]]
        }),
    decreases order.len() - i,
{
    let n = order.len() as int;
    if i + 1 >= n {
        lemma_suffix_from_itself(order, i);
    } else {
        lemma_pass_settles_first(order, before, i, i + 1);
        let mid = order_pass(order, before, i, i + 1);
        lemma_pass_permutes(order, before, i, i + 1);
        lemma_passes_order_strictly(mid, before, i + 1);
        let r = order_passes(mid, before, i + 1);
        assert(order_passes(order, before, i) == r);
        assert forall|p: int, q: int| i <= p < q < r.len() implies !before[#[trigger] r[p]][#[trigger] r[q]] by {
            if p == i {
                assert(r[p] == mid[i]);
                assert(occurs_from(mid, i + 1, r[q]));
                let k = choose|k: int| i + 1 <= k < mid.len() && #[trigger] mid[k] == r[q];
                assert(!before[mid[i]][mid[k]]);
            }
        }
        assert forall|q: int| i <= q < r.len() implies occurs_from(order, i, #[trigger] r[q]) by {
            if q == i {
                assert(r[q] == mid[i]);
                assert(occurs_from(order, i, mid[i]));
            } else {
                assert(occurs_from(mid, i + 1, r[q]));
                let k1 = choose|k1: int| i + 1 <= k1 < mid.len() && #[trigger] mid[k1] == r[q];
                assert(occurs_from(order, i, mid[k1]));
            }
        }
    }
}

/// Where the comparisons order the objects strictly (never both ways, and transitively), the draw
/// order respects them: no object comes before an object that it must move behind.
pub proof fn lemma_draw_order_respects_strict_order(n: nat, before: Seq<Seq<bool>>)
    requires
        strict_order_on(before, n as int),
    ensures
        forall|p: int, q: int|
            0 <= p < q < n ==> !before[#[trigger] draw_order(n, before)[p]][#[trigger] draw_order(n, before)[q]],
{
    assert(within(identity_order(n), n as int));
    lemma_passes_order_strictly(identity_order(n), before, 0);
}

proof fn lemma_pass_without_moves(order: Seq<int>, before: Seq<Seq<bool>>, i: int, j: int)
    requires
        within(order, order.len() as int),
        forall|a: int, b: int| 0 <= a < order.len() && 0 <= b < order.len() ==> !#[trigger] before[a][b],
    ensures
        order_pass(order, before, i, j) == order,
    decreases order.len() - j,
{
    if j >= order.len() || j < 0 || i < 0 || i >= order.len() {
    } else {
        assert(!before[order[i]][order[j]]);
        lemma_pass_without_moves(order, before, i, j + 1);
    }
}

proof fn lemma_passes_without_moves(order: Seq<int>, before: Seq<Seq<bool>>, i: int)
    requires
        within(order, order.len() as int),
        forall|a: int, b: int| 0 <= a < order.len() && 0 <= b < order.len() ==> !#[trigger] before[a][b],
    ensures
        order_passes(order, before, i) == order,
    decreases order.len() - i,
{
    if i < 0 || i + 1 >= order.len() {
    } else {
        lemma_pass_without_moves(order, before, i, i + 1);
        lemma_passes_without_moves(order, before, i + 1);
    }
}

/// Where no object must move behind another, the objects are drawn in the order they were added.
pub proof fn lemma_draw_order_without_moves(n: nat, before: Seq<Seq<bool>>)
    requires
        forall|a: int, b: int| 0 <= a < n && 0 <= b < n ==> !#[trigger] before[a][b],
    ensures
        forall|k: int| 0 <= k < n ==> #[trigger] draw_order(n, before)[k] == k,
{
    assert(within(identity_order(n), n as int));
    lemma_passes_without_moves(identity_order(n), before, 0);
}

/// Sorts objects of one leaf for drawing. It has a fixed capacity and is reused between leafs.
pub struct LeafObjectsSorter<B> {
    objects: Vec<BBoxForDrawOrdering<B>>,
}

impl<B> LeafObjectsSorter<B> {
    /// A sorter never holds more than its capacity.
    #[verifier::type_invariant]
    spec fn within_capacity(self) -> bool {
        self.objects@.len() <= MAX_OBJECTS
    }
}

impl<B: Copy> LeafObjectsSorter<B> {
    /// The objects added since the last clearing, in their current order.
    pub closed spec fn objects_view(self) -> Seq<BBoxForDrawOrdering<B>> {
        self.objects@
    }

    pub fn new() -> (r: LeafObjectsSorter<B>)
        ensures
            r.objects_view().len() == 0,
            r.objects_view().len() <= MAX_OBJECTS,
    {
        LeafObjectsSorter { objects: Vec::with_capacity(MAX_OBJECTS) }
    }

    /// Adds an object; when the sorter is full the object is dropped.
    pub fn add_object(&mut self, object: BBoxForDrawOrdering<B>)
        ensures
            final(self).objects_view() == if old(self).objects_view().len() >= MAX_OBJECTS {
                old(self).objects_view()
            } else {
                old(self).objects_view().push(object)
            },
            final(self).objects_view().len() <= MAX_OBJECTS,
    {
        proof {
            use_type_invariant(&*self);
        }
        if self.objects.len() >= MAX_OBJECTS {
            return;
        }
        let mut objects = Vec::new();
        std::mem::swap(&mut objects, &mut self.objects);
        objects.push(object);
        self.objects = objects;
    }

    pub fn clear(&mut self)
        ensures
            final(self).objects_view().len() == 0,
            final(self).objects_view().len() <= MAX_OBJECTS,
    {
        let mut objects = Vec::new();
        std::mem::swap(&mut objects, &mut self.objects);
        objects.clear();
        self.objects = objects;
    }

    /// Orders the objects for drawing. `before[a][b]` tells, for the objects at
    /// positions `a` and `b` of `get_objects`, whether `a` must move behind `b`.
    pub fn sort_objects(&mut self, before: &Vec<Vec<bool>>)
        requires
            before@.len() == old(self).objects_view().len(),
            forall|a: int| 0 <= a < before@.len() ==> (#[trigger] before@[a])@.len() == before@.len(),
        ensures
            final(self).objects_view().len() == old(self).objects_view().len(),
            forall|k: int|
                0 <= k < old(self).objects_view().len() ==> #[trigger] final(self).objects_view()[k] == old(
                    self,
                ).objects_view()[draw_order(old(self).objects_view().len(), table_view(before@))[k]],
            final(self).objects_view().len() <= MAX_OBJECTS,
    {
        proof {
            use_type_invariant(&*self);
        }
        let n = self.objects.len();
        let order = order_bboxes(n, before);
        proof {
            lemma_draw_order_is_permutation(n as nat, table_view(before@));
        }
        let mut sorted: Vec<BBoxForDrawOrdering<B>> = Vec::with_capacity(n);
        let mut k: usize = 0;
        while k < n
            invariant
                n == self.objects@.len(),
                order@.len() == n,
                forall|t: int| 0 <= t < n ==> (#[trigger] order@[t]) < n,
                k <= n,
                sorted@.len() == k,
                forall|t: int| 0 <= t < k ==> #[trigger] sorted@[t] == self.objects@[order@[t] as int],
            decreases n - k,
        {
            sorted.push(self.objects[order[k]]);
            k = k + 1;
        }
        self.objects = sorted;
    }

    /// The objects in their current order.
    pub fn get_objects(&self) -> (r: &[BBoxForDrawOrdering<B>])
        ensures
            r@ == self.objects_view(),
            r@.len() <= MAX_OBJECTS,
    {
        proof {
            use_type_invariant(self);
        }
        self.objects.as_slice()
    }
}

/// Computes the draw order of `n` objects by exchange sorting: every position
/// is compared with every later one, and the two change places when the table
/// says so. The table cannot be a proper ordering (boxes may overlap), so no
/// library sort is used.
pub fn order_bboxes(n: usize, before: &Vec<Vec<bool>>) -> (r: Vec<usize>)
    requires
        before@.len() == n,
        forall|a: int| 0 <= a < n ==> (#[trigger] before@[a])@.len() == n,
    ensures
        r@.len() == n,
        forall|k: int| 0 <= k < n ==> (#[trigger] r@[k]) as int == draw_order(n as nat, table_view(before@))[k],
{
    let ghost table = table_view(before@);
    let mut order: Vec<usize> = Vec::with_capacity(n);
    let mut k: usize = 0;
    while k < n
        invariant
            k <= n,
            order@.len() == k,
            forall|t: int| 0 <= t < k ==> #[trigger] order@[t] == t,
        decreases n - k,
    {
        order.push(k);
        k = k + 1;
    }
    assert(as_ints(order@) =~= identity_order(n as nat));
    if n <= 1 {
        return order;
    }
    let mut i: usize = 0;
    while i < n - 1
        invariant
            n >= 2,
            i <= n - 1,
            order@.len() == n,
            before@.len() == n,
            forall|a: int| 0 <= a < n ==> (#[trigger] before@[a])@.len() == n,
            table == table_view(before@),
            forall|t: int| 0 <= t < n ==> (#[trigger] order@[t]) < n,
            order_passes(as_ints(order@), table, i as int) == draw_order(n as nat, table),
        decreases n - 1 - i,
    {
        let mut j: usize = i + 1;
        let ghost start = as_ints(order@);
        while j < n
            invariant
                n >= 2,
                i < n - 1,
                i < j <= n,
                order@.len() == n,
                before@.len() == n,
                forall|a: int| 0 <= a < n ==> (#[trigger] before@[a])@.len() == n,
                table == table_view(before@),
                forall|t: int| 0 <= t < n ==> (#[trigger] order@[t]) < n,
                order_pass(as_ints(order@), table, i as int, j as int) == order_pass(start, table, i as int, i + 1),
            decreases n - j,
        {
            let a = order[i];
            let b = order[j];
            let ghost cur = as_ints(order@);
            assert(table[a as int][b as int] == before@[a as int]@[b as int]);
            if before[a][b] {
                order.set(i, b);
                order.set(j, a);
                assert(as_ints(order@) =~= swapped(cur, i as int, j as int));
            }
            j = j + 1;
        }
        proof {
            assert(order_pass(as_ints(order@), table, i as int, n as int) == as_ints(order@));
        }
        i = i + 1;
    }
    proof {
        assert(order_passes(as_ints(order@), table, (n - 1) as int) == as_ints(order@));
    }
    order
}

} // verus!
