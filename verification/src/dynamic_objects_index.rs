use vstd::prelude::*;

verus! {

/// Identifies a dynamic object (model, decal, light and so on) of the frame.
pub type DynamicObjectId = u32;

/// Where dynamic objects are in the map: for each map leaf the objects inside it, and for each
/// object the leafs it is inside. Every placement is recorded on both sides.
pub struct DynamicObjectsIndex {
    leafs_info: Vec<Vec<DynamicObjectId>>,
    objects_info: Vec<Vec<u32>>,
}

/// How often object `o` is recorded in leaf `l`, seen from the leaf and from the object, agree.
pub open spec fn placements_agree(leafs: Seq<Seq<u32>>, objects: Seq<Seq<u32>>) -> bool {
    forall|l: int, o: int|
        0 <= l < leafs.len() && 0 <= o < objects.len() ==> #[trigger] leafs[l].to_multiset().count(o as u32)
            == #[trigger] objects[o].to_multiset().count(l as u32)
}

/// Every recorded object and leaf exists.
pub open spec fn placements_in_range(leafs: Seq<Seq<u32>>, objects: Seq<Seq<u32>>) -> bool {
    &&& forall|l: int, k: int| 0 <= l < leafs.len() && 0 <= k < leafs[l].len() ==> (#[trigger] leafs[l][k]) < objects.len()
    &&& forall|o: int, k: int| 0 <= o < objects.len() && 0 <= k < objects[o].len() ==> (#[trigger] objects[o][k]) < leafs.len()
}

pub open spec fn vec_views(v: Seq<Vec<u32>>) -> Seq<Seq<u32>> {
    v.map_values(|x: Vec<u32>| x@)
}

impl DynamicObjectsIndex {
    /// Objects of each leaf, in placement order.
    pub closed spec fn leafs_view(&self) -> Seq<Seq<u32>> {
        vec_views(self.leafs_info@)
    }

    /// Leafs of each object, in placement order.
    pub closed spec fn objects_view(&self) -> Seq<Seq<u32>> {
        vec_views(self.objects_info@)
    }

    /// Placements agree from both sides and name existing leafs and objects.
    pub open spec fn wf(&self) -> bool {
        &&& self.leafs_view().len() <= 0x1_0000_0000
        &&& self.objects_view().len() <= 0x1_0000_0000
        &&& placements_agree(self.leafs_view(), self.objects_view())
        &&& placements_in_range(self.leafs_view(), self.objects_view())
    }

    /// An index of a map with `num_leafs` leafs, with no objects.
    pub fn new(num_leafs: usize) -> (r: Self)
        requires
            num_leafs <= 0x1_0000_0000,
        ensures
            r.wf(),
            r.leafs_view().len() == num_leafs,
            forall|l: int| 0 <= l < num_leafs ==> (#[trigger] r.leafs_view()[l]).len() == 0,
            r.objects_view().len() == 0,
    {
        let mut leafs_info: Vec<Vec<DynamicObjectId>> = Vec::new();
        let mut i: usize = 0;
        while i < num_leafs
            invariant
                i <= num_leafs,
                leafs_info@.len() == i,
                forall|l: int| 0 <= l < i ==> (#[trigger] leafs_info@[l])@.len() == 0,
            decreases num_leafs - i,
        {
            leafs_info.push(Vec::new());
            i = i + 1;
        }
        DynamicObjectsIndex { leafs_info, objects_info: Vec::new() }
    }

    /// Objects inside the leaf.
    pub fn get_leaf_objects(&self, leaf_index: u32) -> (r: &Vec<DynamicObjectId>)
        requires
            leaf_index < self.leafs_view().len(),
        ensures
            r@ == self.leafs_view()[leaf_index as int],
    {
        &self.leafs_info[leaf_index as usize]
    }

    /// Leafs the object is inside.
    pub fn get_object_leafs(&self, object_index: usize) -> (r: &Vec<u32>)
        requires
            object_index < self.objects_view().len(),
        ensures
            r@ == self.objects_view()[object_index as int],
    {
        &self.objects_info[object_index]
    }

    /// Forgets every placement; the object slots stay, empty.
    pub fn clear(&mut self)
        requires
            old(self).wf(),
        ensures
            final(self).wf(),
            final(self).leafs_view().len() == old(self).leafs_view().len(),
            final(self).objects_view().len() == old(self).objects_view().len(),
            forall|l: int| 0 <= l < final(self).leafs_view().len() ==> (#[trigger] final(self).leafs_view()[l]).len() == 0,
            forall|o: int|
                0 <= o < final(self).objects_view().len() ==> (#[trigger] final(self).objects_view()[o]).len() == 0,
    {
        let nl = self.leafs_info.len();
        let mut i: usize = 0;
        while i < nl
            invariant
                nl == self.leafs_info@.len(),
                i <= nl,
                self.objects_info == old(self).objects_info,
                forall|l: int| 0 <= l < i ==> (#[trigger] self.leafs_info@[l])@.len() == 0,
            decreases nl - i,
        {
            self.leafs_info.set(i, Vec::new());
            i = i + 1;
        }
        let no = self.objects_info.len();
        let mut j: usize = 0;
        while j < no
            invariant
                no == self.objects_info@.len(),
                nl == self.leafs_info@.len(),
                j <= no,
                forall|l: int| 0 <= l < nl ==> (#[trigger] self.leafs_info@[l])@.len() == 0,
                forall|o: int| 0 <= o < j ==> (#[trigger] self.objects_info@[o])@.len() == 0,
            decreases no - j,
        {
            self.objects_info.set(j, Vec::new());
            j = j + 1;
        }
        proof {
            assert forall|l: int, o: int|
                0 <= l < self.leafs_view().len() && 0 <= o < self.objects_view().len() implies #[trigger] self.leafs_view()[l].to_multiset().count(
                o as u32,
            ) == #[trigger] self.objects_view()[o].to_multiset().count(l as u32) by {
                assert(self.leafs_view()[l] =~= Seq::<u32>::empty());
                assert(self.objects_view()[o] =~= Seq::<u32>::empty());
                vstd::seq_lib::to_multiset_contains(self.leafs_view()[l], o as u32);
                vstd::seq_lib::to_multiset_contains(self.objects_view()[o], l as u32);
            }
        }
    }

    /// Makes room for at least `num_objects` objects; new objects are in no leaf.
    pub fn allocate_objects(&mut self, num_objects: usize)
        requires
            old(self).wf(),
            num_objects <= 0x1_0000_0000,
        ensures
            final(self).wf(),
            final(self).leafs_view() == old(self).leafs_view(),
            final(self).objects_view().len() == if old(self).objects_view().len() < num_objects {
                num_objects as nat
            } else {
                old(self).objects_view().len()
            },
            forall|o: int| 0 <= o < old(self).objects_view().len() ==> #[trigger] final(self).objects_view()[o] == old(self).objects_view()[o],
            forall|o: int|
                old(self).objects_view().len() <= o < final(self).objects_view().len() ==> (#[trigger] final(self).objects_view()[o]).len() == 0,
    {
        let ghost old_objects = self.objects_view();
        while self.objects_info.len() < num_objects
            invariant
                num_objects <= 0x1_0000_0000,
                self.wf(),
                self.leafs_view() == old(self).leafs_view(),
                old_objects == old(self).objects_view(),
                self.objects_view().len() >= old_objects.len(),
                self.objects_view().len() <= if old_objects.len() < num_objects {
                    num_objects as nat
                } else {
                    old_objects.len()
                },
                forall|o: int| 0 <= o < old_objects.len() ==> #[trigger] self.objects_view()[o] == old_objects[o],
                forall|o: int| old_objects.len() <= o < self.objects_view().len() ==> (#[trigger] self.objects_view()[o]).len() == 0,
            decreases num_objects - self.objects_info@.len(),
        {
            let ghost before = self.objects_view();
            let ghost leafs = self.leafs_view();
            assert(placements_agree(leafs, before));
            assert(placements_in_range(leafs, before));
            self.objects_info.push(Vec::new());
            proof {
                assert(self.objects_view() =~= before.push(Seq::empty()));
                let o_new = before.len() as int;
                assert forall|l: int, o: int|
                    0 <= l < self.leafs_view().len() && 0 <= o < self.objects_view().len() implies #[trigger] self.leafs_view()[l].to_multiset().count(
                    o as u32,
                ) == #[trigger] self.objects_view()[o].to_multiset().count(l as u32) by {
                    assert(self.leafs_view() == leafs);
                    if o < o_new {
                        assert(self.objects_view()[o] == before[o]);
                        assert(leafs[l].to_multiset().count(o as u32) == before[o].to_multiset().count(l as u32));
                    }
                    if o == o_new {
                        assert(self.objects_view()[o] =~= Seq::<u32>::empty());
                        vstd::seq_lib::to_multiset_contains(self.objects_view()[o], l as u32);
                        if self.leafs_view()[l].to_multiset().count(o as u32) > 0 {
                            vstd::seq_lib::to_multiset_contains(self.leafs_view()[l], o as u32);
                            let k = choose|k: int| 0 <= k < self.leafs_view()[l].len() && self.leafs_view()[l][k] == o as u32;
                            assert(self.leafs_view()[l][k] < before.len());
                            assert(o < 0x1_0000_0000);
                            assert((o as u32) as int == o);
                        }
                        assert(self.leafs_view()[l].to_multiset().count(o as u32) == 0);
                        assert(self.objects_view()[o].to_multiset().count(l as u32) == 0);
                    }
                }
                assert forall|o: int, k: int|
                    0 <= o < self.objects_view().len() && 0 <= k < self.objects_view()[o].len() implies (
                #[trigger] self.objects_view()[o][k]) < self.leafs_view().len() by {
                    assert(self.objects_view()[o] == before[o]);
                }
            }
        }
    }

    /// Records that the object is inside the leaf, on both sides.
    pub fn place_object_in_leaf(&mut self, id: DynamicObjectId, leaf_index: u32)
        requires
            old(self).wf(),
            id < old(self).objects_view().len(),
            leaf_index < old(self).leafs_view().len(),
        ensures
            final(self).wf(),
            final(self).leafs_view() == old(self).leafs_view().update(
                leaf_index as int,
                old(self).leafs_view()[leaf_index as int].push(id),
            ),
            final(self).objects_view() == old(self).objects_view().update(
                id as int,
                old(self).objects_view()[id as int].push(leaf_index),
            ),
    {
        let ghost old_leafs = self.leafs_view();
        let ghost old_objects = self.objects_view();
        self.leafs_info[leaf_index as usize].push(id);
        self.objects_info[id as usize].push(leaf_index);
        proof {
            let new_leafs = old_leafs.update(leaf_index as int, old_leafs[leaf_index as int].push(id));
            let new_objects = old_objects.update(id as int, old_objects[id as int].push(leaf_index));
            assert(self.leafs_view() =~= new_leafs);
            assert(self.objects_view() =~= new_objects);
            assert forall|l: int, o: int|
                0 <= l < new_leafs.len() && 0 <= o < new_objects.len() implies #[trigger] new_leafs[l].to_multiset().count(
                o as u32,
            ) == #[trigger] new_objects[o].to_multiset().count(l as u32) by {
                broadcast use vstd::multiset::group_multiset_axioms;
                if l == leaf_index {
                    vstd::seq_lib::to_multiset_build(old_leafs[l], id);
                }
                if o == id {
                    vstd::seq_lib::to_multiset_build(old_objects[o], leaf_index);
                }
                assert(old_leafs[l].to_multiset().count(o as u32) == old_objects[o].to_multiset().count(l as u32));
            }
            assert forall|l: int, k: int| 0 <= l < new_leafs.len() && 0 <= k < new_leafs[l].len() implies (
            #[trigger] new_leafs[l][k]) < new_objects.len() by {
                if l == leaf_index && k == old_leafs[l].len() {
                } else {
                    assert(new_leafs[l][k] == old_leafs[l][k]);
                }
            }
            assert forall|o: int, k: int| 0 <= o < new_objects.len() && 0 <= k < new_objects[o].len() implies (
            #[trigger] new_objects[o][k]) < new_leafs.len() by {
                if o == id && k == old_objects[o].len() {
                } else {
                    assert(new_objects[o][k] == old_objects[o][k]);
                }
            }
        }
    }
}

/// An object is inside a leaf exactly when the leaf is among the object's leafs: what one can ask
/// from either side agrees.
pub proof fn lemma_leaf_and_object_views_agree(index: DynamicObjectsIndex, l: int, o: int)
    requires
        index.wf(),
        0 <= l < index.leafs_view().len(),
        0 <= o < index.objects_view().len(),
    ensures
        index.leafs_view()[l].contains(o as u32) <==> index.objects_view()[o].contains(l as u32),
{
    let lv = index.leafs_view()[l];
    let ov = index.objects_view()[o];
    assert(lv.to_multiset().count(o as u32) == ov.to_multiset().count(l as u32));
    vstd::seq_lib::to_multiset_contains(lv, o as u32);
    vstd::seq_lib::to_multiset_contains(ov, l as u32);
    if lv.to_multiset().count(o as u32) > 0 {
        assert(lv.to_multiset().contains(o as u32));
    }
    if ov.to_multiset().count(l as u32) > 0 {
        assert(ov.to_multiset().contains(l as u32));
    }
    broadcast use vstd::seq_lib::group_to_multiset_ensures;
}

} // verus!
