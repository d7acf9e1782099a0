//! PLATO rooms as a sheaf: each room carries a local section (its metric
//! values and labels); restriction maps project sections, the global
//! section glues every room together, and the gluing check asks that all
//! sections have the same dimension.
//!
//! Metric values are binary64 bit patterns.

use vstd::prelude::*;
use vstd::string::*;
use crate::keyed::{entry_map, keys_distinct, set_entry};
use crate::text::{self, views, joined};

verus! {

/// The local data assigned to a room.
#[derive(Debug, Clone)]
pub struct RoomSection {
    /// Room identifier.
    pub room_id: String,
    /// Metric values stored in this room.
    pub metrics: Vec<u64>,
    /// Metadata labels, each key at most once.
    pub labels: Vec<(String, String)>,
}

/// Mathematical view of a section.
pub struct SectionView {
    pub room_id: Seq<char>,
    pub metrics: Seq<u64>,
    pub labels: Map<Seq<char>, Seq<char>>,
}

impl View for RoomSection {
    type V = SectionView;

    open spec fn view(&self) -> SectionView {
        SectionView { room_id: self.room_id@, metrics: self.metrics@, labels: entry_map(self.labels@) }
    }
}

/// The room sheaf: local sections keyed by room identifier.
#[derive(Debug, Clone)]
pub struct RoomSheaf {
    /// Local sections, at most one per room.
    pub sections: Vec<RoomSection>,
}

/// The room identifiers of the sections, in order.
pub open spec fn room_ids(sections: Seq<RoomSection>) -> Seq<Seq<char>> {
    sections.map_values(|s: RoomSection| s.room_id@)
}

/// The metric values of the sections, concatenated in order.
pub open spec fn all_metrics(sections: Seq<RoomSection>) -> Seq<u64>
    decreases sections.len(),
{
    if sections.len() == 0 {
        Seq::empty()
    } else {
        all_metrics(sections.drop_last()) + sections.last().metrics@
    }
}

/// The labels of the sections merged in order, a later section's label
/// for a key winning.
pub open spec fn all_labels(sections: Seq<RoomSection>) -> Map<Seq<char>, Seq<char>>
    decreases sections.len(),
{
    if sections.len() == 0 {
        Map::empty()
    } else {
        all_labels(sections.drop_last()).union_prefer_right(entry_map(sections.last().labels@))
    }
}

/// The global section of the sections: room identifiers joined by `+`,
/// the metric values concatenated, the labels merged.
pub open spec fn glued(sections: Seq<RoomSection>) -> SectionView {
    SectionView {
        room_id: joined(room_ids(sections), seq!['+']),
        metrics: all_metrics(sections),
        labels: all_labels(sections),
    }
}

/// Every section has the same number of metric values.
pub open spec fn uniform_dimension(sections: Seq<RoomSection>) -> bool {
    forall|i: int, j: int|
        0 <= i < sections.len() && 0 <= j < sections.len() ==> (#[trigger] sections[i]).metrics@.len()
            == (#[trigger] sections[j]).metrics@.len()
}

/// A copy of a label list.
fn copy_labels(labels: &Vec<(String, String)>) -> (r: Vec<(String, String)>)
    ensures
        r@ == labels@,
{
    let mut r: Vec<(String, String)> = Vec::new();
    let mut i: usize = 0;
    while i < labels.len()
        invariant
            i <= labels.len(),
            r@ == labels@.take(i as int),
        decreases labels.len() - i,
    {
        r.push((labels[i].0.clone(), labels[i].1.clone()));
        proof {
            assert(r@ =~= labels@.take(i + 1));
        }
        i = i + 1;
    }
    proof {
        assert(labels@.take(labels@.len() as int) =~= labels@);
    }
    r
}

/// A copy of a metric list.
fn copy_metrics(metrics: &Vec<u64>) -> (r: Vec<u64>)
    ensures
        r@ == metrics@,
{
    let mut r: Vec<u64> = Vec::new();
    let mut i: usize = 0;
    while i < metrics.len()
        invariant
            i <= metrics.len(),
            r@ == metrics@.take(i as int),
        decreases metrics.len() - i,
    {
        r.push(metrics[i]);
        proof {
            assert(r@ =~= metrics@.take(i + 1));
        }
        i = i + 1;
    }
    proof {
        assert(metrics@.take(metrics@.len() as int) =~= metrics@);
    }
    r
}

impl RoomSection {
    /// A copy of the section.
    pub fn duplicate(&self) -> (r: Self)
        ensures
            r.room_id == self.room_id,
            r.metrics@ == self.metrics@,
            r.labels@ == self.labels@,
    {
        RoomSection {
            room_id: self.room_id.clone(),
            metrics: copy_metrics(&self.metrics),
            labels: copy_labels(&self.labels),
        }
    }
}

impl RoomSheaf {
    /// An empty sheaf.
    pub fn new() -> (s: Self)
        ensures
            s.sections@.len() == 0,
    {
        RoomSheaf { sections: Vec::new() }
    }

    /// No two sections are for the same room.
    pub open spec fn rooms_distinct(&self) -> bool {
        forall|i: int, j: int|
            0 <= i < self.sections@.len() && 0 <= j < self.sections@.len() && i != j ==> (
            #[trigger] self.sections@[i]).room_id@ != (#[trigger] self.sections@[j]).room_id@
    }

    /// Position of the section of `room`, if any.
    fn find(&self, room: &String) -> (r: Option<usize>)
        ensures
            r is None ==> forall|j: int|
                0 <= j < self.sections@.len() ==> (#[trigger] self.sections@[j]).room_id@ != room@,
            r matches Some(i) ==> i < self.sections@.len() && self.sections@[i as int].room_id@
                == room@ && forall|j: int|
                0 <= j < i ==> (#[trigger] self.sections@[j]).room_id@ != room@,
    {
        let mut i: usize = 0;
        while i < self.sections.len()
            invariant
                i <= self.sections.len(),
                forall|j: int| 0 <= j < i ==> (#[trigger] self.sections@[j]).room_id@ != room@,
            decreases self.sections.len() - i,
        {
            if self.sections[i].room_id == *room {
                return Some(i);
            }
            i = i + 1;
        }
        None
    }

    /// Add a room section; it replaces the section of the same room, if
    /// any.
    pub fn add_section(&mut self, section: RoomSection)
        ensures
            (forall|i: int|
                0 <= i < old(self).sections@.len() ==> (#[trigger] old(self).sections@[i]).room_id@
                    != section.room_id@) ==> final(self).sections@ == old(self).sections@.push(section),
            forall|i: int|
                0 <= i < old(self).sections@.len() && (#[trigger] old(self).sections@[i]).room_id@
                    == section.room_id@ && (forall|j: int|
                    0 <= j < i ==> old(self).sections@[j].room_id@ != section.room_id@) ==> final(self).sections@ == old(self).sections@.update(i, section),
            old(self).rooms_distinct() ==> final(self).rooms_distinct(),
    {
        match self.find(&section.room_id) {
            Some(i) => {
                let ghost before = self.sections@;
                self.sections.set(i, section);
                proof {
                    assert forall|a: int, b: int|
                        0 <= a < self.sections@.len() && 0 <= b < self.sections@.len() && a != b
                            && old(self).rooms_distinct() implies (#[trigger] self.sections@[a]).room_id@
                        != (#[trigger] self.sections@[b]).room_id@ by {
                        if a != i {
                            assert(before[a] == self.sections@[a]);
                        }
                        if b != i {
                            assert(before[b] == self.sections@[b]);
                        }
                    }
                    assert forall|k: int|
                        0 <= k < before.len() && (#[trigger] before[k]).room_id@ == section.room_id@
                            && (forall|j: int| 0 <= j < k ==> before[j].room_id@ != section.room_id@) implies self.sections@
                        == before.update(k, section) by {
                        if k > i {
                            assert(before[i as int].room_id@ == section.room_id@);
                        }
                    }
                }
            },
            None => {
                let ghost before = self.sections@;
                self.sections.push(section);
                proof {
                    assert forall|a: int, b: int|
                        0 <= a < self.sections@.len() && 0 <= b < self.sections@.len() && a != b
                            && old(self).rooms_distinct() implies (#[trigger] self.sections@[a]).room_id@
                        != (#[trigger] self.sections@[b]).room_id@ by {
                        if a < before.len() {
                            assert(before[a] == self.sections@[a]);
                        }
                        if b < before.len() {
                            assert(before[b] == self.sections@[b]);
                        }
                    }
                }
            },
        }
    }

    /// Identity restriction: the section unchanged.
    pub fn identity_restriction(section: &RoomSection) -> (r: RoomSection)
        ensures
            r@ == section@,
    {
        section.duplicate()
    }

    /// Restrict from a room using the restriction map `map`: the map
    /// applied to the room's section, `None` when the room has no section.
    pub fn restrict<F: Fn(&RoomSection) -> RoomSection>(&self, from: &str, map: F) -> (r: Option<
        RoomSection,
    >)
        requires
            forall|s: &RoomSection| #[trigger] call_requires(map, (s,)),
        ensures
            r is None ==> forall|j: int|
                0 <= j < self.sections@.len() ==> (#[trigger] self.sections@[j]).room_id@ != from@,
            r matches Some(v) ==> exists|i: int|
                0 <= i < self.sections@.len() && (#[trigger] self.sections@[i]).room_id@ == from@
                    && call_ensures(map, (&self.sections@[i],), v) && forall|j: int|
                    0 <= j < i ==> self.sections@[j].room_id@ != from@,
    {
        let room = String::from_str(from);
        match self.find(&room) {
            Some(i) => {
                let v = map(&self.sections[i]);
                Some(v)
            },
            None => None,
        }
    }

    /// The global section: every room glued into one section, or `None`
    /// when there are no sections.
    pub fn global_section(&self) -> (r: Option<RoomSection>)
        ensures
            self.sections@.len() == 0 ==> r is None,
            self.sections@.len() > 0 ==> (r matches Some(g) && g@ == glued(self.sections@)),
    {
        if self.sections.len() == 0 {
            return None;
        }
        let mut combined: Vec<u64> = Vec::new();
        let mut labels: Vec<(String, String)> = Vec::new();
        let mut ids: Vec<String> = Vec::new();
        let mut i: usize = 0;
        while i < self.sections.len()
            invariant
                i <= self.sections.len(),
                combined@ == all_metrics(self.sections@.take(i as int)),
                keys_distinct(labels@),
                entry_map(labels@) == all_labels(self.sections@.take(i as int)),
                views(ids@) == room_ids(self.sections@.take(i as int)),
            decreases self.sections.len() - i,
        {
            let section = &self.sections[i];
            let ghost taken = self.sections@.take(i + 1);
            proof {
                assert(taken.drop_last() =~= self.sections@.take(i as int));
            }
            let mut j: usize = 0;
            let ghost start = combined@;
            while j < section.metrics.len()
                invariant
                    j <= section.metrics.len(),
                    combined@ == start + section.metrics@.take(j as int),
                decreases section.metrics.len() - j,
            {
                combined.push(section.metrics[j]);
                proof {
                    assert(combined@ =~= start + section.metrics@.take(j + 1));
                }
                j = j + 1;
            }
            proof {
                assert(section.metrics@.take(section.metrics@.len() as int) =~= section.metrics@);
            }
            let ghost start_labels = entry_map(labels@);
            let mut k: usize = 0;
            while k < section.labels.len()
                invariant
                    k <= section.labels.len(),
                    keys_distinct(labels@),
                    entry_map(labels@) == start_labels.union_prefer_right(
                        entry_map(section.labels@.take(k as int)),
                    ),
                decreases section.labels.len() - k,
            {
                let key = section.labels[k].0.clone();
                let value = section.labels[k].1.clone();
                set_entry(&mut labels, key, value);
                proof {
                    assert(section.labels@.take(k + 1).drop_last() =~= section.labels@.take(
                        k as int,
                    ));
                    assert(entry_map(labels@) =~= start_labels.union_prefer_right(
                        entry_map(section.labels@.take(k + 1)),
                    ));
                }
                k = k + 1;
            }
            proof {
                assert(section.labels@.take(section.labels@.len() as int) =~= section.labels@);
            }
            let ghost prev_ids = views(ids@);
            ids.push(section.room_id.clone());
            proof {
                assert(views(ids@) =~= prev_ids.push(section.room_id@));
                assert(room_ids(taken) =~= room_ids(taken.drop_last()).push(section.room_id@));
            }
            i = i + 1;
        }
        proof {
            assert(self.sections@.take(self.sections@.len() as int) =~= self.sections@);
        }
        let room_id = text::join(&ids, "+");
        proof {
            reveal_strlit("+");
            assert("+"@ =~= seq!['+']);
        }
        Some(RoomSection { room_id, metrics: combined, labels })
    }

    /// The gluing check: every section has the same number of metric
    /// values (true when there are no sections).
    pub fn check_gluing_axiom(&self) -> (r: bool)
        ensures
            r == uniform_dimension(self.sections@),
    {
        if self.sections.len() == 0 {
            return true;
        }
        let first = self.sections[0].metrics.len();
        let mut i: usize = 1;
        while i < self.sections.len()
            invariant
                1 <= i <= self.sections.len(),
                first == self.sections@[0].metrics@.len(),
                forall|k: int| 0 <= k < i ==> (#[trigger] self.sections@[k]).metrics@.len() == first,
            decreases self.sections.len() - i,
        {
            if self.sections[i].metrics.len() != first {
                proof {
                    assert(self.sections@[0].metrics@.len() != self.sections@[i as int].metrics@.len());
                }
                return false;
            }
            i = i + 1;
        }
        true
    }

    /// The stalk at a room: its section, if any.
    pub fn stalk(&self, room_id: &str) -> (r: Option<&RoomSection>)
        ensures
            r is None ==> forall|j: int|
                0 <= j < self.sections@.len() ==> (#[trigger] self.sections@[j]).room_id@ != room_id@,
            r matches Some(s) ==> exists|i: int|
                0 <= i < self.sections@.len() && (#[trigger] self.sections@[i]).room_id@ == room_id@
                    && *s == self.sections@[i] && forall|j: int|
                    0 <= j < i ==> self.sections@[j].room_id@ != room_id@,
    {
        let room = String::from_str(room_id);
        match self.find(&room) {
            Some(i) => Some(&self.sections[i]),
            None => None,
        }
    }

    /// Number of sections.
    pub fn len(&self) -> (n: usize)
        ensures
            n == self.sections@.len(),
    {
        self.sections.len()
    }

    /// Whether there are no sections.
    pub fn is_empty(&self) -> (r: bool)
        ensures
            r == (self.sections@.len() == 0),
    {
        self.sections.len() == 0
    }
}

impl Default for RoomSheaf {
    fn default() -> (s: Self)
        ensures
            s.sections@.len() == 0,
    {
        RoomSheaf::new()
    }
}

/// The gluing check holds exactly when every section has as many metric
/// values as the first; so it fails as soon as two sections differ in
/// dimension.
pub proof fn law_gluing_dimensions(sections: Seq<RoomSection>)
    ensures
        uniform_dimension(sections) <==> forall|i: int|
            0 <= i < sections.len() ==> (#[trigger] sections[i]).metrics@.len()
                == sections[0].metrics@.len(),
        forall|i: int, j: int|
            0 <= i < sections.len() && 0 <= j < sections.len() && (#[trigger] sections[i]).metrics@.len()
                != (#[trigger] sections[j]).metrics@.len() ==> !uniform_dimension(sections),
{
    if forall|i: int|
        0 <= i < sections.len() ==> (#[trigger] sections[i]).metrics@.len() == sections[0].metrics@.len() {
        assert forall|i: int, j: int|
            0 <= i < sections.len() && 0 <= j < sections.len() implies (#[trigger] sections[i]).metrics@.len()
            == (#[trigger] sections[j]).metrics@.len() by {
            assert(sections[i].metrics@.len() == sections[0].metrics@.len());
            assert(sections[j].metrics@.len() == sections[0].metrics@.len());
        }
    }
}

/// The metric vectors of the sections, in order.
pub open spec fn section_metrics(sections: Seq<RoomSection>) -> Seq<Seq<u64>> {
    sections.map_values(|s: RoomSection| s.metrics@)
}

/// The global section's metrics are those of every section, concatenated
/// in section order.
pub proof fn law_global_metrics(sections: Seq<RoomSection>)
    ensures
        all_metrics(sections) == section_metrics(sections).flatten(),
    decreases sections.len(),
{
    broadcast use Seq::lemma_flatten_push;

    if sections.len() > 0 {
        law_global_metrics(sections.drop_last());
        assert(section_metrics(sections) =~= section_metrics(sections.drop_last()).push(
            sections.last().metrics@,
        ));
    }
}

/// The global section carries every label of every section, and a label
/// takes its value from the last section that has it.
pub proof fn law_global_labels(sections: Seq<RoomSection>, k: Seq<char>)
    ensures
        all_labels(sections).dom().contains(k) <==> exists|i: int|
            0 <= i < sections.len() && entry_map((#[trigger] sections[i]).labels@).dom().contains(k),
        forall|i: int|
            0 <= i < sections.len() && entry_map((#[trigger] sections[i]).labels@).dom().contains(k)
                && (forall|j: int|
                i < j < sections.len() ==> !entry_map(sections[j].labels@).dom().contains(k))
                ==> all_labels(sections)[k] == entry_map(sections[i].labels@)[k],
    decreases sections.len(),
{
    if sections.len() > 0 {
        let front = sections.drop_last();
        law_global_labels(front, k);
        let last = sections[sections.len() - 1];
        assert(sections.last() == last);
        if exists|i: int| 0 <= i < sections.len() && entry_map((#[trigger] sections[i]).labels@).dom().contains(k) {
            let i = choose|i: int| 0 <= i < sections.len() && entry_map((#[trigger] sections[i]).labels@).dom().contains(k);
            if i < front.len() {
                assert(front[i] == sections[i]);
            }
        }
        if all_labels(front).dom().contains(k) {
            let i = choose|i: int| 0 <= i < front.len() && entry_map((#[trigger] front[i]).labels@).dom().contains(k);
            assert(front[i] == sections[i]);
        }
        assert forall|i: int|
            0 <= i < sections.len() && entry_map((#[trigger] sections[i]).labels@).dom().contains(k)
                && (forall|j: int|
                i < j < sections.len() ==> !entry_map(sections[j].labels@).dom().contains(k))
                implies all_labels(sections)[k] == entry_map(sections[i].labels@)[k] by {
            if i < front.len() {
                assert(front[i] == sections[i]);
                assert(!entry_map(sections[sections.len() - 1].labels@).dom().contains(k));
                assert forall|j: int| i < j < front.len() implies !entry_map(
                    (#[trigger] front[j]).labels@,
                ).dom().contains(k) by {
                    assert(front[j] == sections[j]);
                }
            }
        }
    }
}

} // verus!
