//! The data-component registry: each component's current wire id and, where
//! it existed then, its wire id under the older numbering.

use vstd::prelude::*;

use crate::version::{JavaMinecraftVersion, uses_legacy_ids};

verus! {

/// A data component, identified by its current wire id.
#[derive(Clone, Copy, Debug, PartialEq, Eq, Structural)]
pub struct DataComponent(pub u8);

impl DataComponent {
    /// The current wire id.
    pub fn to_id(self) -> (id: u8)
        ensures
            id == self.0,
    {
        self.0
    }
}

/// One row of the registry.
#[derive(Debug)]
pub struct ComponentEntry {
    /// Namespaced name, such as `minecraft:fireworks`.
    pub name: String,
    /// Current wire id.
    pub id: u8,
    /// Wire id under the older numbering, if the component existed then.
    pub legacy_id: Option<u8>,
}

/// The ids of a registry: per row, the current id and the older one.
pub type ComponentTable = Seq<(u8, Option<u8>)>;

/// The ids of a sequence of rows.
pub open spec fn table_of(entries: Seq<ComponentEntry>) -> ComponentTable {
    entries.map_values(|e: ComponentEntry| (e.id, e.legacy_id))
}

/// No two rows share a current id, and no two rows share an older id.
pub open spec fn table_unique(t: ComponentTable) -> bool {
    forall|i: int, j: int|
        #![trigger t[i], t[j]]
        0 <= i < t.len() && 0 <= j < t.len() && i != j ==> t[i].0 != t[j].0 && (t[i].1 is Some
            ==> t[i].1 != t[j].1)
}

/// Some row has current id `id`.
pub open spec fn has_id(t: ComponentTable, id: u8) -> bool {
    exists|i: int| 0 <= i < t.len() && #[trigger] t[i].0 == id
}

/// The older id of the component with current id `id`.
pub open spec fn legacy_of(t: ComponentTable, id: u8) -> Option<u8> {
    if has_id(t, id) {
        t[choose|i: int| 0 <= i < t.len() && #[trigger] t[i].0 == id].1
    } else {
        None
    }
}

/// Some row has older id `l`.
pub open spec fn has_legacy_id(t: ComponentTable, l: u8) -> bool {
    exists|i: int| 0 <= i < t.len() && #[trigger] t[i].1 == Some(l)
}

/// The current id of the component with older id `l`.
pub open spec fn from_legacy(t: ComponentTable, l: u8) -> Option<u8> {
    if has_legacy_id(t, l) {
        Some(t[choose|i: int| 0 <= i < t.len() && #[trigger] t[i].1 == Some(l)].0)
    } else {
        None
    }
}

/// The component that wire id `wire` names for a client on release `v`.
pub open spec fn lookup_wire_id(t: ComponentTable, v: JavaMinecraftVersion, wire: u8) -> Option<
    DataComponent,
> {
    if uses_legacy_ids(v) {
        match from_legacy(t, wire) {
            Some(id) => Some(DataComponent(id)),
            None => None,
        }
    } else if has_id(t, wire) {
        Some(DataComponent(wire))
    } else {
        None
    }
}

/// The wire id sent for component `c` to a client on release `v`: the older
/// id where the client numbers the older way and the component has one,
/// else the current id.
pub open spec fn wire_id(t: ComponentTable, c: DataComponent, v: JavaMinecraftVersion) -> u8 {
    if uses_legacy_ids(v) {
        match legacy_of(t, c.0) {
            Some(l) => l,
            None => c.0,
        }
    } else {
        c.0
    }
}

/// A component sent under its wire id is recognised again by a client of the
/// same release, unless that client numbers the older way and the component
/// has no older id.
pub proof fn lemma_wire_id_lookup(t: ComponentTable, c: DataComponent, v: JavaMinecraftVersion)
    requires
        table_unique(t),
        has_id(t, c.0),
        uses_legacy_ids(v) ==> legacy_of(t, c.0) is Some,
    ensures
        lookup_wire_id(t, v, wire_id(t, c, v)) == Some(c),
{
    if uses_legacy_ids(v) {
        let i = choose|i: int| 0 <= i < t.len() && #[trigger] t[i].0 == c.0;
        let l = t[i].1.unwrap();
        assert(t[i].1 == Some(l));
        assert(has_legacy_id(t, l));
        let j = choose|j: int| 0 <= j < t.len() && #[trigger] t[j].1 == Some(l);
        assert(i == j);
    }
}

/// In a registry without shared ids, the older id of a component leads back
/// to that component.
pub proof fn lemma_legacy_id_inverse(t: ComponentTable, id: u8)
    requires
        table_unique(t),
        legacy_of(t, id) is Some,
    ensures
        from_legacy(t, legacy_of(t, id).unwrap()) == Some(id),
{
    let i = choose|i: int| 0 <= i < t.len() && #[trigger] t[i].0 == id;
    let l = t[i].1.unwrap();
    assert(has_legacy_id(t, l));
    let j = choose|j: int| 0 <= j < t.len() && #[trigger] t[j].1 == Some(l);
    assert(i == j);
}

/// In a registry without shared ids, the component an older id names has a
/// current id in the registry, and its older id is that one.
pub proof fn lemma_from_legacy_inverse(t: ComponentTable, l: u8)
    requires
        table_unique(t),
        from_legacy(t, l) is Some,
    ensures
        has_id(t, from_legacy(t, l).unwrap()),
        legacy_of(t, from_legacy(t, l).unwrap()) == Some(l),
{
    let j = choose|j: int| 0 <= j < t.len() && #[trigger] t[j].1 == Some(l);
    let id = t[j].0;
    assert(has_id(t, id));
    let i = choose|i: int| 0 <= i < t.len() && #[trigger] t[i].0 == id;
    assert(i == j);
}

/// In a registry without shared ids, a component that a wire id names for a
/// release is in the registry, and is sent to that release under that same
/// wire id.
pub proof fn lemma_lookup_inverse(t: ComponentTable, v: JavaMinecraftVersion, w: u8)
    requires
        table_unique(t),
        lookup_wire_id(t, v, w) is Some,
    ensures
        has_id(t, lookup_wire_id(t, v, w).unwrap().0),
        wire_id(t, lookup_wire_id(t, v, w).unwrap(), v) == w,
{
    if uses_legacy_ids(v) {
        lemma_from_legacy_inverse(t, w);
    }
}

/// The data-component registry.
pub struct ComponentRegistry {
    entries: Vec<ComponentEntry>,
}

impl View for ComponentRegistry {
    type V = ComponentTable;

    closed spec fn view(&self) -> ComponentTable {
        table_of(self.entries@)
    }
}

impl ComponentRegistry {
    #[verifier::type_invariant]
    spec fn inv(self) -> bool {
        table_unique(table_of(self.entries@))
    }

    /// A registry of `entries`, or `None` where two rows share a current id or
    /// an older id.
    pub fn new(entries: Vec<ComponentEntry>) -> (r: Option<Self>)
        ensures
            r is Some <==> table_unique(table_of(entries@)),
            r matches Some(reg) ==> reg@ == table_of(entries@),
    {
        let n = entries.len();
        let ghost t = table_of(entries@);
        let mut i: usize = 0;
        while i < n
            invariant
                n == entries@.len(),
                t == table_of(entries@),
                t.len() == n,
                i <= n,
                forall|a: int, b: int|
                    #![trigger t[a], t[b]]
                    0 <= a < i && 0 <= b < n && a != b ==> t[a].0 != t[b].0 && (t[a].1 is Some
                        ==> t[a].1 != t[b].1),
            decreases n - i,
        {
            let mut j: usize = 0;
            while j < n
                invariant
                    n == entries@.len(),
                    t == table_of(entries@),
                    t.len() == n,
                    i < n,
                    j <= n,
                    forall|a: int, b: int|
                        #![trigger t[a], t[b]]
                        0 <= a < i && 0 <= b < n && a != b ==> t[a].0 != t[b].0 && (t[a].1 is Some
                            ==> t[a].1 != t[b].1),
                    forall|b: int|
                        #![trigger t[b]]
                        0 <= b < j && b != i ==> t[i as int].0 != t[b].0 && (t[i as int].1 is Some
                            ==> t[i as int].1 != t[b].1),
                decreases n - j,
            {
                if i != j {
                    let same_id = entries[i].id == entries[j].id;
                    let same_legacy = match (entries[i].legacy_id, entries[j].legacy_id) {
                        (Some(a), Some(b)) => a == b,
                        _ => false,
                    };
                    if same_id || same_legacy {
                        proof {
                            assert(t[i as int] == (entries@[i as int].id, entries@[i as int].legacy_id));
                            assert(t[j as int] == (entries@[j as int].id, entries@[j as int].legacy_id));
                            assert(!table_unique(t));
                        }
                        return None;
                    }
                }
                j = j + 1;
            }
            i = i + 1;
        }
        Some(ComponentRegistry { entries })
    }

    /// The rows of this registry; no two of them share a current id or an
    /// older id.
    pub fn entries(&self) -> (e: &Vec<ComponentEntry>)
        ensures
            table_of(e@) == self@,
            table_unique(self@),
    {
        proof {
            use_type_invariant(self);
        }
        &self.entries
    }

    /// The component with current id `id`, if there is one.
    pub fn try_from_id(&self, id: u8) -> (r: Option<DataComponent>)
        ensures
            r == (if has_id(self@, id) {
                Some(DataComponent(id))
            } else {
                None
            }),
    {
        let n = self.entries.len();
        let mut i: usize = 0;
        while i < n
            invariant
                n == self.entries@.len(),
                i <= n,
                forall|k: int| 0 <= k < i ==> #[trigger] self@[k].0 != id,
            decreases n - i,
        {
            if self.entries[i].id == id {
                assert(self@[i as int].0 == id);
                return Some(DataComponent(id));
            }
            i = i + 1;
        }
        None
    }

    /// The older id of component `c`, if it has one.
    pub fn to_id_legacy(&self, c: DataComponent) -> (r: Option<u8>)
        ensures
            r == legacy_of(self@, c.0),
    {
        proof {
            use_type_invariant(self);
        }
        let n = self.entries.len();
        let mut i: usize = 0;
        while i < n
            invariant
                n == self.entries@.len(),
                i <= n,
                table_unique(self@),
                forall|k: int| 0 <= k < i ==> #[trigger] self@[k].0 != c.0,
            decreases n - i,
        {
            if self.entries[i].id == c.0 {
                proof {
                    let t = self@;
                    assert(t[i as int].0 == c.0);
                    let j = choose|j: int| 0 <= j < t.len() && #[trigger] t[j].0 == c.0;
                    assert(i == j);
                }
                return self.entries[i].legacy_id;
            }
            i = i + 1;
        }
        None
    }

    /// The component whose older id is `l`, if there is one.
    pub fn try_from_id_legacy(&self, l: u8) -> (r: Option<DataComponent>)
        ensures
            r == (match from_legacy(self@, l) {
                Some(id) => Some(DataComponent(id)),
                None => None,
            }),
    {
        proof {
            use_type_invariant(self);
        }
        let n = self.entries.len();
        let mut i: usize = 0;
        while i < n
            invariant
                n == self.entries@.len(),
                i <= n,
                table_unique(self@),
                forall|k: int| 0 <= k < i ==> #[trigger] self@[k].1 != Some(l),
            decreases n - i,
        {
            let hit = match self.entries[i].legacy_id {
                Some(x) => x == l,
                None => false,
            };
            if hit {
                proof {
                    let t = self@;
                    assert(t[i as int].1 == Some(l));
                    let j = choose|j: int| 0 <= j < t.len() && #[trigger] t[j].1 == Some(l);
                    assert(i == j);
                }
                return Some(DataComponent(self.entries[i].id));
            }
            i = i + 1;
        }
        None
    }
}

} // verus!
