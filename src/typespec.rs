//! The type registry: non-core type ids and how many relation kinds may
//! join a core node to a node of each type.
use vstd::prelude::*;
use crate::ids::NodeTypeId;

verus! {

/// A misconfigured schema.
#[derive(Clone, Copy, Debug, PartialEq, Eq, Structural)]
pub enum SchemaError {
    /// A schema row that is not a (core type, relation, target type) triple.
    MalformedRow,
    /// A type name that the schema does not declare as a target type.
    UnknownType,
}

/// A registered non-core type.
#[derive(Clone, Copy, Debug, PartialEq, Eq, Structural)]
pub struct TypeEntry {
    pub id: NodeTypeId,
    pub max_edge_count: usize,
}

impl TypeEntry {
    pub fn value(&self) -> (r: usize)
        ensures
            r == self.id.id,
    {
        self.id.id
    }

    /// The number of distinct relation kinds that may join a core node to a
    /// node of this type.
    pub fn max_edge_count_with_core_node(&self) -> (r: Option<usize>)
        ensures
            r == Some(self.max_edge_count),
    {
        Some(self.max_edge_count)
    }
}

/// Non-core types, the `i`-th named `names[i]`, with entry `entries[i]`.
#[derive(Clone, Debug)]
pub struct TypeRegistry {
    pub names: Vec<String>,
    pub entries: Vec<TypeEntry>,
}

/// `row` declares that `rel` may join a node of type `core` to one of type `target`.
pub open spec fn is_triple(row: Seq<String>, core: Seq<char>, rel: Seq<char>, target: Seq<char>) -> bool {
    row.len() == 3 && row[0]@ == core && row[1]@ == rel && row[2]@ == target
}

/// The relation kinds that the schema declares from `core` to `target`.
pub open spec fn relations_for(ts: Seq<Vec<String>>, core: Seq<char>, target: Seq<char>) -> Set<Seq<char>> {
    Set::new(|rel: Seq<char>| exists|i: int| 0 <= i < ts.len() && is_triple(ts[i]@, core, rel, target))
}

pub open spec fn all_triples(ts: Seq<Vec<String>>) -> bool {
    forall|i: int| 0 <= i < ts.len() ==> (#[trigger] ts[i])@.len() == 3
}

pub open spec fn views(s: Seq<String>) -> Seq<Seq<char>> {
    s.map_values(|x: String| x@)
}

impl TypeRegistry {
    /// Entry `i` has id `i + 1`; id 0 stands for the core type.
    pub open spec fn wf(&self) -> bool {
        &&& self.names.len() == self.entries.len()
        &&& forall|i: int| 0 <= i < self.entries.len() ==> (#[trigger] self.entries[i]).id.id == i + 1
    }

    /// Looks a type up by name.
    pub fn require(&self, name: &str) -> (r: Result<TypeEntry, SchemaError>)
        requires
            self.wf(),
        ensures
            match r {
                Ok(e) => exists|i: int| 0 <= i < self.names.len() && self.names[i]@ == name@ && e == self.entries[i],
                Err(err) => err == SchemaError::UnknownType && forall|i: int| 0 <= i < self.names.len() ==> self.names[i]@ != name@,
            },
    {
        let mut i: usize = 0;
        while i < self.names.len()
            invariant
                i <= self.names.len(),
                self.wf(),
                forall|j: int| 0 <= j < i ==> self.names[j]@ != name@,
            decreases self.names.len() - i,
        {
            if same_text(self.names[i].as_str(), name) {
                return Ok(self.entries[i]);
            }
            i = i + 1;
        }
        Err(SchemaError::UnknownType)
    }

    /// The name of the type with id `id`, if there is one.
    pub fn name_of(&self, id: &NodeTypeId) -> (r: Option<String>)
        requires
            self.wf(),
        ensures
            match r {
                Some(s) => 1 <= id.id <= self.names.len() && s@ == self.names[id.id - 1]@,
                None => id.id == 0 || id.id > self.names.len(),
            },
    {
        if id.id == 0 || id.id > self.names.len() {
            None
        } else {
            Some(self.names[id.id - 1].clone())
        }
    }
}

/// Whether two strings hold the same characters.
pub fn same_text(a: &str, b: &str) -> (r: bool)
    ensures
        r == (a@ == b@),
{
    let n = a.unicode_len();
    if n != b.unicode_len() {
        return false;
    }
    let mut i: usize = 0;
    while i < n
        invariant
            n == a@.len() == b@.len(),
            i <= n,
            forall|j: int| 0 <= j < i ==> a@[j] == b@[j],
        decreases n - i,
    {
        if a.get_char(i) != b.get_char(i) {
            return false;
        }
        i = i + 1;
    }
    assert(a@ =~= b@);
    true
}

/// The number of distinct relation kinds that `ts` declares from `core` to `target`.
pub fn count_relations(ts: &Vec<Vec<String>>, core: &String, target: &String) -> (r: usize)
    ensures
        r == relations_for(ts@, core@, target@).len(),
        relations_for(ts@, core@, target@).finite(),
{
    let mut seen: Vec<String> = Vec::new();
    let mut i: usize = 0;
    while i < ts.len()
        invariant
            i <= ts.len(),
            views(seen@).no_duplicates(),
            views(seen@).to_set() == relations_for(ts@.subrange(0, i as int), core@, target@),
        decreases ts.len() - i,
    {
        let ghost before = ts@.subrange(0, i as int);
        let ghost after = ts@.subrange(0, i as int + 1);
        let ghost seen_before = seen@;
        let row = &ts[i];
        let mut added = false;
        if row.len() == 3 && row[0] == *core && row[2] == *target {
            let mut j: usize = 0;
            let mut found = false;
            while j < seen.len()
                invariant
                    j <= seen.len(),
                    row.len() == 3,
                    seen@ == seen_before,
                    !found ==> forall|m: int| 0 <= m < j ==> seen@[m]@ != row@[1]@,
                    found ==> views(seen@).contains(row@[1]@),
                decreases seen.len() - j,
            {
                if seen[j] == row[1] {
                    found = true;
                    assert(views(seen@)[j as int] == row@[1]@);
                }
                j = j + 1;
            }
            if !found {
                let rel = row[1].clone();
                seen.push(rel);
                added = true;
                assert(views(seen@) =~= views(seen_before).push(row@[1]@));
                assert(!views(seen_before).contains(row@[1]@));
            }
        }
        assert forall|rel: Seq<char>| relations_for(after, core@, target@).contains(rel) <==> views(seen@).to_set().contains(rel) by {
            if relations_for(after, core@, target@).contains(rel) {
                let m = choose|m: int| 0 <= m < after.len() && is_triple(after[m]@, core@, rel, target@);
                if m < i {
                    assert(before[m] == after[m]);
                    assert(relations_for(before, core@, target@).contains(rel));
                    assert(views(seen_before).to_set().contains(rel));
                    let q = choose|q: int| 0 <= q < views(seen_before).len() && views(seen_before)[q] == rel;
                    assert(views(seen@)[q] == rel);
                } else if added {
                    assert(views(seen@)[views(seen@).len() - 1] == rel);
                }
            }
            if views(seen@).to_set().contains(rel) {
                let q = choose|q: int| 0 <= q < views(seen@).len() && views(seen@)[q] == rel;
                if q < seen_before.len() {
                    assert(views(seen_before)[q] == rel);
                    assert(views(seen_before).to_set().contains(rel));
                    let m = choose|m: int| 0 <= m < before.len() && is_triple(before[m]@, core@, rel, target@);
                    assert(after[m] == before[m]);
                } else {
                    assert(is_triple(after[i as int]@, core@, rel, target@));
                }
            }
        }
        assert(relations_for(after, core@, target@) =~= views(seen@).to_set());
        i = i + 1;
    }
    assert(ts@.subrange(0, i as int) =~= ts@);
    proof {
        views(seen@).unique_seq_to_set();
    }
    seen.len()
}

/// Builds the registry: the `i`-th of `target_types` gets id `i + 1`, and as
/// its bound the number of distinct relation kinds that `ts` declares from
/// `core_type` to it. Fails when a row of `ts` is not a triple.
pub fn process_typespec(ts: Vec<Vec<String>>, core_type: &String, target_types: Vec<String>) -> (r: Result<TypeRegistry, SchemaError>)
    ensures
        match r {
            Ok(reg) => {
                &&& all_triples(ts@)
                &&& reg.wf()
                &&& views(reg.names@) == views(target_types@)
                &&& forall|i: int| 0 <= i < reg.entries.len() ==> (#[trigger] reg.entries[i]).max_edge_count
                    == relations_for(ts@, core_type@, target_types[i]@).len()
            },
            Err(e) => e == SchemaError::MalformedRow && !all_triples(ts@),
        },
{
    let mut i: usize = 0;
    while i < ts.len()
        invariant
            i <= ts.len(),
            forall|j: int| 0 <= j < i ==> (#[trigger] ts[j])@.len() == 3,
        decreases ts.len() - i,
    {
        if ts[i].len() != 3 {
            return Err(SchemaError::MalformedRow);
        }
        i = i + 1;
    }
    let mut names: Vec<String> = Vec::new();
    let mut entries: Vec<TypeEntry> = Vec::new();
    let mut t: usize = 0;
    while t < target_types.len()
        invariant
            t <= target_types.len(),
            names.len() == t,
            entries.len() == t,
            views(names@) == views(target_types@.subrange(0, t as int)),
            forall|j: int| 0 <= j < t ==> (#[trigger] entries[j]).id.id == j + 1,
            forall|j: int| 0 <= j < t ==> (#[trigger] entries[j]).max_edge_count
                == relations_for(ts@, core_type@, target_types[j]@).len(),
        decreases target_types.len() - t,
    {
        let count = count_relations(&ts, core_type, &target_types[t]);
        let ghost names_before = names@;
        names.push(target_types[t].clone());
        entries.push(TypeEntry { id: NodeTypeId { id: t + 1 }, max_edge_count: count });
        assert(views(names@) =~= views(target_types@.subrange(0, t as int + 1))) by {
            assert(views(names_before) == views(target_types@.subrange(0, t as int)));
            assert forall|m: int| 0 <= m < t implies views(names@)[m] == views(target_types@.subrange(0, t as int + 1))[m] by {
                assert(views(names_before)[m] == views(target_types@.subrange(0, t as int))[m]);
            }
        }
        t = t + 1;
    }
    assert(target_types@.subrange(0, t as int) =~= target_types@);
    Ok(TypeRegistry { names, entries })
}

} // verus!
