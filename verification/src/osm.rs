//! The objects of a map extract: nodes, ways and relations with their tags,
//! and the map that holds them by id.

use vstd::prelude::*;

verus! {

/// The id of an object together with its kind.
#[derive(Clone, Copy, Debug, PartialEq, Eq, Structural)]
pub enum OsmId {
    Node(i64),
    Way(i64),
    Relation(i64),
}

/// The tags of an object: keys with their values. A key that was inserted
/// again has the value that was given last.
#[derive(Debug)]
pub struct Tags {
    entries: Vec<(String, String)>,
}

/// The value that the entries give to `key`: that of the last entry with
/// this key.
pub open spec fn tag_value(entries: Seq<(Seq<char>, Seq<char>)>, key: Seq<char>) -> Option<Seq<char>>
    decreases entries.len(),
{
    if entries.len() == 0 {
        None
    } else if entries.last().0 == key {
        Some(entries.last().1)
    } else {
        tag_value(entries.drop_last(), key)
    }
}

impl View for Tags {
    type V = Seq<(Seq<char>, Seq<char>)>;

    /// The entries in the order in which they were inserted.
    closed spec fn view(&self) -> Seq<(Seq<char>, Seq<char>)> {
        self.entries@.map_values(|e: (String, String)| (e.0@, e.1@))
    }
}

impl Tags {
    /// No tags.
    pub fn new() -> (tags: Tags)
        ensures
            tags@ == Seq::<(Seq<char>, Seq<char>)>::empty(),
    {
        let tags = Tags { entries: Vec::new() };
        assert(tags@ =~= Seq::empty());
        tags
    }

    /// Gives `key` the value `value`.
    pub fn insert(&mut self, key: String, value: String)
        ensures
            final(self)@ == old(self)@.push((key@, value@)),
            tag_value(final(self)@, key@) == Some(value@),
    {
        self.entries.push((key, value));
        assert(self@ =~= old(self)@.push((key@, value@)));
    }

    /// The value of `key`, if it has one.
    pub fn get(&self, key: &str) -> (value: Option<&String>)
        ensures
            match value {
                Some(v) => tag_value(self@, key@) == Some(v@),
                None => tag_value(self@, key@).is_none(),
            },
    {
        let wanted = key.to_owned();
        let mut k: usize = self.entries.len();
        assert(self@.take(k as int) =~= self@);
        while k > 0
            invariant
                k <= self.entries@.len(),
                wanted@ == key@,
                tag_value(self@, key@) == tag_value(self@.take(k as int), key@),
            decreases k,
        {
            k = k - 1;
            proof {
                assert(self@.take(k as int + 1).drop_last() =~= self@.take(k as int));
                assert(self@.take(k as int + 1).last() == (
                    self.entries@[k as int].0@,
                    self.entries@[k as int].1@,
                ));
            }
            if self.entries[k].0 == wanted {
                return Some(&self.entries[k].1);
            }
        }
        None
    }

    /// Whether `key` has a value.
    pub fn contains_key(&self, key: &str) -> (held: bool)
        ensures
            held == tag_value(self@, key@).is_some(),
    {
        self.get(key).is_some()
    }

    /// Whether `key` has the value `value`.
    pub fn contains(&self, key: &str, value: &str) -> (held: bool)
        ensures
            held == (tag_value(self@, key@) == Some(value@)),
    {
        match self.get(key) {
            Some(found) => {
                let wanted = value.to_owned();
                *found == wanted
            },
            None => false,
        }
    }
}

/// A point of the map. Its position is held in units of 1e-7 degree.
#[derive(Debug)]
pub struct Node {
    pub id: i64,
    pub tags: Tags,
    pub decimicro_lat: i32,
    pub decimicro_lon: i32,
}

/// A polyline: the ids of its nodes, in order.
#[derive(Debug)]
pub struct Way {
    pub id: i64,
    pub tags: Tags,
    pub nodes: Vec<i64>,
}

/// A member of a relation, with the role it plays there.
#[derive(Debug)]
pub struct Ref {
    pub member: OsmId,
    pub role: String,
}

/// A collection of members, in order.
#[derive(Debug)]
pub struct Relation {
    pub id: i64,
    pub tags: Tags,
    pub refs: Vec<Ref>,
}

/// A node, a way or a relation.
#[derive(Debug)]
pub enum GeoObject {
    Node(Node),
    Way(Way),
    Relation(Relation),
}

impl GeoObject {
    /// The id of the object, with its kind.
    pub open spec fn spec_id(&self) -> OsmId {
        match self {
            GeoObject::Node(n) => OsmId::Node(n.id),
            GeoObject::Way(w) => OsmId::Way(w.id),
            GeoObject::Relation(r) => OsmId::Relation(r.id),
        }
    }

    /// The id of the object, with its kind.
    #[verifier::when_used_as_spec(spec_id)]
    pub fn id(&self) -> (id: OsmId)
        ensures
            id == self.spec_id(),
    {
        match self {
            GeoObject::Node(n) => OsmId::Node(n.id),
            GeoObject::Way(w) => OsmId::Way(w.id),
            GeoObject::Relation(r) => OsmId::Relation(r.id),
        }
    }

    /// The tags of the object.
    pub open spec fn spec_tags(&self) -> Tags {
        match self {
            GeoObject::Node(n) => n.tags,
            GeoObject::Way(w) => w.tags,
            GeoObject::Relation(r) => r.tags,
        }
    }

    /// The tags of the object.
    pub fn tags(&self) -> (tags: &Tags)
        ensures
            *tags == self.spec_tags(),
    {
        match self {
            GeoObject::Node(n) => &n.tags,
            GeoObject::Way(w) => &w.tags,
            GeoObject::Relation(r) => &r.tags,
        }
    }
}

/// The place of the first object with the given id.
pub open spec fn find(objects: Seq<GeoObject>, id: OsmId) -> Option<int>
    decreases objects.len(),
{
    if objects.len() == 0 {
        None
    } else {
        match find(objects.drop_last(), id) {
            Some(at) => Some(at),
            None => if objects.last().spec_id() == id {
                Some(objects.len() - 1)
            } else {
                None
            },
        }
    }
}

/// `find` gives a place that holds the id, and `None` only where no place
/// does.
pub proof fn lemma_find(objects: Seq<GeoObject>, id: OsmId)
    ensures
        match find(objects, id) {
            Some(at) => 0 <= at < objects.len() && objects[at].spec_id() == id && forall|j: int|
                0 <= j < at ==> (#[trigger] objects[j]).spec_id() != id,
            None => forall|j: int| 0 <= j < objects.len() ==> (#[trigger] objects[j]).spec_id() != id,
        },
    decreases objects.len(),
{
    if objects.len() > 0 {
        lemma_find(objects.drop_last(), id);
        assert(forall|j: int| 0 <= j < objects.len() - 1 ==> objects.drop_last()[j] == objects[j]);
    }
}

/// The objects of one extract. Each id is held once; the objects keep the
/// order in which their ids first came.
#[derive(Debug)]
pub struct ObjectMap {
    objects: Vec<GeoObject>,
}

impl View for ObjectMap {
    type V = Seq<GeoObject>;

    /// The objects held, in order.
    closed spec fn view(&self) -> Seq<GeoObject> {
        self.objects@
    }
}

impl ObjectMap {
    /// A map without objects.
    pub fn new() -> (map: ObjectMap)
        ensures
            map@ == Seq::<GeoObject>::empty(),
    {
        ObjectMap { objects: Vec::new() }
    }

    /// The number of objects held.
    pub fn len(&self) -> (n: usize)
        ensures
            n == self@.len(),
    {
        self.objects.len()
    }

    /// The object at place `at`.
    pub fn at(&self, at: usize) -> (object: &GeoObject)
        requires
            at < self@.len(),
        ensures
            *object == self@[at as int],
    {
        &self.objects[at]
    }

    /// The place of the object with the given id.
    pub fn position(&self, id: OsmId) -> (place: Option<usize>)
        ensures
            match place {
                Some(at) => find(self@, id) == Some(at as int) && at < self@.len(),
                None => find(self@, id).is_none(),
            },
    {
        let mut k: usize = 0;
        while k < self.objects.len()
            invariant
                k <= self.objects@.len(),
                forall|j: int| 0 <= j < k ==> (#[trigger] self.objects@[j]).spec_id() != id,
            decreases self.objects@.len() - k,
        {
            if self.objects[k].id() == id {
                proof {
                    lemma_find(self@, id);
                }
                return Some(k);
            }
            k = k + 1;
        }
        proof {
            lemma_find(self@, id);
        }
        None
    }

    /// The object with the given id, if the map holds one.
    pub fn get(&self, id: OsmId) -> (object: Option<&GeoObject>)
        ensures
            match object {
                Some(o) => find(self@, id).is_some() && *o == self@[find(self@, id).unwrap()],
                None => find(self@, id).is_none(),
            },
    {
        match self.position(id) {
            Some(at) => Some(&self.objects[at]),
            None => None,
        }
    }

    /// Puts `object` into the map: in the place of the object that has its
    /// id, or behind the others where none has it.
    pub fn insert(&mut self, object: GeoObject)
        ensures
            final(self)@ == match find(old(self)@, object.spec_id()) {
                Some(at) => old(self)@.update(at, object),
                None => old(self)@.push(object),
            },
    {
        match self.position(object.id()) {
            Some(at) => {
                self.objects.set(at, object);
            },
            None => {
                self.objects.push(object);
            },
        }
    }
}

} // verus!
