//! Interned schemas.
use std::collections::HashMap;
use std::sync::Arc;

use arrow_schema::{DataType, Schema};
use vstd::prelude::*;

use crate::batch::error::Error;
use crate::batch::outside::{
    decode_message, decoded_message, fields_of_message, message_fields, schema_message, schema_text,
    schema_types, serialize_schema, share, text_len,
};

verus! {

/// The id of untyped bytes. No schema has it.
pub const RAW_SCHEMA_ID: u32 = 0;

/// Where the hash starts.
pub const FNV_OFFSET: u64 = 0xcbf2_9ce4_8422_2325;

/// What the hash is multiplied by for each byte.
pub const FNV_PRIME: u64 = 0x0000_0100_0000_01b3;

/// The 64-bit FNV-1a hash of `b`.
pub open spec fn fnv(b: Seq<u8>) -> u64
    decreases b.len(),
{
    if b.len() == 0 {
        FNV_OFFSET
    } else {
        (((fnv(b.drop_last()) ^ (b.last() as u64)) as int * FNV_PRIME as int) % 0x1_0000_0000_0000_0000) as u64
    }
}

/// The 64-bit FNV-1a hash of a serialized schema: the same in every process.
pub fn schema_content_hash(bytes: &[u8]) -> (h: u64)
    ensures
        h == fnv(bytes@),
{
    let n: usize = bytes.len();
    let mut h: u64 = FNV_OFFSET;
    let mut i: usize = 0;
    while i < n
        invariant
            n == bytes@.len(),
            i <= n,
            h == fnv(bytes@.take(i as int)),
        decreases n - i,
    {
        proof {
            assert(bytes@.take(i + 1).drop_last() =~= bytes@.take(i as int));
        }
        let x: u64 = h ^ (bytes[i] as u64);
        h = x.wrapping_mul(FNV_PRIME);
        i = i + 1;
    }
    proof {
        assert(bytes@.take(n as int) =~= bytes@);
    }
    h
}

/// How long a schema may be as text. Its message then stays under two gigabytes,
/// which is as long as a message can be.
pub const MAX_SCHEMA_TEXT: usize = 0x400_0000;

/// A field of a schema message: for a union, whether it has no type ids, and the
/// fields inside.
#[derive(Debug)]
pub struct Outline {
    pub bare: Option<bool>,
    pub children: Vec<Outline>,
}

/// What a field of a schema message is.
pub struct OutlineView {
    pub bare: Option<bool>,
    pub children: Seq<OutlineView>,
}

/// What a field of a message is.
pub open spec fn outline(o: Outline) -> OutlineView
    decreases o,
{
    OutlineView { bare: o.bare, children: outlines(o.children@) }
}

/// What the fields of a message are.
pub open spec fn outlines(s: Seq<Outline>) -> Seq<OutlineView>
    decreases s, s.len(),
{
    if s.len() == 0 {
        seq![]
    } else {
        seq![outline(s[0])] + outlines(s.skip(1))
    }
}

/// Whether a field is a union without type ids of more fields than there are
/// ids, or has one inside.
pub open spec fn crowded(o: OutlineView) -> bool
    decreases o,
{
    (o.bare == Some(true) && o.children.len() > 128) || any_crowded(o.children)
}

/// Whether one of the fields is crowded.
pub open spec fn any_crowded(s: Seq<OutlineView>) -> bool
    decreases s, s.len(),
{
    s.len() > 0 && (crowded(s[0]) || any_crowded(s.skip(1)))
}

proof fn lemma_outlines(s: Seq<Outline>)
    ensures
        outlines(s).len() == s.len(),
        forall|i: int| 0 <= i < s.len() ==> #[trigger] outlines(s)[i] == outline(s[i]),
    decreases s.len(),
{
    if s.len() > 0 {
        lemma_outlines(s.skip(1));
        assert forall|i: int| 0 <= i < s.len() implies #[trigger] outlines(s)[i] == outline(s[i]) by {
            if i > 0 {
                assert(outlines(s)[i] == outlines(s.skip(1))[i - 1]);
            }
        }
    }
}

/// Whether a field is crowded.
pub fn is_crowded(o: &Outline) -> (c: bool)
    ensures
        c == crowded(outline(*o)),
    decreases o,
{
    proof {
        lemma_outlines(o.children@);
        assert(outline(*o).children.skip(0) =~= outline(*o).children);
    }
    if let Some(bare) = o.bare {
        if bare && o.children.len() > 128 {
            return true;
        }
    }
    let n: usize = o.children.len();
    let mut i: usize = 0;
    while i < n
        invariant
            n == o.children@.len(),
            i <= n,
            outline(*o).children.len() == n,
            forall|k: int| 0 <= k < n ==> #[trigger] outline(*o).children[k] == outline(o.children@[k]),
            crowded(outline(*o)) == any_crowded(outline(*o).children.skip(i as int)),
        decreases n - i,
    {
        proof {
            let c = outline(*o).children;
            assert(c.skip(i as int)[0] == c[i as int]);
            assert(c.skip(i as int).skip(1) =~= c.skip(i + 1));
        }
        if is_crowded(&o.children[i]) {
            return true;
        }
        i = i + 1;
    }
    false
}

/// Whether one of the fields is crowded.
pub fn is_any_crowded(fields: &Vec<Outline>) -> (c: bool)
    ensures
        c == any_crowded(outlines(fields@)),
{
    proof {
        lemma_outlines(fields@);
        assert(outlines(fields@).skip(0) =~= outlines(fields@));
    }
    let n: usize = fields.len();
    let mut i: usize = 0;
    while i < n
        invariant
            n == fields@.len(),
            i <= n,
            outlines(fields@).len() == n,
            forall|k: int| 0 <= k < n ==> #[trigger] outlines(fields@)[k] == outline(fields@[k]),
            any_crowded(outlines(fields@)) == any_crowded(outlines(fields@).skip(i as int)),
        decreases n - i,
    {
        proof {
            let c = outlines(fields@);
            assert(c.skip(i as int)[0] == c[i as int]);
            assert(c.skip(i as int).skip(1) =~= c.skip(i + 1));
        }
        if is_crowded(&fields[i]) {
            return true;
        }
        i = i + 1;
    }
    false
}

/// Whether a schema can be serialized.
pub open spec fn serializable(s: Schema) -> bool {
    schema_text(s) <= MAX_SCHEMA_TEXT
}

/// Whether a schema can be serialized: its text is not too long.
pub fn is_serializable(schema: &Schema) -> (b: bool)
    ensures
        b == serializable(*schema),
{
    text_len(schema) <= MAX_SCHEMA_TEXT
}

/// Serialize a schema; `None` if its text is too long.
pub fn try_serialize_schema(schema: &Schema) -> (r: Option<Vec<u8>>)
    ensures
        r is Some <==> serializable(*schema),
        r matches Some(b) ==> b@ == schema_message(*schema),
{
    if is_serializable(schema) {
        Some(serialize_schema(schema))
    } else {
        None
    }
}

/// What decoding a serialized schema gives, as the message of the decoded
/// schema; `None` if the bytes are refused.
pub open spec fn decoded(b: Seq<u8>) -> Option<Seq<u8>> {
    if any_crowded(message_fields(b)) {
        None
    } else {
        decoded_message(b)
    }
}

/// Decode a serialized schema. What a schema was serialized to decodes to a
/// schema that says the same.
pub fn deserialize_schema(bytes: &[u8]) -> (r: Result<Arc<Schema>, Error>)
    ensures
        match decoded(bytes@) {
            Some(m) => r is Ok && schema_message(*r->Ok_0) == m,
            None => r is Err && r->Err_0 == Error::Arrow,
        },
        r matches Ok(d) ==> forall|s: Schema| #[trigger]
            schema_message(s) == bytes@ ==> schema_message(*d) == bytes@,
{
    if is_any_crowded(&fields_of_message(bytes)) {
        return Err(Error::Arrow);
    }
    match decode_message(bytes) {
        Ok(s) => Ok(Arc::new(s)),
        Err(_) => Err(Error::Arrow),
    }
}

/// The key a schema is interned under.
pub open spec fn key_of(s: Schema) -> u64 {
    fnv(schema_message(s))
}

/// The key a schema is interned under.
pub fn content_key(schema: &Schema) -> (k: u64)
    requires
        serializable(*schema),
    ensures
        k == key_of(*schema),
{
    let bytes: Vec<u8> = serialize_schema(schema);
    schema_content_hash(bytes.as_slice())
}

/// A two-way table between schemas and small ids.
pub struct SchemaRegistry {
    pub by_id: HashMap<u32, Arc<Schema>>,
    pub by_hash: HashMap<u64, u32>,
    pub next_id: u32,
}

/// What a registry knows.
#[verifier::ext_equal]
pub struct RegistryView {
    pub by_id: Map<u32, Arc<Schema>>,
    pub by_hash: Map<u64, u32>,
    pub next_id: u32,
}

impl View for SchemaRegistry {
    type V = RegistryView;

    open spec fn view(&self) -> RegistryView {
        RegistryView { by_id: self.by_id@, by_hash: self.by_hash@, next_id: self.next_id }
    }
}

impl RegistryView {
    /// Every known id is below the next one to be minted and is not the raw
    /// one, its schema can be serialized and is found by its content, and every
    /// hash leads to a known id.
    pub open spec fn wf(self) -> bool {
        &&& self.next_id > 0
        &&& forall|id: u32| #[trigger]
            self.by_id.contains_key(id) ==> {
                &&& RAW_SCHEMA_ID < id < self.next_id
                &&& serializable(*self.by_id[id])
                &&& self.by_hash.contains_key(key_of(*self.by_id[id]))
            }
        &&& forall|k: u64| #[trigger] self.by_hash.contains_key(k) ==> self.by_id.contains_key(
            self.by_hash[k],
        )
        &&& self.by_id.dom().finite()
    }

    /// The id of a schema, as interning it would give.
    pub open spec fn id_of(self, s: Schema) -> u32 {
        if self.by_hash.contains_key(key_of(s)) {
            self.by_hash[key_of(s)]
        } else {
            self.next_id
        }
    }

    /// Whether there is an id for a schema: it has one, or one can be minted.
    pub open spec fn has_room(self, s: Schema) -> bool {
        self.by_hash.contains_key(key_of(s)) || self.next_id < u32::MAX
    }

    /// The types of the columns of the schema with an id.
    pub open spec fn types_of_id(self, id: u32) -> Seq<DataType> {
        schema_types(*self.by_id[id])
    }

    /// After a schema was interned.
    pub open spec fn interned(self, s: Arc<Schema>) -> RegistryView {
        if self.by_hash.contains_key(key_of(*s)) {
            self
        } else {
            RegistryView {
                by_id: self.by_id.insert(self.next_id, s),
                by_hash: self.by_hash.insert(key_of(*s), self.next_id),
                next_id: (self.next_id + 1) as u32,
            }
        }
    }

    /// After a mapping was learned.
    pub open spec fn learned(self, id: u32, s: Arc<Schema>) -> RegistryView {
        if id == RAW_SCHEMA_ID {
            self
        } else {
            RegistryView {
                by_id: if self.by_id.contains_key(id) {
                    self.by_id
                } else {
                    self.by_id.insert(id, s)
                },
                by_hash: if self.by_hash.contains_key(key_of(*s)) {
                    self.by_hash
                } else {
                    self.by_hash.insert(key_of(*s), id)
                },
                next_id: if id >= self.next_id {
                    (id + 1) as u32
                } else {
                    self.next_id
                },
            }
        }
    }
}

/// An empty registry.
pub open spec fn empty_registry() -> RegistryView {
    RegistryView { by_id: Map::empty(), by_hash: Map::empty(), next_id: 1 }
}

/// A registry after the schemas were interned one after the other.
pub open spec fn seeded(s: Seq<Arc<Schema>>) -> RegistryView
    decreases s.len(),
{
    if s.len() == 0 {
        empty_registry()
    } else {
        seeded(s.drop_last()).interned(s.last())
    }
}

proof fn lemma_interned_wf(r: RegistryView, s: Arc<Schema>)
    requires
        r.wf(),
        r.has_room(*s),
        serializable(*s),
    ensures
        r.interned(s).wf(),
{
}

impl SchemaRegistry {
    /// An empty registry.
    pub fn new() -> (r: SchemaRegistry)
        ensures
            r@ == empty_registry(),
            r@.wf(),
    {
        let r = SchemaRegistry { by_id: HashMap::new(), by_hash: HashMap::new(), next_id: 1 };
        proof {
            broadcast use vstd::std_specs::hash::group_hash_axioms;

            assert(r@ =~= empty_registry());
        }
        r
    }

    /// A registry with the ids 1, 2, 3, ... for the schemas in order; the same
    /// schema again gets no new one.
    pub fn with_schemas(schemas: &[Arc<Schema>]) -> (r: SchemaRegistry)
        requires
            schemas@.len() < u32::MAX - 1,
            forall|i: int| 0 <= i < schemas@.len() ==> serializable(*#[trigger] schemas@[i]),
        ensures
            r@ == seeded(schemas@),
            r@.wf(),
    {
        let mut r: SchemaRegistry = SchemaRegistry::new();
        let n: usize = schemas.len();
        let mut i: usize = 0;
        while i < n
            invariant
                n == schemas@.len(),
                n < u32::MAX - 1,
                forall|k: int| 0 <= k < n ==> serializable(*#[trigger] schemas@[k]),
                i <= n,
                r@.wf(),
                r@.next_id <= i + 1,
                r@ == seeded(schemas@.take(i as int)),
            decreases n - i,
        {
            proof {
                assert(schemas@.take(i + 1).drop_last() =~= schemas@.take(i as int));
            }
            r.intern(&schemas[i]);
            i = i + 1;
        }
        proof {
            assert(schemas@.take(n as int) =~= schemas@);
        }
        r
    }

    /// The id of a schema; a new one the first time it is seen.
    pub fn intern(&mut self, schema: &Arc<Schema>) -> (id: u32)
        requires
            old(self)@.wf(),
            old(self)@.has_room(**schema),
            serializable(**schema),
        ensures
            id == old(self)@.id_of(**schema),
            final(self)@ == old(self)@.interned(*schema),
            final(self)@.wf(),
            id != RAW_SCHEMA_ID,
    {
        broadcast use vstd::std_specs::hash::group_hash_axioms;

        let ghost r0 = self@;
        let key: u64 = content_key(schema);
        if let Some(id) = self.by_hash.get(&key) {
            return *id;
        }
        let id: u32 = self.next_id;
        self.next_id = self.next_id + 1;
        self.by_hash.insert(key, id);
        let s: Arc<Schema> = share(schema);
        self.by_id.insert(id, s);
        proof {
            lemma_interned_wf(r0, *schema);
            assert(self@ =~= r0.interned(*schema));
        }
        id
    }

    /// Whether there is an id for a schema: it has one, or one can be minted.
    pub fn has_id_for(&self, schema: &Arc<Schema>) -> (b: bool)
        requires
            serializable(**schema),
        ensures
            b == self@.has_room(**schema),
    {
        broadcast use vstd::std_specs::hash::group_hash_axioms;

        if self.next_id < u32::MAX {
            return true;
        }
        let key: u64 = content_key(schema);
        self.by_hash.contains_key(&key)
    }

    /// The id of a schema; a new one the first time it is seen. `None`, and
    /// nothing is learned, if the schema's text is too long or all ids are taken.
    pub fn try_intern(&mut self, schema: &Arc<Schema>) -> (r: Option<u32>)
        requires
            old(self)@.wf(),
        ensures
            r is Some <==> serializable(**schema) && old(self)@.has_room(**schema),
            r matches Some(id) ==> id == old(self)@.id_of(**schema) && final(self)@ == old(
                self,
            )@.interned(*schema),
            r is None ==> final(self)@ == old(self)@,
            final(self)@.wf(),
    {
        if is_serializable(schema) && self.has_id_for(schema) {
            Some(self.intern(schema))
        } else {
            None
        }
    }

    /// Record a mapping issued elsewhere, and say whether it could be: not if the
    /// schema's text is too long or the id is the last one.
    pub fn try_insert(&mut self, id: u32, schema: Arc<Schema>) -> (done: bool)
        requires
            old(self)@.wf(),
        ensures
            done == (serializable(*schema) && id < u32::MAX),
            final(self)@ == if done {
                old(self)@.learned(id, schema)
            } else {
                old(self)@
            },
            final(self)@.wf(),
    {
        if is_serializable(&schema) && id < u32::MAX {
            self.insert(id, schema);
            true
        } else {
            false
        }
    }

    /// A registry with ids for the schemas in order; `None` if they are too many
    /// or the text of one is too long.
    pub fn try_with_schemas(schemas: &[Arc<Schema>]) -> (r: Option<SchemaRegistry>)
        ensures
            r is Some <==> schemas@.len() < u32::MAX - 1 && forall|i: int|
                0 <= i < schemas@.len() ==> serializable(*#[trigger] schemas@[i]),
            r matches Some(g) ==> g@ == seeded(schemas@) && g@.wf(),
    {
        let n: usize = schemas.len();
        if n >= (u32::MAX - 1) as usize {
            return None;
        }
        let mut i: usize = 0;
        while i < n
            invariant
                n == schemas@.len(),
                i <= n,
                forall|k: int| 0 <= k < i ==> serializable(*#[trigger] schemas@[k]),
            decreases n - i,
        {
            if !is_serializable(&schemas[i]) {
                return None;
            }
            i = i + 1;
        }
        Some(SchemaRegistry::with_schemas(schemas))
    }

    /// Record a mapping issued elsewhere. What is already known stays.
    pub fn insert(&mut self, id: u32, schema: Arc<Schema>)
        requires
            old(self)@.wf(),
            id < u32::MAX,
            serializable(*schema),
        ensures
            final(self)@ == old(self)@.learned(id, schema),
            final(self)@.wf(),
    {
        broadcast use vstd::std_specs::hash::group_hash_axioms;

        let ghost r0 = self@;
        if id == RAW_SCHEMA_ID {
            return;
        }
        let key: u64 = content_key(&schema);
        if !self.by_hash.contains_key(&key) {
            self.by_hash.insert(key, id);
        }
        let ghost s = schema;
        if !self.by_id.contains_key(&id) {
            self.by_id.insert(id, schema);
        }
        if id >= self.next_id {
            self.next_id = id + 1;
        }
        proof {
            assert(self@ =~= r0.learned(id, s));
        }
    }

    /// The id of a schema, if it is known. One whose text is too long never is.
    pub fn id_for(&self, schema: &Arc<Schema>) -> (r: Option<u32>)
        ensures
            r == if serializable(**schema) && self@.by_hash.contains_key(key_of(**schema)) {
                Some(self@.by_hash[key_of(**schema)])
            } else {
                None
            },
    {
        broadcast use vstd::std_specs::hash::group_hash_axioms;

        if !is_serializable(schema) {
            return None;
        }
        let key: u64 = content_key(schema);
        match self.by_hash.get(&key) {
            Some(id) => Some(*id),
            None => None,
        }
    }

    /// The schema with an id, if it is known.
    pub fn resolve(&self, id: u32) -> (r: Option<Arc<Schema>>)
        ensures
            id == RAW_SCHEMA_ID || !self@.by_id.contains_key(id) ==> r is None,
            id != RAW_SCHEMA_ID && self@.by_id.contains_key(id) ==> r == Some(self@.by_id[id]),
    {
        broadcast use vstd::std_specs::hash::group_hash_axioms;

        if id == RAW_SCHEMA_ID {
            return None;
        }
        match self.by_id.get(&id) {
            Some(s) => Some(share(s)),
            None => None,
        }
    }

    /// How many ids are known.
    pub fn len(&self) -> (n: usize)
        ensures
            n == self@.by_id.len(),
    {
        broadcast use vstd::std_specs::hash::group_hash_axioms;

        self.by_id.len()
    }

    pub fn is_empty(&self) -> (b: bool)
        ensures
            b == (self@.by_id.len() == 0),
    {
        self.len() == 0
    }
}

impl Default for SchemaRegistry {
    fn default() -> (r: SchemaRegistry)
        ensures
            r@ == empty_registry(),
    {
        SchemaRegistry::new()
    }
}

/// Interning gives a schema its id for ever: the one it had, and then nothing is
/// learned; or one that nothing had, under which it is then found. It is never
/// the raw one, the same schema gets the same again, and no other schema's id
/// changes.
pub proof fn interning_gives_one_id(r: RegistryView, s: Arc<Schema>, key: u64, other: u32)
    requires
        r.wf(),
        r.has_room(*s),
        serializable(*s),
    ensures
        ({
            let id = r.id_of(*s);
            let n = r.interned(s);
            &&& id != RAW_SCHEMA_ID
            &&& n.wf()
            &&& r.by_hash.contains_key(key_of(*s)) ==> id == r.by_hash[key_of(*s)] && n == r
            &&& !r.by_hash.contains_key(key_of(*s)) ==> !r.by_id.contains_key(id)
                && n.by_id.contains_key(id) && n.by_id[id] == s && n.by_id.len() == r.by_id.len() + 1
            &&& n.by_id.contains_key(id)
            &&& n.by_hash.contains_key(key_of(*s)) && n.by_hash[key_of(*s)] == id
            &&& n.has_room(*s) && n.id_of(*s) == id && n.interned(s) == n
            &&& r.by_hash.contains_key(key) ==> n.by_hash.contains_key(key) && n.by_hash[key]
                == r.by_hash[key]
            &&& r.by_id.contains_key(other) ==> n.by_id.contains_key(other) && n.by_id[other]
                == r.by_id[other]
        }),
{
    lemma_interned_wf(r, s);
}

/// Whatever is interned or learned later, an id that resolves goes on
/// resolving to the same schema, and a schema that has an id keeps it.
pub proof fn ids_are_for_ever(r: RegistryView, id: u32, key: u64, other: u32, s: Arc<Schema>)
    requires
        r.wf(),
        r.has_room(*s),
    ensures
        r.by_id.contains_key(id) ==> r.interned(s).by_id.contains_key(id) && r.interned(s).by_id[id]
            == r.by_id[id],
        r.by_id.contains_key(id) ==> r.learned(other, s).by_id.contains_key(id) && r.learned(
            other,
            s,
        ).by_id[id] == r.by_id[id],
        r.by_hash.contains_key(key) ==> r.interned(s).by_hash.contains_key(key)
            && r.interned(s).by_hash[key] == r.by_hash[key],
        r.by_hash.contains_key(key) ==> r.learned(other, s).by_hash.contains_key(key) && r.learned(
            other,
            s,
        ).by_hash[key] == r.by_hash[key],
{
}

/// A schema that was new when its id was learned is found by that id and by
/// its content.
pub proof fn learned_is_found(r: RegistryView, id: u32, s: Arc<Schema>)
    requires
        r.wf(),
        id != RAW_SCHEMA_ID,
        !r.by_id.contains_key(id),
        !r.by_hash.contains_key(key_of(*s)),
    ensures
        r.learned(id, s).by_id[id] == s,
        r.learned(id, s).id_of(*s) == id,
{
}

} // verus!
