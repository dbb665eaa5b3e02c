//! What the global catalog says about a relation.
//!
//! Stackability is a property of a relation's schema, fixed when it is created: a relation
//! whose last key column is a validity can express a retraction across layers, and one without
//! cannot. Nothing here decides policy; it reports what the catalog holds.

use std::collections::BTreeMap;

use vstd::prelude::*;
use vstd::std_specs::btree::increasing_seq;
use vstd::std_specs::cmp::OrdSpec;

use crate::codec::{be_bytes, be_value, push_be, read_be, ID_LEN, Validity};
use crate::order::{bytes_lt, lemma_lt_transitive, lex_lt, to_vec};

verus! {

/// The id of a relation.
#[derive(Clone, Copy, Debug, PartialEq, Eq, Structural)]
pub struct RelationId(pub u64);

impl RelationId {
    /// The bytes that open every key of the relation.
    pub open spec fn prefix(self) -> Seq<u8> {
        be_bytes(self.0 as nat, 8)
    }

    /// The bytes that open every key of the relation.
    pub fn raw_encode(&self) -> (r: Vec<u8>)
        ensures
            r@ == self.prefix(),
    {
        let mut r: Vec<u8> = Vec::new();
        push_be(self.0, 8, &mut r);
        assert(r@ =~= self.prefix());
        r
    }

    /// The next id up.
    pub fn next(&self) -> (r: RelationId)
        requires
            self.0 < u64::MAX,
        ensures
            r.0 == self.0 + 1,
    {
        RelationId(self.0 + 1)
    }
}

/// The type of a key column, as far as stacking is concerned.
#[derive(Clone, Copy, Debug, PartialEq, Eq, Structural)]
pub enum ColType {
    /// A validity.
    Validity,
    /// Any other type.
    Data,
}

/// A relation as the catalog stores it, decoded.
#[derive(Debug)]
pub struct RelationHandle {
    pub id: RelationId,
    pub name: String,
    pub keys: Vec<ColType>,
}

/// A row of the catalog. The handle is absent if its bytes do not decode to one.
#[derive(Debug)]
pub struct CatalogRow {
    pub key: Vec<u8>,
    pub handle: Option<RelationHandle>,
}

/// One relation, as the catalog describes it.
#[derive(Debug)]
pub struct RelInfo {
    pub id: RelationId,
    pub name: String,
    /// How many columns its key has.
    pub n_keys: usize,
    /// Whether the relation carries a validity, and so can express a retraction across layers.
    pub stackable: bool,
    /// Index relations store their structure as ordinary rows. They compose through a stack but
    /// are never flattened.
    pub is_index: bool,
}

/// What a relation's description says.
#[verifier::ext_equal]
pub struct RelView {
    pub id: u64,
    pub name: Seq<char>,
    pub n_keys: nat,
    pub stackable: bool,
    pub is_index: bool,
}

impl View for RelInfo {
    type V = RelView;

    open spec fn view(&self) -> RelView {
        RelView {
            id: self.id.0,
            name: self.name@,
            n_keys: self.n_keys as nat,
            stackable: self.stackable,
            is_index: self.is_index,
        }
    }
}

/// The catalog could not be read.
#[derive(Debug, PartialEq, Eq)]
pub enum CatalogError {
    /// The row under this key does not hold a relation.
    Undecodable { key: Vec<u8> },
}

/// What a stored relation is described as: it is stackable if its last key column is a
/// validity, and an index if its name holds a colon, since an index is named after its parent,
/// `relation:index`.
pub open spec fn described(h: RelationHandle) -> RelView {
    RelView {
        id: h.id.0,
        name: h.name@,
        n_keys: h.keys@.len(),
        stackable: h.keys@.len() > 0 && h.keys@.last() == ColType::Validity,
        is_index: h.name@.contains(':'),
    }
}

/// The catalog's rows are in key order.
pub open spec fn catalog_sorted(rows: Seq<CatalogRow>) -> bool {
    forall|i: int, j: int|
        0 <= i < j < rows.len() ==> lex_lt(#[trigger] rows[i].key@, #[trigger] rows[j].key@)
}

/// The row at `i` describes a relation: its key lies in the range that does.
pub open spec fn in_catalog(rows: Seq<CatalogRow>, lower: Seq<u8>, upper: Seq<u8>, i: int) -> bool {
    0 <= i < rows.len() && !lex_lt(rows[i].key@, lower) && lex_lt(rows[i].key@, upper)
}

/// The relations among the first `n` rows, by id; of two rows with one id the later counts.
pub open spec fn catalog_of(
    rows: Seq<CatalogRow>,
    lower: Seq<u8>,
    upper: Seq<u8>,
    n: int,
) -> Map<u64, RelView>
    decreases n,
{
    if n <= 0 {
        Map::empty()
    } else {
        let before = catalog_of(rows, lower, upper, n - 1);
        match rows[n - 1].handle {
            Some(h) if in_catalog(rows, lower, upper, n - 1) => before.insert(h.id.0, described(h)),
            _ => before,
        }
    }
}

/// Each id is less than the next.
pub open spec fn ascends(ids: Seq<u64>) -> bool {
    forall|i: int, j: int| 0 <= i < j < ids.len() ==> ids[i] < ids[j]
}

/// The ids are those that relations are filed under, in order.
pub open spec fn lists_ids(rels: Map<u64, RelInfo>, ids: Seq<u64>) -> bool {
    ascends(ids) && ids.to_set() == rels.dom()
}

/// The ids that relations are filed under, in order.
pub open spec fn ids_of(rels: Map<u64, RelInfo>) -> Seq<u64> {
    choose|ids: Seq<u64>| lists_ids(rels, ids)
}

/// What is said of the relations, in order of the ids they are filed under.
pub open spec fn rel_views(rels: Map<u64, RelInfo>) -> Seq<RelView> {
    Seq::new(ids_of(rels).len(), |i: int| rels[ids_of(rels)[i]]@)
}

/// Every relation is filed under its own id, and an id is free above each.
pub open spec fn filed(rels: Map<u64, RelInfo>) -> bool {
    forall|id: u64| #[trigger]
        rels.contains_key(id) ==> rels[id].id.0 == id && id < u64::MAX
}

/// Ids in increasing order ascend.
pub proof fn lemma_increasing_ascends(ids: Seq<u64>)
    requires
        increasing_seq(ids),
    ensures
        ascends(ids),
{
    assert forall|i: int, j: int| 0 <= i < j < ids.len() implies ids[i] < ids[j] by {
        assert(ids[i].cmp_spec(&ids[j]) is Less);
    }
}

/// Any finite set of ids can be put in order.
proof fn lemma_ids_exist(set: Set<u64>) -> (ids: Seq<u64>)
    requires
        set.finite(),
    ensures
        ascends(ids),
        ids.to_set() == set,
    decreases set.len(),
{
    if set.len() == 0 {
        let ids = Seq::<u64>::empty();
        assert(set =~= Set::empty());
        assert(ids.to_set() =~= set);
        ids
    } else {
        let leq = |a: u64, b: u64| a <= b;
        set.find_unique_maximal_ensures(leq);
        let last = set.find_unique_maximal(leq);
        let front = lemma_ids_exist(set.remove(last));
        let ids = front.push(last);
        assert forall|i: int, j: int| 0 <= i < j < ids.len() implies ids[i] < ids[j] by {
            if j == front.len() {
                assert(front.to_set().contains(front[i]));
                assert(set.contains(front[i]));
                assert(leq(last, front[i]) ==> leq(front[i], last));
            }
        }
        assert forall|id: u64| set.contains(id) implies ids.to_set().contains(id) by {
            if id == last {
                assert(ids[front.len() as int] == id);
            } else {
                assert(front.to_set().contains(id));
                let i = choose|i: int| 0 <= i < front.len() && front[i] == id;
                assert(ids[i] == id);
            }
        }
        assert forall|id: u64| ids.to_set().contains(id) implies set.contains(id) by {
            let i = choose|i: int| 0 <= i < ids.len() && ids[i] == id;
            if i < front.len() {
                assert(front.to_set().contains(front[i]));
            }
        }
        assert(ids.to_set() =~= set);
        ids
    }
}

/// There is one order of a set of ids.
proof fn lemma_ids_unique(a: Seq<u64>, b: Seq<u64>)
    requires
        ascends(a),
        ascends(b),
        a.to_set() == b.to_set(),
    ensures
        a == b,
    decreases a.len(),
{
    if a.len() == 0 {
        if b.len() > 0 {
            assert(b.to_set().contains(b[0]));
            assert(a.to_set().contains(b[0]));
        }
        assert(a =~= b);
    } else {
        assert(a.to_set().contains(a.last()));
        assert(b.to_set().contains(a.last()));
        assert(b.to_set().contains(b.last()));
        assert(a.to_set().contains(b.last()));
        let front = a.drop_last();
        let other = b.drop_last();
        assert(a.last() == b.last());
        assert forall|id: u64| front.to_set().contains(id) implies other.to_set().contains(id) by {
            let i = choose|i: int| 0 <= i < front.len() && front[i] == id;
            assert(a[i] == id);
            assert(a.to_set().contains(id));
            assert(b.to_set().contains(id));
            let j = choose|j: int| 0 <= j < b.len() && b[j] == id;
            assert(other[j] == id);
        }
        assert forall|id: u64| other.to_set().contains(id) implies front.to_set().contains(id) by {
            let i = choose|i: int| 0 <= i < other.len() && other[i] == id;
            assert(b[i] == id);
            assert(b.to_set().contains(id));
            assert(a.to_set().contains(id));
            let j = choose|j: int| 0 <= j < a.len() && a[j] == id;
            assert(front[j] == id);
        }
        assert(front.to_set() =~= other.to_set());
        lemma_ids_unique(front, other);
        assert(a =~= front.push(a.last()));
        assert(b =~= other.push(b.last()));
    }
}

/// A listing of the ids is the listing of the ids.
pub proof fn lemma_ids_are(rels: Map<u64, RelInfo>, ids: Seq<u64>)
    requires
        lists_ids(rels, ids),
    ensures
        ids_of(rels) == ids,
{
    lemma_ids_unique(ids_of(rels), ids);
}

/// The ids of finitely many relations can be listed.
pub proof fn lemma_ids(rels: Map<u64, RelInfo>)
    requires
        rels.dom().finite(),
    ensures
        lists_ids(rels, ids_of(rels)),
{
    let ids = lemma_ids_exist(rels.dom());
    assert(lists_ids(rels, ids));
}

/// Every id that a relation is filed under is listed.
pub proof fn lemma_id_listed(rels: Map<u64, RelInfo>, id: u64) -> (i: int)
    requires
        rels.dom().finite(),
        rels.contains_key(id),
    ensures
        0 <= i < rel_views(rels).len(),
        rel_views(rels)[i] == rels[id]@,
{
    lemma_ids(rels);
    assert(ids_of(rels).to_set().contains(id));
    choose|i: int| 0 <= i < ids_of(rels).len() && ids_of(rels)[i] == id
}

/// Relations filed under their own ids are listed in order of id.
pub proof fn lemma_listed_by_id(rels: Map<u64, RelInfo>)
    requires
        rels.dom().finite(),
        filed(rels),
    ensures
        forall|i: int, j: int|
            0 <= i < j < rel_views(rels).len() ==> (#[trigger] rel_views(rels)[i]).id < (
            #[trigger] rel_views(rels)[j]).id,
        forall|i: int|
            0 <= i < rel_views(rels).len() ==> (#[trigger] rel_views(rels)[i]).id < u64::MAX,
{
    let ids = ids_of(rels);
    lemma_ids(rels);
    assert forall|i: int| 0 <= i < ids.len() implies rels.contains_key(#[trigger] ids[i]) by {
        assert(ids.to_set().contains(ids[i]));
    }
    assert forall|i: int, j: int| 0 <= i < j < rel_views(rels).len() implies (
    #[trigger] rel_views(rels)[i]).id < (#[trigger] rel_views(rels)[j]).id by {
        assert(rels.contains_key(ids[i]) && rels.contains_key(ids[j]));
    }
    assert forall|i: int| 0 <= i < rel_views(rels).len() implies (
    #[trigger] rel_views(rels)[i]).id < u64::MAX by {
        assert(rels.contains_key(ids[i]));
    }
}

/// What is said of the relations, by the ids they are filed under.
pub open spec fn described_by(rels: Map<u64, RelInfo>) -> Map<u64, RelView> {
    rels.map_values(|r: RelInfo| r@)
}

fn has_colon(name: &String) -> (r: bool)
    ensures
        r == name@.contains(':'),
{
    let mut found: bool = false;
    for c in it: name.as_str().chars()
        invariant
            it.seq() == name@,
            found == (exists|i: int| 0 <= i < it.index() && name@[i] == ':'),
    {
        if c == ':' {
            assert(name@[it.index()] == ':');
            found = true;
        }
    }
    found
}

fn describe(h: &RelationHandle) -> (r: RelInfo)
    ensures
        r@ == described(*h),
        r.id == h.id,
{
    let n: usize = h.keys.len();
    let stackable: bool = n > 0 && h.keys[n - 1] == ColType::Validity;
    RelInfo {
        id: h.id,
        name: h.name.clone(),
        n_keys: n,
        stackable,
        is_index: has_colon(&h.name),
    }
}

/// The row at `i` lies in the catalog's range and describes a relation under this id.
pub open spec fn describes(
    rows: Seq<CatalogRow>,
    lower: Seq<u8>,
    upper: Seq<u8>,
    i: int,
    id: u64,
) -> bool {
    &&& 0 <= i < rows.len()
    &&& !lex_lt(rows[i].key@, lower)
    &&& lex_lt(rows[i].key@, upper)
    &&& rows[i].handle matches Some(h)
    &&& h.id.0 == id
}

/// The catalog has a relation under an id exactly if a row in its range describes one, and says of
/// it what the last such row says: its name, how many key columns it has, that it is stackable if the
/// last of them is a validity, whatever comes before it, and that it is an index if there is a colon
/// in its name.
pub proof fn law_the_last_row_of_an_id_describes_its_relation(
    rows: Seq<CatalogRow>,
    lower: Seq<u8>,
    upper: Seq<u8>,
    n: int,
    id: u64,
)
    requires
        0 <= n <= rows.len(),
    ensures
        catalog_of(rows, lower, upper, n).contains_key(id) <==> exists|i: int|
            i < n && describes(rows, lower, upper, i, id),
        forall|i: int|
            #![trigger describes(rows, lower, upper, i, id)]
            i < n && describes(rows, lower, upper, i, id) && (forall|j: int|
                i < j < n ==> !describes(rows, lower, upper, j, id)) ==> {
                let h = rows[i].handle.unwrap();
                let rel = catalog_of(rows, lower, upper, n)[id];
                &&& rel.id == id
                &&& rel.name == h.name@
                &&& rel.n_keys == h.keys@.len()
                &&& rel.stackable <==> h.keys@.len() > 0 && h.keys@[h.keys@.len() - 1]
                    == ColType::Validity
                &&& rel.is_index <==> exists|c: int| 0 <= c < h.name@.len() && h.name@[c] == ':'
            },
    decreases n,
{
    if n > 0 {
        law_the_last_row_of_an_id_describes_its_relation(rows, lower, upper, n - 1, id);
        let before = catalog_of(rows, lower, upper, n - 1);
        let now = catalog_of(rows, lower, upper, n);
        if describes(rows, lower, upper, n - 1, id) {
            assert(now[id] == described(rows[n - 1].handle.unwrap()));
        } else {
            assert(now.contains_key(id) == before.contains_key(id));
            assert(before.contains_key(id) ==> now[id] == before[id]);
        }
    }
}

/// Putting key columns in front of those of a relation changes how many it has, and not whether it is
/// stackable.
pub proof fn law_columns_in_front_do_not_make_a_relation_stackable(
    a: RelationHandle,
    b: RelationHandle,
    front: Seq<ColType>,
)
    requires
        a.keys@.len() > 0,
        b.keys@ == front + a.keys@,
    ensures
        described(b).stackable == described(a).stackable,
        described(b).n_keys == front.len() + described(a).n_keys,
        described(b).id == b.id.0,
        described(b).name == b.name@,
{
    assert(b.keys@.last() == a.keys@.last());
}

/// Rows lie in the catalog's range exactly if their keys do, and rows in order can be read as a
/// catalog.
pub proof fn law_a_catalog_is_rows_in_key_order(
    rows: Seq<CatalogRow>,
    lower: Seq<u8>,
    upper: Seq<u8>,
    i: int,
)
    ensures
        in_catalog(rows, lower, upper, i) <==> 0 <= i < rows.len() && !lex_lt(rows[i].key@, lower)
            && lex_lt(rows[i].key@, upper),
        catalog_sorted(rows) <==> forall|a: int, b: int|
            0 <= a < b < rows.len() ==> lex_lt(
                (#[trigger] rows[a]).key@,
                (#[trigger] rows[b]).key@,
            ),
{
    if forall|a: int, b: int|
        0 <= a < b < rows.len() ==> lex_lt((#[trigger] rows[a]).key@, (#[trigger] rows[b]).key@) {
        assert forall|a: int, b: int| 0 <= a < b < rows.len() implies lex_lt(
            #[trigger] rows[a].key@,
            #[trigger] rows[b].key@,
        ) by {
            assert(lex_lt((rows[a]).key@, (rows[b]).key@));
        }
    }
    if catalog_sorted(rows) {
        assert forall|a: int, b: int| 0 <= a < b < rows.len() implies lex_lt(
            (#[trigger] rows[a]).key@,
            (#[trigger] rows[b]).key@,
        ) by {
            assert(lex_lt(rows[a].key@, rows[b].key@));
        }
    }
}

/// Every relation in the store, by relation id, from the catalog's rows.
///
/// The catalog is global, so this is the same answer through every stack.
pub fn catalog_relations(rows: &Vec<CatalogRow>, lower: &[u8], upper: &[u8]) -> (r: Result<
    BTreeMap<u64, RelInfo>,
    CatalogError,
>)
    requires
        catalog_sorted(rows@),
    ensures
        r is Ok <==> forall|i: int|
            #![trigger rows@[i]]
            in_catalog(rows@, lower@, upper@, i) ==> rows@[i].handle is Some,
        r matches Ok(rels) ==> described_by(rels@) == catalog_of(
            rows@,
            lower@,
            upper@,
            rows@.len() as int,
        ),
        r matches Ok(rels) ==> forall|id: u64| #[trigger]
            rels@.contains_key(id) ==> rels@[id].id.0 == id,
        r matches Ok(rels) ==> forall|id: u64| #[trigger]
            rels@.contains_key(id) <==> exists|i: int| describes(rows@, lower@, upper@, i, id),
        r matches Ok(rels) ==> forall|i: int, id: u64| #[trigger]
            describes(rows@, lower@, upper@, i, id) && (forall|j: int|
                i < j ==> !describes(rows@, lower@, upper@, j, id)) ==> {
                let h = rows@[i].handle.unwrap();
                &&& rels@[id].name@ == h.name@
                &&& rels@[id].n_keys == h.keys@.len()
                &&& rels@[id].stackable <==> h.keys@.len() > 0 && h.keys@[h.keys@.len() - 1]
                    == ColType::Validity
                &&& rels@[id].is_index <==> exists|c: int|
                    0 <= c < h.name@.len() && h.name@[c] == ':'
            },
        r matches Err(CatalogError::Undecodable { key }) ==> exists|i: int|
            #![trigger rows@[i]]
            {
                &&& in_catalog(rows@, lower@, upper@, i)
                &&& rows@[i].handle is None
                &&& rows@[i].key@ == key@
                &&& forall|j: int|
                    #![trigger rows@[j]]
                    in_catalog(rows@, lower@, upper@, j) && j < i ==> rows@[j].handle is Some
            },
{
    let mut rels: BTreeMap<u64, RelInfo> = BTreeMap::new();
    assert(described_by(rels@) =~= catalog_of(rows@, lower@, upper@, 0));
    let mut i: usize = 0;
    while i < rows.len()
        invariant
            i <= rows@.len(),
            catalog_sorted(rows@),
            described_by(rels@) == catalog_of(rows@, lower@, upper@, i as int),
            forall|id: u64| #[trigger] rels@.contains_key(id) ==> rels@[id].id.0 == id,
            forall|j: int|
                #![trigger rows@[j]]
                j < i && in_catalog(rows@, lower@, upper@, j) ==> rows@[j].handle is Some,
        decreases rows@.len() - i,
    {
        let row = &rows[i];
        if !bytes_lt(row.key.as_slice(), lower) {
            if !bytes_lt(row.key.as_slice(), upper) {
                proof {
                    lemma_catalog_ends(rows@, lower@, upper@, i as int, rows@.len() as int);
                    assert forall|j: int|
                        #![trigger rows@[j]]
                        in_catalog(rows@, lower@, upper@, j) implies j < i by {
                        if j > i {
                            lemma_lt_transitive(rows@[i as int].key@, rows@[j].key@, upper@);
                        }
                    }
                }
                proof {
                    lemma_described_directly(rows@, lower@, upper@, rels@);
                }
                return Ok(rels);
            }
            match &row.handle {
                None => {
                    assert(in_catalog(rows@, lower@, upper@, i as int));
                    return Err(CatalogError::Undecodable { key: to_vec(row.key.as_slice()) });
                },
                Some(h) => {
                    let info = describe(h);
                    let ghost before = rels@;
                    let ghost said = info@;
                    rels.insert(h.id.0, info);
                    assert(described_by(rels@) =~= described_by(before).insert(h.id.0, said));
                },
            }
        }
        i += 1;
    }
    proof {
        lemma_described_directly(rows@, lower@, upper@, rels@);
    }
    Ok(rels)
}

/// Relations that are what the catalog says are what its rows describe.
proof fn lemma_described_directly(
    rows: Seq<CatalogRow>,
    lower: Seq<u8>,
    upper: Seq<u8>,
    rels: Map<u64, RelInfo>,
)
    requires
        described_by(rels) == catalog_of(rows, lower, upper, rows.len() as int),
    ensures
        forall|id: u64| #[trigger]
            rels.contains_key(id) <==> exists|i: int| describes(rows, lower, upper, i, id),
        forall|i: int, id: u64| #[trigger]
            describes(rows, lower, upper, i, id) && (forall|j: int|
                i < j ==> !describes(rows, lower, upper, j, id)) ==> {
                let h = rows[i].handle.unwrap();
                &&& rels[id].name@ == h.name@
                &&& rels[id].n_keys == h.keys@.len()
                &&& rels[id].stackable <==> h.keys@.len() > 0 && h.keys@[h.keys@.len() - 1]
                    == ColType::Validity
                &&& rels[id].is_index <==> exists|c: int|
                    0 <= c < h.name@.len() && h.name@[c] == ':'
            },
{
    let n = rows.len() as int;
    let m = catalog_of(rows, lower, upper, n);
    assert forall|id: u64| #[trigger]
        rels.contains_key(id) <==> exists|i: int| describes(rows, lower, upper, i, id) by {
        law_the_last_row_of_an_id_describes_its_relation(rows, lower, upper, n, id);
        assert(rels.contains_key(id) == m.contains_key(id));
    }
    assert forall|i: int, id: u64| #[trigger]
        describes(rows, lower, upper, i, id) && (forall|j: int|
            i < j ==> !describes(rows, lower, upper, j, id)) implies {
        let h = rows[i].handle.unwrap();
        &&& rels[id].name@ == h.name@
        &&& rels[id].n_keys == h.keys@.len()
        &&& rels[id].stackable <==> h.keys@.len() > 0 && h.keys@[h.keys@.len() - 1]
            == ColType::Validity
        &&& rels[id].is_index <==> exists|c: int| 0 <= c < h.name@.len() && h.name@[c] == ':'
    } by {
        law_the_last_row_of_an_id_describes_its_relation(rows, lower, upper, n, id);
        assert(m.contains_key(id));
        assert(m[id] == rels[id]@);
    }
}

proof fn lemma_catalog_ends(
    rows: Seq<CatalogRow>,
    lower: Seq<u8>,
    upper: Seq<u8>,
    from: int,
    n: int,
)
    requires
        catalog_sorted(rows),
        0 <= from < rows.len(),
        !lex_lt(rows[from].key@, upper),
        from <= n <= rows.len(),
    ensures
        catalog_of(rows, lower, upper, n) == catalog_of(rows, lower, upper, from),
    decreases n,
{
    if from < n {
        lemma_catalog_ends(rows, lower, upper, from, n - 1);
        if lex_lt(rows[n - 1].key@, upper) && from < n - 1 {
            lemma_lt_transitive(rows[from].key@, rows[n - 1].key@, upper);
        }
    }
}

/// The relation a key belongs to, read from its prefix.
pub open spec fn relation_under(key: Seq<u8>) -> Option<u64> {
    if key.len() < ID_LEN {
        None
    } else {
        Some(be_value(key.take(8)) as u64)
    }
}

/// The relation a key belongs to, read from its prefix.
pub fn relation_of(key: &[u8]) -> (r: Option<u64>)
    ensures
        r == relation_under(key@),
{
    if key.len() < ID_LEN {
        return None;
    }
    assert(key@.subrange(0, 8) =~= key@.take(8));
    Some(read_be(key, 0))
}

} // verus!
