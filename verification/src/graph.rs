//! The graph model: nodes with identifiers, weighted undirected adjacency,
//! an optional numeric attribute per node and the category labels of each node.
use vstd::prelude::*;

verus! {

/// Adjacency lists by node number: each entry is a neighbor and the weight of the edge to it.
pub type Adjacency = Seq<Seq<(usize, u64)>>;

/// Every edge leads to a node of the graph.
pub open spec fn links_in_range(adj: Adjacency) -> bool {
    forall|u: int, k: int|
        0 <= u < adj.len() && 0 <= k < adj[u].len() ==> (#[trigger] adj[u][k]).0 < adj.len()
}

/// Every edge is listed at both of its ends with the same weight.
pub open spec fn undirected(adj: Adjacency) -> bool {
    forall|u: int, k: int|
        0 <= u < adj.len() && 0 <= k < adj[u].len() ==> adj[(#[trigger] adj[u][k]).0 as int].contains(
            (u as usize, adj[u][k].1),
        )
}

/// The adjacency lists after an edge of weight `w` between `a` and `b` was appended at both ends.
pub open spec fn linked(adj: Adjacency, a: usize, b: usize, w: u64) -> Adjacency {
    let first = adj.update(a as int, adj[a as int].push((b, w)));
    first.update(b as int, first[b as int].push((a, w)))
}

/// The texts of a sequence of strings.
pub open spec fn texts(names: Seq<String>) -> Seq<Seq<char>> {
    Seq::new(names.len(), |i: int| names[i]@)
}

/// Takes the names of a list of labels into a label table, one after another: a name that
/// the table lacks is appended to it. Yields the table, and the positions of the names in
/// it, each position once, in the order in which the names first occur.
pub open spec fn assigned(labels: Seq<Seq<char>>, names: Seq<Seq<char>>) -> (
    Seq<Seq<char>>,
    Seq<usize>,
)
    decreases names.len(),
{
    if names.len() == 0 {
        (labels, Seq::empty())
    } else {
        let (table, ids) = assigned(labels, names.drop_last());
        let name = names.last();
        let table = if table.contains(name) {
            table
        } else {
            table.push(name)
        };
        let id = table.index_of(name) as usize;
        (
            table,
            if ids.contains(id) {
                ids
            } else {
                ids.push(id)
            },
        )
    }
}

/// How the weight of an edge between two entities is derived from the categories they share.
#[derive(Debug, Clone, Copy, PartialEq, Eq)]
pub enum EdgeWeight {
    /// One edge for the pair; its weight is the number of categories shared.
    SharedCount,
    /// One edge for each category shared; its weight is the numeric attribute of that
    /// category, which is the sum of the attributes of the entities that carry it, and
    /// the largest `u64` where the sum exceeds it.
    CategoryAttribute,
}

/// One row of input: an entity, the labels of its categories and its numeric attribute.
pub struct Record {
    /// The identifier of the entity.
    pub id: String,
    /// The labels of its categories.
    pub genres: Vec<String>,
    /// Its numeric attribute.
    pub length: u64,
}

/// A row of input as plain mathematical values.
pub struct RecordModel {
    /// The identifier of the entity.
    pub id: Seq<char>,
    /// The labels of its categories.
    pub genres: Seq<Seq<char>>,
    /// Its numeric attribute.
    pub length: u64,
}

impl View for Record {
    type V = RecordModel;

    open spec fn view(&self) -> RecordModel {
        RecordModel { id: self.id@, genres: texts(self.genres@), length: self.length }
    }
}

/// The rows of a list of records.
pub open spec fn rows(records: Seq<Record>) -> Seq<RecordModel> {
    Seq::new(records.len(), |i: int| records[i]@)
}

/// The labels of `own` that `other` holds too, in their order in `own`.
pub open spec fn common(own: Seq<usize>, other: Seq<usize>) -> Seq<usize>
    decreases own.len(),
{
    if own.len() == 0 {
        Seq::empty()
    } else {
        let rest = common(own.drop_last(), other);
        if other.contains(own.last()) {
            rest.push(own.last())
        } else {
            rest
        }
    }
}

/// The number of those of the first `upto` nodes that carry `label` and have an attribute.
pub open spec fn label_scored(
    attrs: Seq<Option<u64>>,
    categories: Seq<Seq<usize>>,
    label: usize,
    upto: nat,
) -> nat
    decreases upto,
{
    if upto == 0 {
        0
    } else {
        label_scored(attrs, categories, label, (upto - 1) as nat) + if categories[upto - 1].contains(
            label,
        ) && attrs[upto - 1] is Some {
            1nat
        } else {
            0nat
        }
    }
}

/// The sum of the attributes of those of the first `upto` nodes that carry `label`.
pub open spec fn label_total(
    attrs: Seq<Option<u64>>,
    categories: Seq<Seq<usize>>,
    label: usize,
    upto: nat,
) -> nat
    decreases upto,
{
    if upto == 0 {
        0
    } else {
        label_total(attrs, categories, label, (upto - 1) as nat) + if categories[upto - 1].contains(
            label,
        ) {
            match attrs[upto - 1] {
                Some(x) => x as nat,
                None => 0nat,
            }
        } else {
            0nat
        }
    }
}

/// The numeric attribute of a category: the sum of the attributes of the nodes that carry
/// it, capped at the largest `u64`.
pub open spec fn category_weight(
    attrs: Seq<Option<u64>>,
    categories: Seq<Seq<usize>>,
    label: usize,
) -> u64 {
    let total = label_total(attrs, categories, label, categories.len());
    if total <= u64::MAX {
        total as u64
    } else {
        u64::MAX
    }
}

/// The weights of the edges that join the nodes `lo` and `hi` under `policy`: none unless
/// both are entities and share a category.
pub open spec fn pair_weights(
    attrs: Seq<Option<u64>>,
    categories: Seq<Seq<usize>>,
    policy: EdgeWeight,
    lo: int,
    hi: int,
) -> Seq<u64> {
    let shared = common(categories[lo], categories[hi]);
    if attrs[lo] is None || attrs[hi] is None {
        Seq::empty()
    } else {
        match policy {
            EdgeWeight::SharedCount => if shared.len() == 0 {
                Seq::empty()
            } else {
                seq![shared.len() as u64]
            },
            EdgeWeight::CategoryAttribute => Seq::new(
                shared.len(),
                |k: int| category_weight(attrs, categories, shared[k]),
            ),
        }
    }
}

/// The entries that node `i` gets for its partner `j`.
pub open spec fn pair_edges(
    attrs: Seq<Option<u64>>,
    categories: Seq<Seq<usize>>,
    policy: EdgeWeight,
    i: int,
    j: int,
) -> Seq<(usize, u64)> {
    if i == j {
        Seq::empty()
    } else {
        let weights = pair_weights(
            attrs,
            categories,
            policy,
            if i < j { i } else { j },
            if i < j { j } else { i },
        );
        Seq::new(weights.len(), |k: int| (j as usize, weights[k]))
    }
}

/// The entries that node `i` gets for its partners among the first `upto` nodes, partner
/// by partner.
pub open spec fn row_edges(
    attrs: Seq<Option<u64>>,
    categories: Seq<Seq<usize>>,
    policy: EdgeWeight,
    i: int,
    upto: nat,
) -> Seq<(usize, u64)>
    decreases upto,
{
    if upto == 0 {
        Seq::empty()
    } else {
        row_edges(attrs, categories, policy, i, (upto - 1) as nat) + pair_edges(
            attrs,
            categories,
            policy,
            i,
            upto - 1,
        )
    }
}

/// How many partners of node `x` have been dealt with when the pair `(i, j)` is next.
spec fn partners_done(x: int, i: int, j: int, n: int) -> nat {
    if x < i {
        n as nat
    } else if x == i {
        j as nat
    } else if x < j {
        (i + 1) as nat
    } else {
        i as nat
    }
}

/// What a graph holds, as plain mathematical values.
#[verifier::ext_equal]
pub struct GraphModel {
    /// Identifier of each node.
    pub names: Seq<Seq<char>>,
    /// Adjacency list of each node.
    pub adjacency: Adjacency,
    /// Numeric attribute of each node; `None` for a node that is no entity.
    pub attributes: Seq<Option<u64>>,
    /// The category labels in use.
    pub labels: Seq<Seq<char>>,
    /// For each node, the labels it belongs to, as positions in `labels`.
    pub categories: Seq<Seq<usize>>,
}

impl GraphModel {
    /// The model of a graph without nodes.
    pub open spec fn empty() -> GraphModel {
        GraphModel {
            names: Seq::empty(),
            adjacency: Seq::empty(),
            attributes: Seq::empty(),
            labels: Seq::empty(),
            categories: Seq::empty(),
        }
    }

    /// The invariant of the graph model.
    pub open spec fn wf(self) -> bool {
        &&& self.adjacency.len() == self.names.len()
        &&& self.attributes.len() == self.names.len()
        &&& self.categories.len() == self.names.len()
        &&& self.names.no_duplicates()
        &&& self.labels.no_duplicates()
        &&& links_in_range(self.adjacency)
        &&& undirected(self.adjacency)
        &&& forall|e: int, j: int|
            0 <= e < self.categories.len() && 0 <= j < self.categories[e].len() ==> (
            #[trigger] self.categories[e][j]) < self.labels.len()
        &&& forall|e: int|
            0 <= e < self.categories.len() ==> (#[trigger] self.categories[e]).no_duplicates()
    }

    /// Whether `node` is an entity: a node with a recorded numeric attribute.
    pub open spec fn is_member(self, node: int) -> bool {
        0 <= node < self.attributes.len() && self.attributes[node] is Some
    }

    /// The model after a new isolated node named `name` was appended.
    pub open spec fn with_node(self, name: Seq<char>) -> GraphModel {
        GraphModel {
            names: self.names.push(name),
            adjacency: self.adjacency.push(Seq::empty()),
            attributes: self.attributes.push(None),
            labels: self.labels,
            categories: self.categories.push(Seq::empty()),
        }
    }

    /// The model after an edge of weight `w` between `a` and `b` was recorded at both ends.
    pub open spec fn with_edge(self, a: usize, b: usize, w: u64) -> GraphModel {
        GraphModel { adjacency: linked(self.adjacency, a, b, w), ..self }
    }

    /// The model after the labels named `names` were recorded as the categories of `node`.
    pub open spec fn with_categories(self, node: int, names: Seq<Seq<char>>) -> GraphModel {
        GraphModel {
            labels: assigned(self.labels, names).0,
            categories: self.categories.update(node, assigned(self.labels, names).1),
            ..self
        }
    }

    /// The model after one row of input was taken in. A row without identifier or with an
    /// attribute of 0 changes nothing.
    pub open spec fn with_record(self, row: RecordModel) -> GraphModel {
        if row.id.len() == 0 || row.length == 0 {
            self
        } else {
            let known = if self.names.contains(row.id) {
                self
            } else {
                self.with_node(row.id)
            };
            let node = known.names.index_of(row.id);
            known.with_attribute(node, row.length).with_categories(node, row.genres)
        }
    }

    /// The model after the rows of `input` were taken in, one after another.
    pub open spec fn with_records(self, input: Seq<RecordModel>) -> GraphModel
        decreases input.len(),
    {
        if input.len() == 0 {
            self
        } else {
            self.with_records(input.drop_last()).with_record(input.last())
        }
    }

    /// The model after every pair of entities that share a category was joined under
    /// `policy`. Each node gets its entries partner by partner, in the order of the nodes.
    pub open spec fn with_shared_links(self, policy: EdgeWeight) -> GraphModel {
        GraphModel {
            adjacency: Seq::new(
                self.names.len(),
                |i: int| row_edges(self.attributes, self.categories, policy, i, self.names.len()),
            ),
            ..self
        }
    }

    /// The model of the graph built from the rows of `input` under `policy`.
    pub open spec fn built(input: Seq<RecordModel>, policy: EdgeWeight) -> GraphModel {
        GraphModel::empty().with_records(input).with_shared_links(policy)
    }

    /// The model after the numeric attribute of `node` was set.
    pub open spec fn with_attribute(self, node: int, value: u64) -> GraphModel {
        GraphModel { attributes: self.attributes.update(node, Some(value)), ..self }
    }
}

/// Position of the first occurrence of `key` in `names`.
pub fn position(names: &Vec<String>, key: &String) -> (r: Option<usize>)
    ensures
        match r {
            Some(i) => i < names.len() && names[i as int]@ == key@ && forall|j: int|
                0 <= j < i ==> names[j]@ != key@,
            None => forall|j: int| 0 <= j < names.len() ==> names[j]@ != key@,
        },
{
    let mut i: usize = 0;
    while i < names.len()
        invariant
            i <= names.len(),
            forall|j: int| 0 <= j < i ==> names[j]@ != key@,
        decreases names.len() - i,
    {
        if names[i] == *key {
            return Some(i);
        }
        i += 1;
    }
    None
}

/// Whether `x` occurs in `list`.
pub fn contains_id(list: &Vec<usize>, x: usize) -> (r: bool)
    ensures
        r == list@.contains(x),
{
    let mut i: usize = 0;
    while i < list.len()
        invariant
            i <= list.len(),
            forall|j: int| 0 <= j < i ==> list[j] != x,
        decreases list.len() - i,
    {
        if list[i] == x {
            return true;
        }
        i += 1;
    }
    false
}

/// A weighted undirected graph over named nodes.
pub struct Graph {
    names: Vec<String>,
    edges: Vec<Vec<(usize, u64)>>,
    lengths_by_artist: Vec<Option<u64>>,
    genres: Vec<String>,
    genre_by_artist: Vec<Vec<usize>>,
}

impl View for Graph {
    type V = GraphModel;

    closed spec fn view(&self) -> GraphModel {
        GraphModel {
            names: Seq::new(self.names.len() as nat, |i: int| self.names[i]@),
            adjacency: Seq::new(self.edges.len() as nat, |i: int| self.edges[i]@),
            attributes: self.lengths_by_artist@,
            labels: Seq::new(self.genres.len() as nat, |i: int| self.genres[i]@),
            categories: Seq::new(
                self.genre_by_artist.len() as nat,
                |i: int| self.genre_by_artist[i]@,
            ),
        }
    }
}

impl Graph {
    /// The invariant every graph handed out by this module satisfies.
    pub open spec fn wf(&self) -> bool {
        self@.wf()
    }

    /// The graph without nodes.
    pub fn new() -> (g: Graph)
        ensures
            g.wf(),
            g@ == GraphModel::empty(),
    {
        let g = Graph {
            names: Vec::new(),
            edges: Vec::new(),
            lengths_by_artist: Vec::new(),
            genres: Vec::new(),
            genre_by_artist: Vec::new(),
        };
        assert(g@ =~= GraphModel::empty());
        g
    }

    /// Number of nodes.
    pub fn node_count(&self) -> (n: usize)
        ensures
            n == self@.names.len(),
    {
        self.names.len()
    }

    /// Number of category labels.
    pub fn label_count(&self) -> (n: usize)
        ensures
            n == self@.labels.len(),
    {
        self.genres.len()
    }

    /// The node named `name`, if there is one.
    pub fn node_id(&self, name: &str) -> (r: Option<usize>)
        ensures
            match r {
                Some(i) => i < self@.names.len() && self@.names[i as int] == name@ && forall|j: int|
                    0 <= j < i ==> self@.names[j] != name@,
                None => !self@.names.contains(name@),
            },
    {
        let key = name.to_owned();
        position(&self.names, &key)
    }

    /// The identifier of `node`; `None` if the graph has no such node.
    pub fn name(&self, node: usize) -> (r: Option<&String>)
        ensures
            match r {
                Some(s) => node < self@.names.len() && s@ == self@.names[node as int],
                None => node >= self@.names.len(),
            },
    {
        if node < self.names.len() {
            Some(&self.names[node])
        } else {
            None
        }
    }

    /// The label numbered `label`; `None` if there is no such label.
    pub fn genre_name(&self, label: usize) -> (r: Option<&String>)
        ensures
            match r {
                Some(s) => label < self@.labels.len() && s@ == self@.labels[label as int],
                None => label >= self@.labels.len(),
            },
    {
        if label < self.genres.len() {
            Some(&self.genres[label])
        } else {
            None
        }
    }

    /// The number of the label `name`, if it is in use.
    pub fn genre_id(&self, name: &str) -> (r: Option<usize>)
        ensures
            match r {
                Some(i) => i < self@.labels.len() && self@.labels[i as int] == name@
                    && forall|j: int| 0 <= j < i ==> self@.labels[j] != name@,
                None => !self@.labels.contains(name@),
            },
    {
        let key = name.to_owned();
        position(&self.genres, &key)
    }

    /// The adjacency list of `node`; `None` if the graph has no such node.
    pub fn neighbors(&self, node: usize) -> (r: Option<&Vec<(usize, u64)>>)
        ensures
            match r {
                Some(list) => node < self@.adjacency.len() && list@ == self@.adjacency[node as int],
                None => node >= self@.adjacency.len(),
            },
    {
        if node < self.edges.len() {
            Some(&self.edges[node])
        } else {
            None
        }
    }

    /// The adjacency list of a node of the graph.
    pub(crate) fn edges_at(&self, node: usize) -> (list: &Vec<(usize, u64)>)
        requires
            node < self@.adjacency.len(),
        ensures
            list@ == self@.adjacency[node as int],
    {
        &self.edges[node]
    }

    /// The labels of a node of the graph.
    pub(crate) fn labels_at(&self, node: usize) -> (list: &Vec<usize>)
        requires
            node < self@.categories.len(),
        ensures
            list@ == self@.categories[node as int],
    {
        &self.genre_by_artist[node]
    }

    /// Number of adjacency entries of `node`; 0 for a node the graph does not have.
    pub fn degree(&self, node: usize) -> (d: usize)
        ensures
            d == (if node < self@.adjacency.len() {
                self@.adjacency[node as int].len()
            } else {
                0
            }),
    {
        if node < self.edges.len() {
            self.edges[node].len()
        } else {
            0
        }
    }

    /// The numeric attribute of `node`; `None` for a node without one, or no node.
    pub fn length_of(&self, node: usize) -> (r: Option<u64>)
        ensures
            r == (if node < self@.attributes.len() {
                self@.attributes[node as int]
            } else {
                None
            }),
    {
        if node < self.lengths_by_artist.len() {
            self.lengths_by_artist[node]
        } else {
            None
        }
    }

    /// Whether `node` is an entity, that is a node with a recorded numeric attribute.
    pub fn is_member(&self, node: usize) -> (r: bool)
        ensures
            r == self@.is_member(node as int),
    {
        self.length_of(node).is_some()
    }

    /// The labels of `node`; `None` if the graph has no such node.
    pub fn genres_of(&self, node: usize) -> (r: Option<&Vec<usize>>)
        ensures
            match r {
                Some(list) => node < self@.categories.len() && list@ == self@.categories[
                    node as int],
                None => node >= self@.categories.len(),
            },
    {
        if node < self.genre_by_artist.len() {
            Some(&self.genre_by_artist[node])
        } else {
            None
        }
    }

    /// Returns the node named `name`, appending it as an isolated node if it is new.
    pub fn add_node(&mut self, name: &str) -> (id: usize)
        requires
            old(self).wf(),
        ensures
            final(self).wf(),
            id < final(self)@.names.len(),
            final(self)@.names[id as int] == name@,
            old(self)@.names.contains(name@) ==> final(self)@ == old(self)@,
            !old(self)@.names.contains(name@) ==> id == old(self)@.names.len() && final(self)@
                == old(self)@.with_node(name@),
    {
        let key = name.to_owned();
        match position(&self.names, &key) {
            Some(i) => {
                assert(self@.names[i as int] == name@);
                i
            },
            None => {
                let id = self.names.len();
                self.names.push(key);
                self.edges.push(Vec::new());
                self.lengths_by_artist.push(None);
                self.genre_by_artist.push(Vec::new());
                assert(self@ =~= old(self)@.with_node(name@));
                assert(self@.names.no_duplicates());
                assert(undirected(self@.adjacency)) by {
                    assert forall|u: int, k: int|
                        0 <= u < self@.adjacency.len() && 0 <= k < self@.adjacency[u].len() implies self@.adjacency[(
                    #[trigger] self@.adjacency[u][k]).0 as int].contains(
                        (u as usize, self@.adjacency[u][k].1),
                    ) by {
                        assert(u < old(self)@.adjacency.len());
                        let e = old(self)@.adjacency[u][k];
                        assert(old(self)@.adjacency[e.0 as int].contains((u as usize, e.1)));
                    }
                }
                id
            },
        }
    }

    /// Records the numeric attribute of the node named `artist`, adding the node if it is new.
    pub fn insert_length(&mut self, artist: &str, length: u64) -> (id: usize)
        requires
            old(self).wf(),
        ensures
            final(self).wf(),
            id < final(self)@.names.len(),
            final(self)@.names[id as int] == artist@,
            old(self)@.names.contains(artist@) ==> id == old(self)@.names.index_of(artist@)
                && final(self)@ == old(self)@.with_attribute(id as int, length),
            !old(self)@.names.contains(artist@) ==> id == old(self)@.names.len() && final(self)@
                == old(self)@.with_node(artist@).with_attribute(id as int, length),
    {
        let id = self.add_node(artist);
        let ghost mid = self@;
        self.lengths_by_artist[id] = Some(length);
        assert(self@ =~= mid.with_attribute(id as int, length));
        id
    }

    /// Records the categories of the node named `artist`, adding the node if it is new, and
    /// the labels that are new. A label named twice counts once.
    pub fn insert_genres(&mut self, artist: &str, genres: &Vec<String>) -> (id: usize)
        requires
            old(self).wf(),
        ensures
            final(self).wf(),
            id < final(self)@.names.len(),
            final(self)@.names[id as int] == artist@,
            old(self)@.names.contains(artist@) ==> final(self)@ == old(self)@.with_categories(
                id as int,
                texts(genres@),
            ),
            !old(self)@.names.contains(artist@) ==> id == old(self)@.names.len() && final(self)@
                == old(self)@.with_node(artist@).with_categories(id as int, texts(genres@)),
    {
        let id = self.add_node(artist);
        let ghost base = self@;
        let ghost names = texts(genres@);
        let mut ids: Vec<usize> = Vec::new();
        let mut i: usize = 0;
        while i < genres.len()
            invariant
                i <= genres.len(),
                names == texts(genres@),
                self.wf(),
                id < self@.names.len(),
                self@.names == base.names,
                self@.adjacency == base.adjacency,
                self@.attributes == base.attributes,
                self@.categories == base.categories,
                (self@.labels, ids@) == assigned(base.labels, names.take(i as int)),
                ids@.no_duplicates(),
                forall|j: int| 0 <= j < ids.len() ==> ids[j] < self@.labels.len(),
            decreases genres.len() - i,
        {
            let ghost before = self@.labels;
            let ghost name = genres[i as int]@;
            proof {
                assert(names.take(i + 1).drop_last() =~= names.take(i as int));
                assert(names.take(i + 1).last() == name);
            }
            let label = match position(&self.genres, &genres[i]) {
                Some(at) => {
                    assert(before[at as int] == name);
                    at
                },
                None => {
                    let at = self.genres.len();
                    self.genres.push(genres[i].clone());
                    proof {
                        assert(!before.contains(name)) by {
                            if before.contains(name) {
                                let j = choose|j: int| 0 <= j < before.len() && before[j] == name;
                                assert(before[j] == name);
                            }
                        }
                        assert(self@.labels =~= before.push(name));
                        assert(self@ =~= GraphModel { labels: before.push(name), ..base });
                        assert(self@.labels.no_duplicates());
                    }
                    at
                },
            };
            proof {
                let table = self@.labels;
                assert(table[label as int] == name);
                assert(table.contains(name));
                assert(table.index_of(name) == label);
            }
            if !contains_id(&ids, label) {
                ids.push(label);
            }
            i += 1;
        }
        proof {
            assert(names.take(genres.len() as int) =~= names);
        }
        let ghost mid = self@;
        self.genre_by_artist[id] = ids;
        proof {
            assert(self@ =~= GraphModel {
                labels: mid.labels,
                categories: base.categories.update(id as int, ids@),
                ..base
            });
            assert(self@ =~= base.with_categories(id as int, names));
        }
        id
    }

    /// Takes in one row of input: records the attribute and the categories of its entity. A
    /// row without identifier or with an attribute of 0 is left out.
    pub fn insert_record(&mut self, record: &Record)
        requires
            old(self).wf(),
        ensures
            final(self).wf(),
            final(self)@ == old(self)@.with_record(record@),
    {
        if record.id.as_str().is_empty() || record.length == 0 {
            return ;
        }
        let ghost known = if self@.names.contains(record.id@) {
            self@
        } else {
            self@.with_node(record.id@)
        };
        let node = self.insert_length(record.id.as_str(), record.length);
        proof {
            assert(known.names[node as int] == record.id@);
            assert(known.names.no_duplicates());
            assert(known.names.index_of(record.id@) == node);
            assert(self@.names.contains(record.id@));
        }
        let ghost mid = self@;
        let again = self.insert_genres(record.id.as_str(), &record.genres);
        proof {
            assert(mid.names[again as int] == record.id@);
            assert(again == node);
        }
    }

    /// The numeric attribute of every category.
    fn label_weights(&self) -> (table: Vec<u64>)
        requires
            self.wf(),
        ensures
            table.len() == self@.labels.len(),
            forall|l: int|
                0 <= l < table.len() ==> #[trigger] table[l] == category_weight(
                    self@.attributes,
                    self@.categories,
                    l as usize,
                ),
    {
        let n = self.names.len();
        let mut table: Vec<u64> = Vec::new();
        let mut l: usize = 0;
        while l < self.genres.len()
            invariant
                self.wf(),
                n == self@.names.len(),
                l <= self.genres.len(),
                table.len() == l,
                forall|b: int|
                    0 <= b < l ==> #[trigger] table[b] == category_weight(
                        self@.attributes,
                        self@.categories,
                        b as usize,
                    ),
            decreases self.genres.len() - l,
        {
            let mut total: u128 = 0;
            let mut e: usize = 0;
            while e < n
                invariant
                    self.wf(),
                    n == self@.names.len(),
                    e <= n,
                    total == label_total(self@.attributes, self@.categories, l, e as nat),
                    total <= e * u64::MAX,
                decreases n - e,
            {
                if contains_id(&self.genre_by_artist[e], l) {
                    match self.lengths_by_artist[e] {
                        Some(x) => {
                            total += x as u128;
                        },
                        None => {},
                    }
                }
                e += 1;
            }
            let weight: u64 = if total > u64::MAX as u128 {
                u64::MAX
            } else {
                total as u64
            };
            table.push(weight);
            l += 1;
        }
        table
    }

    /// The labels that `lo` and `hi` share, in their order at `lo`.
    fn shared_between(&self, lo: usize, hi: usize) -> (shared: Vec<usize>)
        requires
            self.wf(),
            lo < self@.names.len(),
            hi < self@.names.len(),
        ensures
            shared@ == common(self@.categories[lo as int], self@.categories[hi as int]),
            forall|k: int| 0 <= k < shared.len() ==> shared[k] < self@.labels.len(),
    {
        let own = &self.genre_by_artist[lo];
        let other = &self.genre_by_artist[hi];
        let mut shared: Vec<usize> = Vec::new();
        let mut k: usize = 0;
        while k < own.len()
            invariant
                self.wf(),
                lo < self@.names.len(),
                own@ == self@.categories[lo as int],
                k <= own.len(),
                shared@ == common(own@.take(k as int), other@),
                forall|j: int| 0 <= j < shared.len() ==> shared[j] < self@.labels.len(),
            decreases own.len() - k,
        {
            proof {
                assert(own@.take(k + 1).drop_last() =~= own@.take(k as int));
                assert(self@.categories[lo as int][k as int] < self@.labels.len());
            }
            if contains_id(other, own[k]) {
                shared.push(own[k]);
            }
            k += 1;
        }
        assert(own@.take(own.len() as int) =~= own@);
        shared
    }

    /// The weights of the edges that join `lo` and `hi` under `policy`.
    fn weights_between(&self, policy: EdgeWeight, table: &Vec<u64>, lo: usize, hi: usize) -> (weights:
        Vec<u64>)
        requires
            self.wf(),
            lo < self@.names.len(),
            hi < self@.names.len(),
            policy == EdgeWeight::CategoryAttribute ==> table.len() == self@.labels.len() && forall|
                l: int,
            |
                0 <= l < table.len() ==> #[trigger] table[l] == category_weight(
                    self@.attributes,
                    self@.categories,
                    l as usize,
                ),
        ensures
            weights@ == pair_weights(self@.attributes, self@.categories, policy, lo as int, hi as int),
    {
        let mut weights: Vec<u64> = Vec::new();
        if self.lengths_by_artist[lo].is_none() || self.lengths_by_artist[hi].is_none() {
            assert(weights@ =~= pair_weights(
                self@.attributes,
                self@.categories,
                policy,
                lo as int,
                hi as int,
            ));
            return weights;
        }
        let shared = self.shared_between(lo, hi);
        match policy {
            EdgeWeight::SharedCount => {
                if shared.len() > 0 {
                    weights.push(shared.len() as u64);
                }
            },
            EdgeWeight::CategoryAttribute => {
                let mut k: usize = 0;
                while k < shared.len()
                    invariant
                        k <= shared.len(),
                        weights.len() == k,
                        table.len() == self@.labels.len(),
                        forall|j: int| 0 <= j < shared.len() ==> shared[j] < table.len(),
                        forall|j: int| 0 <= j < k ==> #[trigger] weights[j] == table[shared[j] as int],
                    decreases shared.len() - k,
                {
                    weights.push(table[shared[k]]);
                    k += 1;
                }
            },
        }
        assert(weights@ =~= pair_weights(
            self@.attributes,
            self@.categories,
            policy,
            lo as int,
            hi as int,
        ));
        weights
    }

    /// Joins every pair of entities that share a category, under `policy`, in a graph that
    /// has no edges yet.
    fn connect_shared(&mut self, policy: EdgeWeight)
        requires
            old(self).wf(),
            forall|x: int|
                0 <= x < old(self)@.adjacency.len() ==> (#[trigger] old(self)@.adjacency[x]).len()
                    == 0,
        ensures
            final(self).wf(),
            final(self)@ == old(self)@.with_shared_links(policy),
    {
        let n = self.names.len();
        let table = match policy {
            EdgeWeight::SharedCount => Vec::new(),
            EdgeWeight::CategoryAttribute => self.label_weights(),
        };
        let ghost m = self@;
        let ghost attrs = m.attributes;
        let ghost cats = m.categories;
        let mut i: usize = 0;
        assert forall|x: int| 0 <= x < n implies #[trigger] self@.adjacency[x] == row_edges(
            attrs,
            cats,
            policy,
            x,
            partners_done(x, 0, 0, n as int),
        ) by {
            assert(self@.adjacency[x] =~= Seq::empty());
        }
        while i < n
            invariant
                self.wf(),
                n == m.names.len(),
                self@.names == m.names,
                self@.attributes == attrs,
                self@.labels == m.labels,
                self@.categories == cats,
                attrs == m.attributes,
                cats == m.categories,
                i <= n,
                policy == EdgeWeight::CategoryAttribute ==> table.len() == m.labels.len() && forall|
                    l: int,
                |
                    0 <= l < table.len() ==> #[trigger] table[l] == category_weight(
                        attrs,
                        cats,
                        l as usize,
                    ),
                forall|x: int|
                    0 <= x < n ==> #[trigger] self@.adjacency[x] == row_edges(
                        attrs,
                        cats,
                        policy,
                        x,
                        partners_done(x, i as int, i as int, n as int),
                    ),
            decreases n - i,
        {
            let mut j: usize = i + 1;
            proof {
                assert(row_edges(attrs, cats, policy, i as int, (i + 1) as nat) =~= row_edges(
                    attrs,
                    cats,
                    policy,
                    i as int,
                    i as nat,
                ));
            }
            while j < n
                invariant
                    self.wf(),
                    n == m.names.len(),
                    self@.names == m.names,
                    self@.attributes == attrs,
                    self@.labels == m.labels,
                    self@.categories == cats,
                    i < j <= n,
                    policy == EdgeWeight::CategoryAttribute ==> table.len() == m.labels.len()
                        && forall|l: int|
                        0 <= l < table.len() ==> #[trigger] table[l] == category_weight(
                            attrs,
                            cats,
                            l as usize,
                        ),
                    forall|x: int|
                        0 <= x < n ==> #[trigger] self@.adjacency[x] == row_edges(
                            attrs,
                            cats,
                            policy,
                            x,
                            partners_done(x, i as int, j as int, n as int),
                        ),
                decreases n - j,
            {
                let weights = self.weights_between(policy, &table, i, j);
                let ghost before = self@.adjacency;
                let ghost to_j = pair_edges(attrs, cats, policy, i as int, j as int);
                let ghost to_i = pair_edges(attrs, cats, policy, j as int, i as int);
                let mut k: usize = 0;
                assert(self@.adjacency[i as int] =~= before[i as int] + to_j.take(0));
                assert(self@.adjacency[j as int] =~= before[j as int] + to_i.take(0));
                while k < weights.len()
                    invariant
                        self.wf(),
                        n == m.names.len(),
                        self@.names == m.names,
                        self@.attributes == attrs,
                        self@.labels == m.labels,
                        self@.categories == cats,
                        i < j < n,
                        k <= weights.len(),
                        before.len() == n,
                        self@.adjacency.len() == n,
                        weights@ == pair_weights(attrs, cats, policy, i as int, j as int),
                        to_j == pair_edges(attrs, cats, policy, i as int, j as int),
                        to_i == pair_edges(attrs, cats, policy, j as int, i as int),
                        forall|x: int|
                            0 <= x < n && x != i && x != j ==> #[trigger] self@.adjacency[x]
                                == before[x],
                        self@.adjacency[i as int] == before[i as int] + to_j.take(k as int),
                        self@.adjacency[j as int] == before[j as int] + to_i.take(k as int),
                    decreases weights.len() - k,
                {
                    let ghost prior = self@.adjacency;
                    self.add_edge(i, j, weights[k]);
                    proof {
                        assert(to_j[k as int] == (j, weights[k as int]));
                        assert(to_i[k as int] == (i, weights[k as int]));
                        assert(to_j.take(k + 1) =~= to_j.take(k as int).push(to_j[k as int]));
                        assert(to_i.take(k + 1) =~= to_i.take(k as int).push(to_i[k as int]));
                        assert(self@.adjacency[i as int] =~= prior[i as int].push(
                            (j, weights[k as int]),
                        ));
                        assert(self@.adjacency[j as int] =~= prior[j as int].push(
                            (i, weights[k as int]),
                        ));
                        assert(self@.adjacency[i as int] =~= before[i as int] + to_j.take(k + 1));
                        assert(self@.adjacency[j as int] =~= before[j as int] + to_i.take(k + 1));
                    }
                    k += 1;
                }
                proof {
                    assert(to_j.take(weights.len() as int) =~= to_j);
                    assert(to_i.take(weights.len() as int) =~= to_i);
                    assert forall|x: int| 0 <= x < n implies #[trigger] self@.adjacency[x]
                        == row_edges(
                        attrs,
                        cats,
                        policy,
                        x,
                        partners_done(x, i as int, j + 1, n as int),
                    ) by {
                        if x == i as int {
                            assert(before[x] == row_edges(attrs, cats, policy, x, j as nat));
                        } else if x == j as int {
                            assert(before[x] == row_edges(attrs, cats, policy, x, i as nat));
                        } else {
                            assert(self@.adjacency[x] == before[x]);
                        }
                    }
                }
                j += 1;
            }
            i += 1;
        }
        proof {
            assert(self@.adjacency =~= m.with_shared_links(policy).adjacency);
            assert(self@ =~= m.with_shared_links(policy));
        }
    }

    /// Builds the graph of a list of records. Each record with an identifier and a positive
    /// attribute contributes an entity with its attribute and its categories; then every
    /// pair of entities that share a category is joined under `policy`.
    pub fn build(records: &Vec<Record>, policy: EdgeWeight) -> (g: Graph)
        ensures
            g.wf(),
            g@ == GraphModel::built(rows(records@), policy),
    {
        let mut g = Graph::new();
        let ghost input = rows(records@);
        let mut i: usize = 0;
        assert(input.take(0) =~= Seq::empty());
        while i < records.len()
            invariant
                g.wf(),
                input == rows(records@),
                i <= records.len(),
                g@ == GraphModel::empty().with_records(input.take(i as int)),
                forall|x: int| 0 <= x < g@.adjacency.len() ==> (#[trigger] g@.adjacency[x]).len() == 0,
            decreases records.len() - i,
        {
            proof {
                assert(input.take(i + 1).drop_last() =~= input.take(i as int));
                assert(input.take(i + 1).last() == records[i as int]@);
            }
            g.insert_record(&records[i]);
            i += 1;
        }
        assert(input.take(records.len() as int) =~= input);
        g.connect_shared(policy);
        g
    }

    /// Records an edge of weight `weight` between two nodes at both ends. Nothing changes
    /// if the graph lacks one of the nodes.
    pub fn add_edge(&mut self, a: usize, b: usize, weight: u64)
        requires
            old(self).wf(),
        ensures
            final(self).wf(),
            final(self)@ == (if a < old(self)@.names.len() && b < old(self)@.names.len() {
                old(self)@.with_edge(a, b, weight)
            } else {
                old(self)@
            }),
    {
        if a < self.names.len() && b < self.names.len() {
            self.edges[a].push((b, weight));
            self.edges[b].push((a, weight));
            assert(self@ =~= old(self)@.with_edge(a, b, weight));
            proof {
                lemma_linked_keeps_shape(old(self)@.adjacency, a, b, weight);
            }
        }
    }
}

/// The number of entries of a table that hold nothing yet.
pub open spec fn unmarked(table: Seq<Option<usize>>) -> nat
    decreases table.len(),
{
    if table.len() == 0 {
        0
    } else {
        unmarked(table.drop_last()) + if table.last() is None {
            1nat
        } else {
            0nat
        }
    }
}

/// Filling an empty entry leaves one empty entry less.
pub proof fn lemma_unmarked_update(table: Seq<Option<usize>>, i: int, d: usize)
    requires
        0 <= i < table.len(),
        table[i] is None,
    ensures
        unmarked(table.update(i, Some(d))) == unmarked(table) - 1,
    decreases table.len(),
{
    let after = table.update(i, Some(d));
    if i == table.len() - 1 {
        assert(after.drop_last() =~= table.drop_last());
    } else {
        assert(after.drop_last() =~= table.drop_last().update(i, Some(d)));
        lemma_unmarked_update(table.drop_last(), i, d);
    }
}

/// Recording an edge at both ends keeps targets in range and the lists symmetric.
pub proof fn lemma_linked_keeps_shape(adj: Adjacency, a: usize, b: usize, w: u64)
    requires
        links_in_range(adj),
        undirected(adj),
        a < adj.len(),
        b < adj.len(),
    ensures
        links_in_range(linked(adj, a, b, w)),
        undirected(linked(adj, a, b, w)),
{
    let both = linked(adj, a, b, w);
    let at_b: int = if a == b { adj[a as int].len() as int + 1 } else { adj[b as int].len() as int };
    assert(both[b as int][at_b] == (a, w));
    assert(both[a as int][adj[a as int].len() as int] == (b, w));
    assert forall|u: int, k: int| 0 <= u < both.len() && 0 <= k < both[u].len() implies (
    #[trigger] both[u][k]).0 < both.len() && both[both[u][k].0 as int].contains(
        (u as usize, both[u][k].1),
    ) by {
        let e = both[u][k];
        if k < adj[u].len() {
            assert(e == adj[u][k]);
            let t = e.0 as int;
            let i = choose|i: int| 0 <= i < adj[t].len() && adj[t][i] == (u as usize, e.1);
            assert(both[t][i] == (u as usize, e.1));
        } else if u == a && k == adj[u].len() {
            assert(e == (b, w));
        } else {
            assert(u == b);
            assert(e == (a, w));
        }
    }
}

} // verus!
