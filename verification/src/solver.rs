use vstd::hash_map::StringHashMap;
use vstd::prelude::*;

verus! {

/// The character sequences of a list of names.
pub open spec fn name_views(v: Seq<String>) -> Seq<Seq<char>> {
    v.map_values(|s: String| s@)
}

/// `ids` and `names` describe the same interning: `names[i]` has id `i`,
/// and every id in the map points back to its name.
pub open spec fn table_ok(ids: Map<Seq<char>, usize>, names: Seq<Seq<char>>) -> bool {
    &&& forall|i: int|
        0 <= i < names.len() ==> ids.contains_key(#[trigger] names[i]) && ids[names[i]] == i
    &&& forall|s: Seq<char>|
        #[trigger] ids.contains_key(s) ==> ids[s] < names.len() && names[ids[s] as int] == s
}

/// Each name of `s` once, in the order of its first occurrence.
pub open spec fn first_occurrences(s: Seq<Seq<char>>) -> Seq<Seq<char>>
    decreases s.len(),
{
    if s.len() == 0 {
        s
    } else {
        let r = first_occurrences(s.drop_last());
        if r.contains(s.last()) {
            r
        } else {
            r.push(s.last())
        }
    }
}

/// The endpoint names of a list of links, tail before head, link by link.
pub open spec fn endpoint_names(ends: Seq<(String, String)>) -> Seq<Seq<char>>
    decreases ends.len(),
{
    if ends.len() == 0 {
        Seq::empty()
    } else {
        endpoint_names(ends.drop_last()) + seq![ends.last().0@, ends.last().1@]
    }
}

/// Link `k` runs from the node named `ends[k].0` to the node named
/// `ends[k].1`.
pub open spec fn ends_named(
    names: Seq<Seq<char>>,
    tails: Seq<usize>,
    heads: Seq<usize>,
    ends: Seq<(String, String)>,
) -> bool {
    &&& tails.len() == ends.len()
    &&& heads.len() == ends.len()
    &&& forall|k: int|
        0 <= k < ends.len() ==> {
            &&& #[trigger] tails[k] < names.len()
            &&& heads[k] < names.len()
            &&& names[tails[k] as int] == ends[k].0@
            &&& names[heads[k] as int] == ends[k].1@
        }
}

/// The links among the first `m` whose head is node `j`, in increasing order.
pub open spec fn links_into(to: Seq<usize>, j: usize, m: int) -> Seq<usize>
    decreases m,
{
    if m <= 0 {
        Seq::empty()
    } else {
        let r = links_into(to, j, m - 1);
        if to[m - 1] == j {
            r.push((m - 1) as usize)
        } else {
            r
        }
    }
}

/// Under a consistent table, a name is known to the map exactly when it is
/// in the list.
proof fn lemma_table_contains(ids: Map<Seq<char>, usize>, names: Seq<Seq<char>>, x: Seq<char>)
    requires
        table_ok(ids, names),
    ensures
        names.contains(x) == ids.contains_key(x),
{
    if ids.contains_key(x) {
        assert(names[ids[x] as int] == x);
    }
}

/// Interning keeps the ids dense and each name once.
pub proof fn lemma_table_distinct(ids: Map<Seq<char>, usize>, names: Seq<Seq<char>>)
    requires
        table_ok(ids, names),
    ensures
        names.no_duplicates(),
{
    assert forall|a: int, b: int| 0 <= a < names.len() && 0 <= b < names.len() && a != b implies names[a]
        != names[b] by {
        assert(ids[names[a]] == a);
        assert(ids[names[b]] == b);
    }
}

/// What one interning does: a known name keeps its id and changes nothing;
/// a new name gets the next id and is appended.
pub open spec fn intern_effect(
    ids0: Map<Seq<char>, usize>,
    names0: Seq<Seq<char>>,
    ids1: Map<Seq<char>, usize>,
    names1: Seq<Seq<char>>,
    name: Seq<char>,
    id: usize,
) -> bool {
    &&& table_ok(ids0, names0) ==> table_ok(ids1, names1)
    &&& ids0.contains_key(name) ==> {
        &&& id == ids0[name]
        &&& ids1 == ids0
        &&& names1 == names0
    }
    &&& !ids0.contains_key(name) ==> {
        &&& id == names0.len()
        &&& ids1 == ids0.insert(name, id)
        &&& names1 == names0.push(name)
    }
}

/// Interning is idempotent: interning a name again gives the same id and
/// leaves the table as it was.
pub proof fn lemma_intern_idempotent(
    ids0: Map<Seq<char>, usize>,
    names0: Seq<Seq<char>>,
    ids1: Map<Seq<char>, usize>,
    names1: Seq<Seq<char>>,
    ids2: Map<Seq<char>, usize>,
    names2: Seq<Seq<char>>,
    name: Seq<char>,
    id1: usize,
    id2: usize,
)
    requires
        table_ok(ids0, names0),
        intern_effect(ids0, names0, ids1, names1, name, id1),
        intern_effect(ids1, names1, ids2, names2, name, id2),
    ensures
        id2 == id1,
        ids2 == ids1,
        names2 == names1,
        id1 < names1.len(),
        names1[id1 as int] == name,
{
    assert(ids1.contains_key(name));
}

/// The interning table stated by counts: as many ids as names, and name
/// `k` has id `k`.
pub open spec fn counted_table(ids: Map<Seq<char>, usize>, names: Seq<Seq<char>>) -> bool {
    &&& ids.dom().finite()
    &&& ids.len() == names.len()
    &&& forall|k: int| 0 <= k < names.len() ==> ids.contains_key(#[trigger] names[k]) && ids[names[k]] == k
}

/// A map with finitely many keys is a consistent interning table exactly
/// when it is one by counts.
pub proof fn lemma_counted_table(ids: Map<Seq<char>, usize>, names: Seq<Seq<char>>)
    requires
        ids.dom().finite(),
    ensures
        counted_table(ids, names) <==> table_ok(ids, names),
{
    let named = names.to_set();
    if counted_table(ids, names) {
        assert(names.no_duplicates()) by {
            assert forall|a: int, b: int| 0 <= a < names.len() && 0 <= b < names.len() && a != b implies names[a]
                != names[b] by {
                assert(ids[names[a]] == a);
                assert(ids[names[b]] == b);
            }
        }
        names.unique_seq_to_set();
        assert(named.subset_of(ids.dom())) by {
            assert forall|x: Seq<char>| named.contains(x) implies ids.dom().contains(x) by {
                let k = choose|k: int| 0 <= k < names.len() && names[k] == x;
                assert(ids.contains_key(names[k]));
            }
        }
        vstd::set_lib::lemma_subset_equality(named, ids.dom());
        assert forall|x: Seq<char>| #[trigger] ids.contains_key(x) implies ids[x] < names.len() && names[ids[x] as int]
            == x by {
            assert(named.contains(x));
            let k = choose|k: int| 0 <= k < names.len() && names[k] == x;
            assert(ids[names[k]] == k);
        }
    }
    if table_ok(ids, names) {
        lemma_table_distinct(ids, names);
        names.unique_seq_to_set();
        assert(named =~= ids.dom()) by {
            assert forall|x: Seq<char>| ids.dom().contains(x) implies named.contains(x) by {
                assert(names[ids[x] as int] == x);
            }
        }
    }
}

/// Interning keeps a counted table counted; the returned id is that of
/// `name`, and the old names stay a prefix of the new ones.
pub proof fn lemma_intern_keeps_table(
    ids0: Map<Seq<char>, usize>,
    names0: Seq<Seq<char>>,
    ids1: Map<Seq<char>, usize>,
    names1: Seq<Seq<char>>,
    name: Seq<char>,
    id: usize,
)
    requires
        counted_table(ids0, names0),
        intern_effect(ids0, names0, ids1, names1, name, id),
    ensures
        counted_table(ids1, names1),
        id < names1.len(),
        names1[id as int] == name,
        ids1[name] == id,
        names1.take(names0.len() as int) == names0,
{
    lemma_counted_table(ids0, names0);
    assert(ids1.dom().finite());
    lemma_counted_table(ids1, names1);
    assert(names1.take(names0.len() as int) =~= names0);
}

/// Every name of `s`, and nothing else, is in `first_occurrences(s)`.
pub proof fn lemma_first_occurrences_contains(s: Seq<Seq<char>>, x: Seq<char>)
    ensures
        first_occurrences(s).contains(x) == s.contains(x),
        first_occurrences(s).no_duplicates(),
    decreases s.len(),
{
    if s.len() > 0 {
        let d = s.drop_last();
        lemma_first_occurrences_contains(d, x);
        lemma_first_occurrences_contains(d, s.last());
        let r = first_occurrences(d);
        assert(s =~= d.push(s.last()));
        if d.contains(x) {
            let w = choose|w: int| 0 <= w < d.len() && d[w] == x;
            assert(s[w] == x);
        }
        if s.contains(x) && x != s.last() {
            let w = choose|w: int| 0 <= w < s.len() && s[w] == x;
            assert(d[w] == x);
        }
        if !r.contains(s.last()) {
            let r2 = r.push(s.last());
            if r2.contains(x) {
                let w = choose|w: int| 0 <= w < r2.len() && r2[w] == x;
                if w < r.len() {
                    assert(r[w] == x);
                }
            }
            if r.contains(x) {
                let w = choose|w: int| 0 <= w < r.len() && r[w] == x;
                assert(r2[w] == x);
            }
            assert(r2[r.len() as int] == s.last());
        }
    }
}

/// Names are numbered in order of first appearance: what the first names
/// of a list get, a longer list gives them too. In particular the stops,
/// interned first, hold the lowest ids.
pub proof fn lemma_first_occurrences_prefix(a: Seq<Seq<char>>, b: Seq<Seq<char>>)
    ensures
        first_occurrences(a).len() <= first_occurrences(a + b).len(),
        first_occurrences(a + b).take(first_occurrences(a).len() as int) == first_occurrences(a),
    decreases b.len(),
{
    if b.len() == 0 {
        assert(a + b =~= a);
        assert(first_occurrences(a).take(first_occurrences(a).len() as int) =~= first_occurrences(a));
    } else {
        let b0 = b.drop_last();
        lemma_first_occurrences_prefix(a, b0);
        assert((a + b).drop_last() =~= a + b0);
        let r = first_occurrences(a + b0);
        let n = first_occurrences(a).len() as int;
        if !r.contains((a + b).last()) {
            assert(r.push((a + b).last()).take(n) =~= r.take(n));
        }
    }
}

/// A list without repeated names is its own list of first occurrences.
pub proof fn lemma_first_occurrences_distinct(s: Seq<Seq<char>>)
    requires
        s.no_duplicates(),
    ensures
        first_occurrences(s) == s,
    decreases s.len(),
{
    if s.len() > 0 {
        let d = s.drop_last();
        assert forall|a: int, b: int| 0 <= a < d.len() && 0 <= b < d.len() && a != b implies d[a] != d[b] by {
            assert(s[a] != s[b]);
        }
        lemma_first_occurrences_distinct(d);
        if d.contains(s.last()) {
            let w = choose|w: int| 0 <= w < d.len() && d[w] == s.last();
            assert(s[w] == s[s.len() - 1]);
        }
        assert(d.push(s.last()) =~= s);
    }
}

/// The result that looking up `name` among the node names `names` gives.
pub open spec fn index_result(names: Seq<Seq<char>>, name: Seq<char>, r: Option<usize>) -> bool {
    match r {
        Some(id) => id < names.len() && names[id as int] == name,
        None => !names.contains(name),
    }
}

/// `links_into` lists each link entering node `j` once, and no other link.
pub proof fn lemma_links_into(to: Seq<usize>, j: usize, m: int, k: int)
    requires
        0 <= m <= to.len(),
        to.len() <= usize::MAX,
    ensures
        links_into(to, j, m).no_duplicates(),
        forall|x: int| 0 <= x < links_into(to, j, m).len() ==> #[trigger] links_into(to, j, m)[x] < m,
        0 <= k < m ==> (links_into(to, j, m).contains(k as usize) <==> to[k] == j),
    decreases m,
{
    if m > 0 {
        lemma_links_into(to, j, m - 1, k);
        let r = links_into(to, j, m - 1);
        if to[m - 1] == j {
            let r2 = r.push((m - 1) as usize);
            assert(r2[r.len() as int] == (m - 1) as usize);
            if 0 <= k < m - 1 && r.contains(k as usize) {
                let w = choose|w: int| 0 <= w < r.len() && r[w] == k as usize;
                assert(r2[w] == k as usize);
            }
            if 0 <= k < m - 1 && r2.contains(k as usize) {
                let w = choose|w: int| 0 <= w < r2.len() && r2[w] == k as usize;
                assert(w < r.len());
                assert(r[w] == k as usize);
            }
        }
    }
}

/// Returns the id of `name`, giving it the next free id when it is new.
pub fn intern(name: &str, n_id: &mut StringHashMap<usize>, n_name: &mut Vec<String>) -> (id: usize)
    ensures
        intern_effect(
            old(n_id)@,
            name_views(old(n_name)@),
            final(n_id)@,
            name_views(final(n_name)@),
            name@,
            id,
        ),
        old(n_id)@.contains_key(name@) ==> final(n_name)@ == old(n_name)@,
{
    broadcast use vstd::string::to_string_from_display_ensures_for_str;

    if let Some(id) = n_id.get(name) {
        return *id;
    }
    let id = n_name.len();
    n_id.insert(name.to_string(), id);
    n_name.push(name.to_string());
    proof {
        let old_names = name_views(old(n_name)@);
        let new_names = name_views(n_name@);
        assert(new_names =~= old_names.push(name@));
        if table_ok(old(n_id)@, old_names) {
        assert forall|s: Seq<char>| #[trigger] n_id@.contains_key(s) implies n_id@[s] < new_names.len()
            && new_names[n_id@[s] as int] == s by {
            if s != name@ {
                assert(old(n_id)@.contains_key(s));
            }
        }
        assert forall|i: int| 0 <= i < new_names.len() implies n_id@.contains_key(
            #[trigger] new_names[i],
        ) && n_id@[new_names[i]] == i by {
            if i < old_names.len() {
                assert(old(n_id)@.contains_key(old_names[i]));
                assert(old_names[i] != name@);
            }
        }
        }
    }
    id
}

/// Empties every column of a per-destination table, keeping the columns and
/// their buffers.
pub fn clear_columns<V>(cols: &mut Vec<Vec<(usize, V)>>)
    ensures
        final(cols)@.len() == old(cols)@.len(),
        forall|j: int| 0 <= j < old(cols)@.len() ==> (#[trigger] final(cols)@[j])@.len() == 0,
{
    let n = cols.len();
    let mut j: usize = 0;
    while j < n
        invariant
            j <= n,
            n == old(cols)@.len(),
            cols@.len() == n,
            forall|q: int| 0 <= q < j ==> (#[trigger] cols@[q])@.len() == 0,
        decreases n - j,
    {
        cols[j].clear();
        j += 1;
    }
}

/// Graph is an immutable, interned transit network (integer arena): node
/// names get dense ids, each link is the pair of its end node ids, and the
/// links entering each node are listed once. Each link carries a payload of
/// type `W` (its costs), which the arena stores but never reads.
pub struct Graph<W> {
    n_name: Vec<String>,
    n_id: StringHashMap<usize>,
    n: usize,
    m: usize,
    from: Vec<usize>,
    to: Vec<usize>,
    data: Vec<W>,
    adj_by_to: Vec<Vec<usize>>,
}

impl<W> Graph<W> {
    /// The arena is consistent: the name table is an interning, link ends
    /// are nodes, and each node lists exactly the links entering it.
    pub closed spec fn wf(&self) -> bool {
        &&& table_ok(self.n_id@, name_views(self.n_name@))
        &&& self.n == self.n_name@.len()
        &&& self.m == self.from@.len()
        &&& self.m == self.to@.len()
        &&& self.m == self.data@.len()
        &&& forall|k: int| 0 <= k < self.m ==> #[trigger] self.from@[k] < self.n && self.to@[k] < self.n
        &&& self.adj_by_to@.len() == self.n
        &&& forall|j: int|
            0 <= j < self.n ==> (#[trigger] self.adj_by_to@[j])@ == links_into(self.to@, j as usize, self.m as int)
    }

    /// Node names by id.
    pub closed spec fn names(&self) -> Seq<Seq<char>> {
        name_views(self.n_name@)
    }

    /// Tail node of each link.
    pub closed spec fn tails(&self) -> Seq<usize> {
        self.from@
    }

    /// Head node of each link.
    pub closed spec fn heads(&self) -> Seq<usize> {
        self.to@
    }

    /// Payload of each link.
    pub closed spec fn payloads(&self) -> Seq<W> {
        self.data@
    }

    /// Links entering node `j`, in increasing order.
    pub closed spec fn incoming(&self, j: int) -> Seq<usize> {
        self.adj_by_to@[j]@
    }

    /// What holds of every graph: node names are distinct, link ends are
    /// nodes, and `incoming(j)` lists exactly the links whose head is `j`.
    pub proof fn lemma_shape(&self)
        requires
            self.wf(),
        ensures
            self.names().no_duplicates(),
            self.tails().len() == self.heads().len(),
            self.payloads().len() == self.heads().len(),
            forall|k: int|
                0 <= k < self.heads().len() ==> #[trigger] self.tails()[k] < self.names().len()
                    && self.heads()[k] < self.names().len(),
            forall|j: int|
                0 <= j < self.names().len() ==> #[trigger] self.incoming(j) == links_into(
                    self.heads(),
                    j as usize,
                    self.heads().len() as int,
                ),
    {
        lemma_table_distinct(self.n_id@, self.names());
        assert(self.names().len() == self.n);
        assert forall|k: int| 0 <= k < self.heads().len() implies #[trigger] self.tails()[k]
            < self.names().len() && self.heads()[k] < self.names().len() by {
            assert(self.from@[k] < self.n);
        }
    }

    /// Stops are interned first: with distinct stop names, stop `i` gets id
    /// `i`, whatever the links are.
    pub proof fn lemma_stop_ids(&self, stops: Seq<String>, ends: Seq<(String, String)>)
        requires
            self.names() == first_occurrences(name_views(stops) + endpoint_names(ends)),
            name_views(stops).no_duplicates(),
        ensures
            stops.len() <= self.names().len(),
            forall|i: int| 0 <= i < stops.len() ==> #[trigger] self.names()[i] == stops[i]@,
    {
        let sv = name_views(stops);
        lemma_first_occurrences_prefix(sv, endpoint_names(ends));
        lemma_first_occurrences_distinct(sv);
        assert forall|i: int| 0 <= i < stops.len() implies #[trigger] self.names()[i] == stops[i]@ by {
            assert(self.names().take(sv.len() as int)[i] == sv[i]);
        }
    }

    /// Looking a node up by its own name gives its id back.
    pub proof fn lemma_index_of_name(&self, id: int, r: Option<usize>)
        requires
            self.wf(),
            0 <= id < self.names().len(),
            index_result(self.names(), self.names()[id], r),
        ensures
            r == Some(id as usize),
    {
        self.lemma_shape();
        match r {
            Some(_) => {},
            None => {
                assert(self.names().contains(self.names()[id]));
            },
        }
    }

    /// Interns the network once. `all_stops` is interned first, so node ids
    /// `[0, number of distinct stops)` are the stop nodes; any link endpoint
    /// outside `all_stops` is appended after. Link `k` runs from `ends[k].0`
    /// to `ends[k].1` and carries `data[k]`.
    #[verifier::spinoff_prover]
    pub fn new(all_stops: &Vec<String>, ends: &Vec<(String, String)>, data: Vec<W>) -> (g: Graph<W>)
        requires
            ends@.len() == data@.len(),
        ensures
            g.wf(),
            g.names() == first_occurrences(name_views(all_stops@) + endpoint_names(ends@)),
            g.heads().len() == ends@.len(),
            g.payloads() == data@,
            ends_named(g.names(), g.tails(), g.heads(), ends@),
            forall|j: int|
                0 <= j < g.names().len() ==> #[trigger] g.incoming(j) == links_into(
                    g.heads(),
                    j as usize,
                    ends@.len() as int,
                ),
    {
        let mut n_id: StringHashMap<usize> = StringHashMap::with_capacity(all_stops.len());
        let mut n_name: Vec<String> = Vec::with_capacity(all_stops.len());
        let ghost stops = name_views(all_stops@);
        let mut i: usize = 0;
        while i < all_stops.len()
            invariant
                i <= all_stops@.len(),
                stops == name_views(all_stops@),
                table_ok(n_id@, name_views(n_name@)),
                name_views(n_name@) == first_occurrences(stops.take(i as int)),
            decreases all_stops@.len() - i,
        {
            proof {
                lemma_table_contains(n_id@, name_views(n_name@), all_stops@[i as int]@);
            }
            intern(all_stops[i].as_str(), &mut n_id, &mut n_name);
            proof {
                assert(stops.take(i + 1).drop_last() =~= stops.take(i as int));
                assert(stops.take(i + 1).last() == all_stops@[i as int]@);
            }
            i += 1;
        }
        proof {
            assert(stops.take(all_stops@.len() as int) =~= stops);
        }
        let m = ends.len();
        let mut from: Vec<usize> = Vec::with_capacity(m);
        let mut to: Vec<usize> = Vec::with_capacity(m);
        let mut k: usize = 0;
        while k < m
            invariant
                k <= m,
                m == ends@.len(),
                stops == name_views(all_stops@),
                table_ok(n_id@, name_views(n_name@)),
                name_views(n_name@) == first_occurrences(stops + endpoint_names(ends@.take(k as int))),
                from@.len() == k,
                to@.len() == k,
                forall|q: int|
                    0 <= q < k ==> {
                        &&& #[trigger] from@[q] < n_name@.len()
                        &&& to@[q] < n_name@.len()
                        &&& name_views(n_name@)[from@[q] as int] == ends@[q].0@
                        &&& name_views(n_name@)[to@[q] as int] == ends@[q].1@
                    },
            decreases m - k,
        {
            let ghost names0 = name_views(n_name@);
            let ghost pre = stops + endpoint_names(ends@.take(k as int));
            let ghost a = ends@[k as int].0@;
            let ghost b = ends@[k as int].1@;
            proof {
                lemma_table_contains(n_id@, names0, a);
            }
            let f = intern(ends[k].0.as_str(), &mut n_id, &mut n_name);
            let ghost names1 = name_views(n_name@);
            proof {
                lemma_table_contains(n_id@, names1, b);
                assert(pre.push(a).drop_last() =~= pre);
                assert(names1 == first_occurrences(pre.push(a)));
            }
            let t = intern(ends[k].1.as_str(), &mut n_id, &mut n_name);
            proof {
                let names2 = name_views(n_name@);
                assert(ends@.take(k + 1).drop_last() =~= ends@.take(k as int));
                assert(stops + endpoint_names(ends@.take(k + 1)) =~= pre.push(a).push(b));
                assert(pre.push(a).push(b).drop_last() =~= pre.push(a));
                assert(names2 == first_occurrences(pre.push(a).push(b)));
                assert(f < names1.len() && names1[f as int] == a);
                assert(t < names2.len() && names2[t as int] == b);
                assert(names2[f as int] == a);
                assert forall|q: int| 0 <= q < k implies {
                    &&& #[trigger] from@[q] < n_name@.len()
                    &&& to@[q] < n_name@.len()
                    &&& names2[from@[q] as int] == ends@[q].0@
                    &&& names2[to@[q] as int] == ends@[q].1@
                } by {
                    assert(names1[from@[q] as int] == names0[from@[q] as int]);
                    assert(names1[to@[q] as int] == names0[to@[q] as int]);
                }
            }
            from.push(f);
            to.push(t);
            k += 1;
        }
        proof {
            assert(ends@.take(m as int) =~= ends@);
        }
        let n = n_name.len();
        proof {
            assert forall|q: int| 0 <= q < m implies #[trigger] to@[q] < n by {
                assert(from@[q] < n_name@.len());
            }
        }
        let mut adj_by_to: Vec<Vec<usize>> = Vec::new();
        let mut j: usize = 0;
        while j < n
            invariant
                j <= n,
                adj_by_to@.len() == j,
                forall|q: int| 0 <= q < j ==> (#[trigger] adj_by_to@[q])@.len() == 0,
            decreases n - j,
        {
            adj_by_to.push(Vec::new());
            j += 1;
        }
        let mut k: usize = 0;
        while k < m
            invariant
                k <= m,
                m == to@.len(),
                n == adj_by_to@.len(),
                forall|q: int| 0 <= q < m ==> #[trigger] to@[q] < n,
                forall|q: int|
                    0 <= q < n ==> (#[trigger] adj_by_to@[q])@ == links_into(to@, q as usize, k as int),
            decreases m - k,
        {
            adj_by_to[to[k]].push(k);
            k += 1;
        }
        let g = Graph { n_name, n_id, n, m, from, to, data, adj_by_to };
        proof {
            assert forall|k: int| 0 <= k < ends@.len() implies {
                &&& #[trigger] g.tails()[k] < g.names().len()
                &&& g.heads()[k] < g.names().len()
                &&& g.names()[g.tails()[k] as int] == ends@[k].0@
                &&& g.names()[g.heads()[k] as int] == ends@[k].1@
            } by {
                assert(g.from@[k] < g.n_name@.len());
            }
            assert(ends_named(g.names(), g.tails(), g.heads(), ends@));
        }
        g
    }

    /// Number of nodes (size demand buffers with this).
    pub fn num_nodes(&self) -> (n: usize)
        requires
            self.wf(),
        ensures
            n == self.names().len(),
    {
        self.n
    }

    /// Number of links.
    pub fn num_links(&self) -> (m: usize)
        requires
            self.wf(),
        ensures
            m == self.heads().len(),
    {
        self.m
    }

    /// Arena index of a node name, or `None` if unknown.
    pub fn node_index(&self, name: &str) -> (r: Option<usize>)
        requires
            self.wf(),
        ensures
            index_result(self.names(), name@, r),
    {
        proof {
            lemma_table_contains(self.n_id@, self.names(), name@);
        }
        match self.n_id.get(name) {
            Some(id) => Some(*id),
            None => None,
        }
    }

    /// Name of an arena node index.
    pub fn node_name(&self, id: usize) -> (s: &str)
        requires
            self.wf(),
            id < self.names().len(),
        ensures
            s@ == self.names()[id as int],
    {
        self.n_name[id].as_str()
    }

    /// Tail node of link `k`.
    pub fn link_from(&self, k: usize) -> (i: usize)
        requires
            self.wf(),
            k < self.heads().len(),
        ensures
            i == self.tails()[k as int],
    {
        self.from[k]
    }

    /// Head node of link `k`.
    pub fn link_to(&self, k: usize) -> (j: usize)
        requires
            self.wf(),
            k < self.heads().len(),
        ensures
            j == self.heads()[k as int],
    {
        self.to[k]
    }

    /// Payload of link `k`.
    pub fn link_payload(&self, k: usize) -> (w: &W)
        requires
            self.wf(),
            k < self.heads().len(),
        ensures
            *w == self.payloads()[k as int],
    {
        &self.data[k]
    }

    /// Files one origin-destination entry under its destination: when
    /// `dest` names a node, `(origin, amount)` is appended to the column of
    /// that node; otherwise no column changes.
    pub fn route_to_destination<V>(
        &self,
        origin: usize,
        dest: &str,
        amount: V,
        cols: &mut Vec<Vec<(usize, V)>>,
    )
        requires
            self.wf(),
            old(cols)@.len() == self.names().len(),
        ensures
            final(cols)@.len() == old(cols)@.len(),
            forall|j: int|
                0 <= j < old(cols)@.len() ==> (#[trigger] final(cols)@[j])@ == if self.names()[j] == dest@ {
                    old(cols)@[j]@.push((origin, amount))
                } else {
                    old(cols)@[j]@
                },
    {
        proof {
            self.lemma_shape();
        }
        match self.node_index(dest) {
            Some(did) => {
                cols[did].push((origin, amount));
                proof {
                    assert forall|j: int| 0 <= j < old(cols)@.len() && j != did implies self.names()[j]
                        != dest@ by {
                        assert(self.names()[did as int] == dest@);
                    }
                }
            },
            None => {
                proof {
                    assert forall|j: int| 0 <= j < old(cols)@.len() implies self.names()[j] != dest@ by {
                        if self.names()[j] == dest@ {
                            assert(self.names().contains(dest@));
                        }
                    }
                }
            },
        }
    }

    /// The links entering node `j`, in increasing order.
    pub fn incoming_links(&self, j: usize) -> (ks: &Vec<usize>)
        requires
            self.wf(),
            j < self.names().len(),
        ensures
            ks@ == self.incoming(j as int),
    {
        &self.adj_by_to[j]
    }
}

} // verus!
