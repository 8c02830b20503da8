use vstd::prelude::*;
use crate::dag::Dag;
use crate::global_dag::lemma_push_contains;

verus! {

/// The eight little-endian bytes of `x`.
pub open spec fn le64(x: u64) -> Seq<u8> {
    seq![
        x as u8,
        (x >> 8u64) as u8,
        (x >> 16u64) as u8,
        (x >> 24u64) as u8,
        (x >> 32u64) as u8,
        (x >> 40u64) as u8,
        (x >> 48u64) as u8,
        (x >> 56u64) as u8,
    ]
}

/// The two little-endian bytes of `x`.
pub open spec fn le16(x: u16) -> Seq<u8> {
    seq![x as u8, (x >> 8u16) as u8]
}

/// The ids one after the other, two bytes each.
pub open spec fn ids_bytes(ids: Seq<u16>) -> Seq<u8>
    decreases ids.len(),
{
    if ids.len() == 0 {
        Seq::empty()
    } else {
        ids_bytes(ids.drop_last()) + le16(ids.last())
    }
}

/// A list of ids as a record on the wire: its length in eight bytes, then the ids.
pub open spec fn id_record_bytes(ids: Seq<u16>) -> Seq<u8> {
    le64(ids.len() as u64) + ids_bytes(ids)
}

/// Relies on bincode::serialize, whose default options write integers in fixed
/// width, little endian, and a sequence as its length (a u64) then its items:
/// the record of a list of ids.
#[verifier::external_body]
fn encode_ids(ids: &Vec<u16>) -> (r: Vec<u8>)
    ensures
        r@ == id_record_bytes(ids@),
{
    match bincode::serialize(ids) {
        Ok(bytes) => bytes,
        Err(_) => Vec::new(),
    }
}

/// Relies on bincode::deserialize into a `Vec<u16>` with the same default
/// options: a decoded list is the one whose record starts the bytes, and the
/// exact record of a list decodes to that list.
#[verifier::external_body]
fn decode_ids(bytes: &Vec<u8>) -> (r: Option<Vec<u16>>)
    ensures
        r matches Some(v) ==> id_record_bytes(v@).len() <= bytes@.len() && bytes@.take(
            id_record_bytes(v@).len() as int,
        ) == id_record_bytes(v@),
        r is None ==> forall|ids: Seq<u16>| #[trigger] id_record_bytes(ids) != bytes@,
{
    bincode::deserialize::<Vec<u16>>(bytes).ok()
}

proof fn lemma_ids_bytes_len(a: Seq<u16>)
    ensures
        ids_bytes(a).len() == 2 * a.len(),
    decreases a.len(),
{
    if a.len() > 0 {
        lemma_ids_bytes_len(a.drop_last());
    }
}

proof fn lemma_ids_bytes_injective(a: Seq<u16>, b: Seq<u16>)
    requires
        a.len() == b.len(),
        ids_bytes(a) == ids_bytes(b),
    ensures
        a == b,
    decreases a.len(),
{
    if a.len() > 0 {
        let pa = ids_bytes(a.drop_last());
        let pb = ids_bytes(b.drop_last());
        lemma_ids_bytes_len(a.drop_last());
        lemma_ids_bytes_len(b.drop_last());
        let n = pa.len() as int;
        assert(ids_bytes(a)[n] == le16(a.last())[0]);
        assert(ids_bytes(b)[n] == le16(b.last())[0]);
        assert(ids_bytes(a)[n + 1] == le16(a.last())[1]);
        assert(ids_bytes(b)[n + 1] == le16(b.last())[1]);
        let x = a.last();
        let y = b.last();
        assert((x as u8) == (y as u8) && ((x >> 8u16) as u8) == ((y >> 8u16) as u8) ==> x == y) by (bit_vector);
        assert(pa =~= ids_bytes(a).take(n));
        assert(pb =~= ids_bytes(b).take(n));
        lemma_ids_bytes_injective(a.drop_last(), b.drop_last());
        assert(a =~= a.drop_last().push(x));
        assert(b =~= b.drop_last().push(y));
    }
}

/// A record that starts the exact record of `b` is that record.
proof fn lemma_record_injective(a: Seq<u16>, b: Seq<u16>, bytes: Seq<u8>)
    requires
        id_record_bytes(a).len() <= bytes.len(),
        bytes.take(id_record_bytes(a).len() as int) == id_record_bytes(a),
        id_record_bytes(b) == bytes,
        bytes.len() <= usize::MAX,
    ensures
        a == b,
{
    lemma_ids_bytes_len(a);
    lemma_ids_bytes_len(b);
    let la = a.len() as u64;
    let lb = b.len() as u64;
    assert forall|k: int| 0 <= k < 8 implies le64(la)[k] == le64(lb)[k] by {
        assert(id_record_bytes(a)[k] == bytes[k]);
        assert(id_record_bytes(b)[k] == bytes[k]);
    }
    round_trailer_round_trip(lb);
    assert(le64(la) =~= le64(lb));
    assert(a.len() == b.len());
    assert(id_record_bytes(a) =~= id_record_bytes(b));
    assert(ids_bytes(a) =~= id_record_bytes(a).subrange(8, id_record_bytes(a).len() as int));
    assert(ids_bytes(b) =~= id_record_bytes(b).subrange(8, id_record_bytes(b).len() as int));
    lemma_ids_bytes_injective(a, b);
}

/// The round as the eight-byte trailer of a batch.
pub fn round_to_bytes(round: u64) -> (r: Vec<u8>)
    ensures
        r@ == le64(round),
{
    let r: Vec<u8> = vec![
        round as u8,
        (round >> 8u64) as u8,
        (round >> 16u64) as u8,
        (round >> 24u64) as u8,
        (round >> 32u64) as u8,
        (round >> 40u64) as u8,
        (round >> 48u64) as u8,
        (round >> 56u64) as u8,
    ];
    assert(r@ =~= le64(round));
    r
}

/// The round held in an eight-byte trailer; none for any other length.
pub fn round_from_bytes(bytes: &Vec<u8>) -> (r: Option<u64>)
    ensures
        r is Some <==> bytes@.len() == 8,
        r matches Some(x) ==> le64(x) == bytes@,
{
    if bytes.len() != 8 {
        return None;
    }
    let b0 = bytes[0] as u64;
    let b1 = bytes[1] as u64;
    let b2 = bytes[2] as u64;
    let b3 = bytes[3] as u64;
    let b4 = bytes[4] as u64;
    let b5 = bytes[5] as u64;
    let b6 = bytes[6] as u64;
    let b7 = bytes[7] as u64;
    let x: u64 = b0 | (b1 << 8u64) | (b2 << 16u64) | (b3 << 24u64) | (b4 << 32u64) | (b5 << 40u64) | (b6 << 48u64) | (b7 << 56u64);
    assert(
        b0 < 256 && b1 < 256 && b2 < 256 && b3 < 256 && b4 < 256 && b5 < 256 && b6 < 256 && b7 < 256
        && x == b0 | (b1 << 8u64) | (b2 << 16u64) | (b3 << 24u64) | (b4 << 32u64) | (b5 << 40u64) | (b6 << 48u64) | (b7 << 56u64)
        ==> (x as u8) as u64 == b0 && ((x >> 8u64) as u8) as u64 == b1 && ((x >> 16u64) as u8) as u64 == b2
            && ((x >> 24u64) as u8) as u64 == b3 && ((x >> 32u64) as u8) as u64 == b4
            && ((x >> 40u64) as u8) as u64 == b5 && ((x >> 48u64) as u8) as u64 == b6
            && ((x >> 56u64) as u8) as u64 == b7
    ) by (bit_vector);
    assert(le64(x) =~= bytes@);
    Some(x)
}

/// The round written into a trailer is read back.
pub proof fn round_trailer_round_trip(round: u64)
    ensures
        forall|x: u64| le64(x) == le64(round) ==> x == round,
{
    assert forall|x: u64| le64(x) == le64(round) implies x == round by {
        assert(le64(x)[0] == le64(round)[0]);
        assert(le64(x)[1] == le64(round)[1]);
        assert(le64(x)[2] == le64(round)[2]);
        assert(le64(x)[3] == le64(round)[3]);
        assert(le64(x)[4] == le64(round)[4]);
        assert(le64(x)[5] == le64(round)[5]);
        assert(le64(x)[6] == le64(round)[6]);
        assert(le64(x)[7] == le64(round)[7]);
        assert(
            (x as u8) == (round as u8) && ((x >> 8u64) as u8) == ((round >> 8u64) as u8)
            && ((x >> 16u64) as u8) == ((round >> 16u64) as u8) && ((x >> 24u64) as u8) == ((round >> 24u64) as u8)
            && ((x >> 32u64) as u8) == ((round >> 32u64) as u8) && ((x >> 40u64) as u8) == ((round >> 40u64) as u8)
            && ((x >> 48u64) as u8) == ((round >> 48u64) as u8) && ((x >> 56u64) as u8) == ((round >> 56u64) as u8)
            ==> x == round
        ) by (bit_vector);
    }
}

/// The out-neighbours of `u` among `edges`, in edge order.
pub open spec fn successors(edges: Seq<(u16, u16)>, u: u16) -> Seq<u16>
    decreases edges.len(),
{
    if edges.len() == 0 {
        Seq::empty()
    } else if edges.last().0 == u {
        successors(edges.drop_last(), u).push(edges.last().1)
    } else {
        successors(edges.drop_last(), u)
    }
}

/// The adjacency record of node `u`: `u`, then its out-neighbours.
pub open spec fn adjacency_list(g: Dag, u: u16) -> Seq<u16> {
    seq![u] + successors(g.edges@, u)
}

/// The ids that start the lists.
pub open spec fn heads(lists: Seq<Seq<u16>>) -> Seq<u16> {
    lists.map_values(|l: Seq<u16>| l[0])
}

/// The edges an adjacency listing names: from each list's head to the rest of it.
pub open spec fn adjacency_edges(lists: Seq<Seq<u16>>) -> Seq<(u16, u16)>
    decreases lists.len(),
{
    if lists.len() == 0 {
        Seq::empty()
    } else {
        adjacency_edges(lists.drop_last()) + lists.last().drop_first().map_values(|t: u16| (lists.last()[0], t))
    }
}

/// The adjacency listing names a well-formed graph: every list has a head, heads
/// are distinct, no edge is named twice, and every edge ends at a head.
pub open spec fn adjacency_ok(lists: Seq<Seq<u16>>) -> bool {
    &&& forall|i: int| 0 <= i < lists.len() ==> (#[trigger] lists[i]).len() >= 1
    &&& heads(lists).no_duplicates()
    &&& adjacency_edges(lists).no_duplicates()
    &&& forall|t: int| 0 <= t < adjacency_edges(lists).len() ==> heads(lists).contains(#[trigger] adjacency_edges(lists)[t].1)
}

proof fn lemma_successors_contains(edges: Seq<(u16, u16)>, u: u16, v: u16)
    ensures
        successors(edges, u).contains(v) <==> edges.contains((u, v)),
    decreases edges.len(),
{
    if edges.len() > 0 {
        let init = edges.drop_last();
        lemma_successors_contains(init, u, v);
        lemma_push_contains(init, edges.last(), (u, v));
        assert(edges =~= init.push(edges.last()));
        if edges.last().0 == u {
            lemma_push_contains(successors(init, u), edges.last().1, v);
        }
    }
}

proof fn lemma_successors_distinct(edges: Seq<(u16, u16)>, u: u16)
    requires
        edges.no_duplicates(),
    ensures
        successors(edges, u).no_duplicates(),
    decreases edges.len(),
{
    if edges.len() > 0 {
        let init = edges.drop_last();
        assert(init.no_duplicates());
        lemma_successors_distinct(init, u);
        if edges.last().0 == u {
            let w = edges.last().1;
            let prev = successors(init, u);
            assert(!prev.contains(w)) by {
                lemma_successors_contains(init, u, w);
                if init.contains((u, w)) {
                    let t = choose|t: int| 0 <= t < init.len() && init[t] == (u, w);
                    assert(edges[t] == edges[edges.len() - 1]);
                }
            }
            assert forall|a: int, b: int| 0 <= a < b < prev.push(w).len() implies prev.push(w)[a] != prev.push(w)[b] by {
                if b == prev.len() {
                    assert(prev.contains(prev[a]));
                }
            }
        }
    }
}

/// The adjacency lists of a graph, one per node in node order.
pub open spec fn adjacency_lists(g: Dag) -> Seq<Seq<u16>> {
    Seq::new(g.nodes@.len(), |i: int| adjacency_list(g, g.nodes@[i]))
}

proof fn lemma_adjacency_edges_contains(lists: Seq<Seq<u16>>, a: u16, b: u16)
    requires
        forall|i: int| 0 <= i < lists.len() ==> (#[trigger] lists[i]).len() >= 1,
    ensures
        adjacency_edges(lists).contains((a, b)) <==> exists|i: int|
            #![trigger lists[i]]
            0 <= i < lists.len() && lists[i][0] == a && lists[i].drop_first().contains(b),
    decreases lists.len(),
{
    if lists.len() > 0 {
        let init = lists.drop_last();
        let last = lists.last();
        assert forall|i: int| 0 <= i < init.len() implies (#[trigger] init[i]).len() >= 1 by {
            assert(init[i] == lists[i]);
        }
        lemma_adjacency_edges_contains(init, a, b);
        let block = last.drop_first().map_values(|t: u16| (last[0], t));
        let all = adjacency_edges(lists);
        assert(all == adjacency_edges(init) + block);
        if all.contains((a, b)) {
            let t = choose|t: int| 0 <= t < all.len() && all[t] == (a, b);
            if t < adjacency_edges(init).len() {
                assert(adjacency_edges(init)[t] == (a, b));
                let i = choose|i: int| #![trigger init[i]] 0 <= i < init.len() && init[i][0] == a && init[i].drop_first().contains(b);
                assert(lists[i] == init[i]);
            } else {
                let q = t - adjacency_edges(init).len();
                assert(block[q] == (a, b));
                assert(last.drop_first()[q] == b);
                assert(lists[lists.len() - 1] == last);
                assert(last.drop_first().contains(b));
            }
        }
        if exists|i: int| #![trigger lists[i]] 0 <= i < lists.len() && lists[i][0] == a && lists[i].drop_first().contains(b) {
            let i = choose|i: int| #![trigger lists[i]] 0 <= i < lists.len() && lists[i][0] == a && lists[i].drop_first().contains(b);
            if i < init.len() {
                assert(init[i] == lists[i]);
                assert(adjacency_edges(init).contains((a, b)));
                let t = choose|t: int| 0 <= t < adjacency_edges(init).len() && adjacency_edges(init)[t] == (a, b);
                assert(all[t] == (a, b));
            } else {
                assert(lists[i] == last);
                let q = choose|q: int| 0 <= q < last.drop_first().len() && last.drop_first()[q] == b;
                assert(block[q] == (a, b));
                assert(all[adjacency_edges(init).len() + q] == (a, b));
            }
        }
    }
}

proof fn lemma_adjacency_edges_distinct(lists: Seq<Seq<u16>>)
    requires
        forall|i: int| 0 <= i < lists.len() ==> (#[trigger] lists[i]).len() >= 1,
        forall|i: int| 0 <= i < lists.len() ==> (#[trigger] lists[i]).drop_first().no_duplicates(),
        heads(lists).no_duplicates(),
    ensures
        adjacency_edges(lists).no_duplicates(),
    decreases lists.len(),
{
    if lists.len() > 0 {
        let init = lists.drop_last();
        let last = lists.last();
        assert(lists[lists.len() - 1] == last);
        assert forall|i: int| 0 <= i < init.len() implies (#[trigger] init[i]).len() >= 1 && init[i].drop_first().no_duplicates() by {
            assert(init[i] == lists[i]);
        }
        assert(heads(init).no_duplicates()) by {
            assert forall|x: int, y: int| 0 <= x < y < heads(init).len() implies heads(init)[x] != heads(init)[y] by {
                assert(heads(init)[x] == heads(lists)[x]);
                assert(heads(init)[y] == heads(lists)[y]);
            }
        }
        lemma_adjacency_edges_distinct(init);
        let prev = adjacency_edges(init);
        let block = last.drop_first().map_values(|t: u16| (last[0], t));
        assert(adjacency_edges(lists) == prev + block);
        assert forall|x: int, y: int| 0 <= x < y < (prev + block).len() implies (prev + block)[x] != (prev + block)[y] by {
            if y >= prev.len() {
                if x >= prev.len() {
                    assert(block[x - prev.len()].1 == last.drop_first()[x - prev.len()]);
                    assert(block[y - prev.len()].1 == last.drop_first()[y - prev.len()]);
                } else {
                    let e = prev[x];
                    assert(prev.contains(e));
                    lemma_adjacency_edges_contains(init, e.0, e.1);
                    let i = choose|i: int| #![trigger init[i]] 0 <= i < init.len() && init[i][0] == e.0 && init[i].drop_first().contains(e.1);
                    assert(heads(lists)[i] == init[i][0]);
                    assert(heads(lists)[lists.len() - 1] == last[0]);
                    assert(block[y - prev.len()].0 == last[0]);
                }
            }
        }
    }
}

/// The records a well-formed graph is sent as decode back to it: its adjacency
/// lists name a well-formed graph with the same nodes, in order, and the same edges.
pub proof fn adjacency_round_trip(g: Dag)
    requires
        g.wf(),
    ensures
        adjacency_ok(adjacency_lists(g)),
        heads(adjacency_lists(g)) == g.nodes@,
        forall|a: u16, b: u16| #[trigger] adjacency_edges(adjacency_lists(g)).contains((a, b)) <==> g.has_edge(a, b),
{
    let lists = adjacency_lists(g);
    assert forall|i: int| 0 <= i < lists.len() implies (#[trigger] lists[i]).len() >= 1 && lists[i][0] == g.nodes@[i]
        && lists[i].drop_first() == successors(g.edges@, g.nodes@[i]) by {
        assert(lists[i] == seq![g.nodes@[i]] + successors(g.edges@, g.nodes@[i]));
        assert(lists[i].drop_first() =~= successors(g.edges@, g.nodes@[i]));
    }
    assert(heads(lists) =~= g.nodes@);
    assert forall|i: int| 0 <= i < lists.len() implies (#[trigger] lists[i]).drop_first().no_duplicates() by {
        lemma_successors_distinct(g.edges@, g.nodes@[i]);
    }
    lemma_adjacency_edges_distinct(lists);
    assert forall|a: u16, b: u16| #[trigger] adjacency_edges(lists).contains((a, b)) <==> g.has_edge(a, b) by {
        lemma_adjacency_edges_contains(lists, a, b);
        lemma_successors_contains(g.edges@, a, b);
        if g.has_edge(a, b) {
            let t = choose|t: int| 0 <= t < g.edges@.len() && g.edges@[t] == (a, b);
            assert(g.has_node(g.edges@[t].0));
            let i = choose|i: int| 0 <= i < g.nodes@.len() && g.nodes@[i] == a;
            assert(lists[i][0] == a);
        }
        if adjacency_edges(lists).contains((a, b)) {
            let i = choose|i: int| #![trigger lists[i]] 0 <= i < lists.len() && lists[i][0] == a && lists[i].drop_first().contains(b);
            lemma_successors_contains(g.edges@, g.nodes@[i], b);
        }
    }
    let all = adjacency_edges(lists);
    assert forall|t: int| 0 <= t < all.len() implies heads(lists).contains(#[trigger] all[t].1) by {
        let (a, b) = all[t];
        assert(all.contains((a, b)));
        assert(g.has_edge(a, b));
        let s = choose|s: int| 0 <= s < g.edges@.len() && g.edges@[s] == (a, b);
        assert(g.has_node(g.edges@[s].1));
    }
}

/// The adjacency records of a graph, one per node in node order, each encoded
/// as a record of ids.
pub fn get_dag_serialized(dag: &Dag) -> (r: Vec<Vec<u8>>)
    ensures
        r@.len() == dag.nodes@.len(),
        forall|i: int| 0 <= i < r@.len() ==> (#[trigger] r@[i])@ == id_record_bytes(adjacency_list(*dag, dag.nodes@[i])),
{
    let mut r: Vec<Vec<u8>> = Vec::new();
    let mut i: usize = 0;
    while i < dag.nodes.len()
        invariant
            0 <= i <= dag.nodes@.len(),
            r@.len() == i,
            forall|j: int| 0 <= j < i ==> (#[trigger] r@[j])@ == id_record_bytes(adjacency_list(*dag, dag.nodes@[j])),
        decreases dag.nodes@.len() - i,
    {
        let u = dag.nodes[i];
        let mut list: Vec<u16> = Vec::new();
        list.push(u);
        let mut k: usize = 0;
        while k < dag.edges.len()
            invariant
                0 <= k <= dag.edges@.len(),
                list@ == seq![u] + successors(dag.edges@.take(k as int), u),
            decreases dag.edges@.len() - k,
        {
            let (a, b) = dag.edges[k];
            assert(dag.edges@.take(k as int + 1).drop_last() =~= dag.edges@.take(k as int));
            if a == u {
                list.push(b);
            }
            assert(list@ =~= seq![u] + successors(dag.edges@.take(k as int + 1), u));
            k += 1;
        }
        assert(dag.edges@.take(k as int) =~= dag.edges@);
        let rec = encode_ids(&list);
        r.push(rec);
        i += 1;
    }
    r
}

/// The graph an adjacency listing names, if it is well formed.
pub fn dag_from_adjacency(lists: &Vec<Vec<u16>>) -> (r: Option<Dag>)
    ensures
        r is Some <==> adjacency_ok(lists@.map_values(|l: Vec<u16>| l@)),
        r matches Some(d) ==> d.wf() && d.nodes@ == heads(lists@.map_values(|l: Vec<u16>| l@))
            && d.edges@ == adjacency_edges(lists@.map_values(|l: Vec<u16>| l@)),
{
    let ghost ls = lists@.map_values(|l: Vec<u16>| l@);
    let mut nodes: Vec<u16> = Vec::new();
    let mut edges: Vec<(u16, u16)> = Vec::new();
    let mut i: usize = 0;
    while i < lists.len()
        invariant
            0 <= i <= lists@.len(),
            ls == lists@.map_values(|l: Vec<u16>| l@),
            forall|j: int| 0 <= j < i ==> (#[trigger] ls[j]).len() >= 1,
            nodes@ == heads(ls.take(i as int)),
            edges@ == adjacency_edges(ls.take(i as int)),
        decreases lists@.len() - i,
    {
        let l = &lists[i];
        assert(ls[i as int] == l@);
        if l.len() == 0 {
            assert(!adjacency_ok(ls));
            return None;
        }
        let head = l[0];
        assert(ls.take(i as int + 1).drop_last() =~= ls.take(i as int));
        assert(ls.take(i as int + 1).last() == l@);
        nodes.push(head);
        assert(nodes@ =~= heads(ls.take(i as int + 1)));
        let ghost base = edges@;
        let mut k: usize = 1;
        while k < l.len()
            invariant
                1 <= k <= l@.len(),
                head == l@[0],
                edges@ == base + l@.subrange(1, k as int).map_values(|t: u16| (head, t)),
            decreases l@.len() - k,
        {
            edges.push((head, l[k]));
            assert(edges@ =~= base + l@.subrange(1, k as int + 1).map_values(|t: u16| (head, t)));
            k += 1;
        }
        assert(l@.subrange(1, k as int) =~= l@.drop_first());
        assert(edges@ =~= adjacency_edges(ls.take(i as int + 1)));
        i += 1;
    }
    assert(ls.take(i as int) =~= ls);
    assert(forall|j: int| 0 <= j < ls.len() ==> (#[trigger] ls[j]).len() >= 1);
    let d = Dag { nodes, edges };
    if !no_duplicate_ids(&d.nodes) || !no_duplicate_edges(&d.edges) {
        return None;
    }
    let mut t: usize = 0;
    while t < d.edges.len()
        invariant
            0 <= t <= d.edges@.len(),
            d.nodes@ == heads(ls),
            d.edges@ == adjacency_edges(ls),
            ls == lists@.map_values(|l: Vec<u16>| l@),
            forall|s: int| 0 <= s < t ==> d.nodes@.contains(#[trigger] d.edges@[s].1),
        decreases d.edges@.len() - t,
    {
        if !crate::dag::contains_node(&d, d.edges[t].1) {
            assert(!heads(ls).contains(adjacency_edges(ls)[t as int].1));
            return None;
        }
        t += 1;
    }
    assert forall|s: int| #![trigger d.edges@[s]] 0 <= s < d.edges@.len() implies d.has_node(d.edges@[s].0) && d.has_node(d.edges@[s].1) by {
        lemma_adjacency_edge_source(ls, s);
    }
    Some(d)
}

proof fn lemma_adjacency_edge_source(lists: Seq<Seq<u16>>, s: int)
    requires
        forall|j: int| 0 <= j < lists.len() ==> (#[trigger] lists[j]).len() >= 1,
        0 <= s < adjacency_edges(lists).len(),
    ensures
        heads(lists).contains(adjacency_edges(lists)[s].0),
    decreases lists.len(),
{
    let init = lists.drop_last();
    let last = lists.last();
    let prev = adjacency_edges(init);
    assert(forall|j: int| 0 <= j < init.len() ==> (#[trigger] init[j]).len() >= 1) by {
        assert forall|j: int| 0 <= j < init.len() implies (#[trigger] init[j]).len() >= 1 by {
            assert(init[j] == lists[j]);
        }
    }
    assert(heads(lists) =~= heads(init).push(last[0])) by {
        assert(lists[lists.len() - 1].len() >= 1);
    }
    if s < prev.len() {
        lemma_adjacency_edge_source(init, s);
        lemma_push_contains(heads(init), last[0], prev[s].0);
    } else {
        lemma_push_contains(heads(init), last[0], last[0]);
    }
}

/// Whether the graph is well formed: no repeated node or edge, and every edge
/// joins two nodes.
pub fn is_well_formed(dag: &Dag) -> (r: bool)
    ensures
        r == dag.wf(),
{
    if !no_duplicate_ids(&dag.nodes) || !no_duplicate_edges(&dag.edges) {
        return false;
    }
    let mut t: usize = 0;
    while t < dag.edges.len()
        invariant
            0 <= t <= dag.edges@.len(),
            forall|s: int| #![trigger dag.edges@[s]] 0 <= s < t ==> dag.has_node(dag.edges@[s].0) && dag.has_node(dag.edges@[s].1),
        decreases dag.edges@.len() - t,
    {
        let (a, b) = dag.edges[t];
        if !crate::dag::contains_node(dag, a) || !crate::dag::contains_node(dag, b) {
            assert(dag.edges@[t as int] == (a, b));
            return false;
        }
        t += 1;
    }
    true
}

/// Whether the ids are pairwise distinct.
pub fn no_duplicate_ids(ids: &Vec<u16>) -> (r: bool)
    ensures
        r == ids@.no_duplicates(),
{
    let mut i: usize = 0;
    while i < ids.len()
        invariant
            0 <= i <= ids@.len(),
            forall|a: int, b: int| 0 <= a < b < ids@.len() && a < i ==> ids@[a] != ids@[b],
        decreases ids@.len() - i,
    {
        let mut j: usize = i + 1;
        while j < ids.len()
            invariant
                i < ids@.len(),
                i + 1 <= j <= ids@.len(),
                forall|a: int, b: int| 0 <= a < b < ids@.len() && a < i ==> ids@[a] != ids@[b],
                forall|b: int| i < b < j ==> ids@[i as int] != ids@[b],
            decreases ids@.len() - j,
        {
            if ids[i] == ids[j] {
                return false;
            }
            j += 1;
        }
        i += 1;
    }
    true
}

/// Whether the edges are pairwise distinct.
pub fn no_duplicate_edges(edges: &Vec<(u16, u16)>) -> (r: bool)
    ensures
        r == edges@.no_duplicates(),
{
    let mut i: usize = 0;
    while i < edges.len()
        invariant
            0 <= i <= edges@.len(),
            forall|a: int, b: int| 0 <= a < b < edges@.len() && a < i ==> edges@[a] != edges@[b],
        decreases edges@.len() - i,
    {
        let mut j: usize = i + 1;
        while j < edges.len()
            invariant
                i < edges@.len(),
                i + 1 <= j <= edges@.len(),
                forall|a: int, b: int| 0 <= a < b < edges@.len() && a < i ==> edges@[a] != edges@[b],
                forall|b: int| i < b < j ==> edges@[i as int] != edges@[b],
            decreases edges@.len() - j,
        {
            let (a0, a1) = edges[i];
            let (b0, b1) = edges[j];
            if a0 == b0 && a1 == b1 {
                return false;
            }
            j += 1;
        }
        i += 1;
    }
    true
}

/// The records of a batch: the adjacency records of its local DAG, then the
/// round as an eight-byte trailer.
pub fn batch_records(dag: &Dag, round: u64) -> (r: Vec<Vec<u8>>)
    ensures
        r@.len() == dag.nodes@.len() + 1,
        forall|i: int| 0 <= i < dag.nodes@.len() ==> (#[trigger] r@[i])@ == id_record_bytes(adjacency_list(*dag, dag.nodes@[i])),
        r@[dag.nodes@.len() as int]@ == le64(round),
{
    let mut r = get_dag_serialized(dag);
    let ghost pre = r@;
    r.push(round_to_bytes(round));
    assert forall|i: int| 0 <= i < dag.nodes@.len() implies (#[trigger] r@[i])@ == id_record_bytes(adjacency_list(*dag, dag.nodes@[i])) by {
        assert(r@[i] == pre[i]);
    }
    r
}

/// The graph named by the first `count` adjacency records. Fails when a record
/// does not decode or the listing does not name a well-formed graph.
pub fn parse_dag_records(records: &Vec<Vec<u8>>, count: usize) -> (r: Option<Dag>)
    requires
        count <= records@.len(),
    ensures
        r matches Some(d) ==> d.wf() && d.nodes@.len() == count,
        forall|lists: Seq<Seq<u16>>|
            #![trigger adjacency_edges(lists)]
            count == lists.len() && adjacency_ok(lists) && (forall|i: int|
                0 <= i < lists.len() ==> (#[trigger] records@[i])@ == id_record_bytes(lists[i])) ==> (r matches Some(d)
                && d.nodes@ == heads(lists) && d.edges@ == adjacency_edges(lists)),
{
    let n = count;
    let mut lists: Vec<Vec<u16>> = Vec::new();
    let mut i: usize = 0;
    while i < n
        invariant
            0 <= i <= n,
            n == count,
            n <= records@.len(),
            lists@.len() == i,
            forall|j: int| 0 <= j < i ==> id_record_bytes((#[trigger] lists@[j])@).len() <= records@[j]@.len()
                && records@[j]@.take(id_record_bytes(lists@[j]@).len() as int) == id_record_bytes(lists@[j]@),
            forall|ids: Seq<u16>, j: int|
                #![trigger id_record_bytes(ids), records@[j]]
                0 <= j < i && id_record_bytes(ids) == records@[j]@ ==> lists@[j]@ == ids,
        decreases n - i,
    {
        let _record_len = records[i].len();
        match decode_ids(&records[i]) {
            Some(v) => {
                proof {
                    assert forall|ids: Seq<u16>| #[trigger] id_record_bytes(ids) == records@[i as int]@ implies v@ == ids by {
                        lemma_record_injective(v@, ids, records@[i as int]@);
                    }
                }
                let ghost pre = lists@;
                lists.push(v);
                assert forall|j: int| 0 <= j < i implies lists@[j] == pre[j] by {}
            },
            None => {
                proof {
                    assert forall|ls: Seq<Seq<u16>>|
                        #![trigger adjacency_edges(ls)]
                        count == ls.len() && adjacency_ok(ls) && (forall|j: int|
                            0 <= j < ls.len() ==> (#[trigger] records@[j])@ == id_record_bytes(ls[j])) implies false by {
                        assert(records@[i as int]@ == id_record_bytes(ls[i as int]));
                    }
                }
                return None;
            },
        }
        i += 1;
    }
    let r = dag_from_adjacency(&lists);
    proof {
        assert forall|ls: Seq<Seq<u16>>|
            #![trigger adjacency_edges(ls)]
            count == ls.len() && adjacency_ok(ls) && (forall|j: int|
                0 <= j < ls.len() ==> (#[trigger] records@[j])@ == id_record_bytes(ls[j])) implies (r is Some
                && lists@.map_values(|l: Vec<u16>| l@) == ls) by {
            assert(lists@.map_values(|l: Vec<u16>| l@) =~= ls) by {
                assert forall|j: int| 0 <= j < ls.len() implies lists@.map_values(|l: Vec<u16>| l@)[j] == ls[j] by {
                    assert(records@[j]@ == id_record_bytes(ls[j]));
                }
            }
        }
        if r is Some {
            assert(heads(lists@.map_values(|l: Vec<u16>| l@)).len() == n);
        }
    }
    r
}

/// Splits the records of a batch into its local DAG and its round. Fails when
/// the trailer is not eight bytes, a record does not decode, or the listing does
/// not name a well-formed graph.
pub fn parse_batch_records(records: &Vec<Vec<u8>>) -> (r: Option<(Dag, u64)>)
    ensures
        r matches Some((d, round)) ==> d.wf() && records@.len() >= 1 && records@.last()@ == le64(round)
            && d.nodes@.len() == records@.len() - 1,
        forall|lists: Seq<Seq<u16>>, round: u64|
            #![trigger adjacency_edges(lists), le64(round)]
            records@.len() == lists.len() + 1 && records@.last()@ == le64(round) && adjacency_ok(lists) && (forall|i: int|
                0 <= i < lists.len() ==> (#[trigger] records@[i])@ == id_record_bytes(lists[i])) ==> (r matches Some((d, x)) && x == round
                && d.nodes@ == heads(lists) && d.edges@ == adjacency_edges(lists)),
{
    if records.len() == 0 {
        return None;
    }
    let n = records.len() - 1;
    let round = match round_from_bytes(&records[n]) {
        Some(x) => x,
        None => return None,
    };
    proof {
        round_trailer_round_trip(round);
    }
    match parse_dag_records(records, n) {
        Some(d) => Some((d, round)),
        None => None,
    }
}

/// The records `batch_records` makes of a well-formed graph and a round are ones
/// `parse_batch_records` reads back as that round and a graph with the same
/// nodes, in order, and the same edges.
pub proof fn batch_records_round_trip(g: Dag, round: u64, records: Seq<Vec<u8>>)
    requires
        g.wf(),
        records.len() == g.nodes@.len() + 1,
        forall|i: int| 0 <= i < g.nodes@.len() ==> (#[trigger] records[i])@ == id_record_bytes(adjacency_list(g, g.nodes@[i])),
        records[g.nodes@.len() as int]@ == le64(round),
    ensures
        records.len() == adjacency_lists(g).len() + 1,
        records.last()@ == le64(round),
        adjacency_ok(adjacency_lists(g)),
        forall|i: int| 0 <= i < adjacency_lists(g).len() ==> (#[trigger] records[i])@ == id_record_bytes(adjacency_lists(g)[i]),
        heads(adjacency_lists(g)) == g.nodes@,
        forall|a: u16, b: u16| #[trigger] adjacency_edges(adjacency_lists(g)).contains((a, b)) <==> g.has_edge(a, b),
{
    adjacency_round_trip(g);
}

} // verus!
