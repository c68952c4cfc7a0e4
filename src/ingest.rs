use vstd::prelude::*;
use crate::model::EdgeModel;
use crate::store::{CentralityGraph, GraphError, MAX_ITEMS};

verus! {

/// One fighter: the name identifies the node; the record is carried along.
#[derive(Debug, Clone, PartialEq, Eq)]
pub struct FighterRecord {
    pub name: String,
    pub wins: u32,
    pub losses: u32,
}

/// The names of the records, in order.
pub open spec fn record_names(records: Seq<FighterRecord>) -> Seq<Seq<char>> {
    records.map_values(|r: FighterRecord| r.name@)
}

/// No two entries are equal.
pub open spec fn all_distinct(names: Seq<Seq<char>>) -> bool {
    forall|i: int, j: int| 0 <= i < j < names.len() ==> names[i] != names[j]
}

/// Position of `x` among `names`.
pub open spec fn name_index(names: Seq<Seq<char>>, x: Seq<char>) -> nat {
    names.index_of(x) as nat
}

/// The five fighters that the fight graph links.
pub open spec fn fight_names() -> Seq<Seq<char>> {
    seq!["Dustin Poirier"@, "Khabib Nurmagomedov"@, "Jose Aldo"@, "Conor McGregor"@, "Nate Diaz"@]
}

/// The bouts of the fight graph as pairs of positions in `fight_names()`.
pub open spec fn fight_pairs() -> Seq<(int, int)> {
    seq![(0, 1), (1, 3), (3, 0), (3, 2), (3, 4), (0, 4), (2, 4)]
}

/// The edges of the fight graph over the node indices given by `names`; every
/// bout has weight 1.
pub open spec fn fight_edges(names: Seq<Seq<char>>) -> Seq<EdgeModel> {
    fight_pairs().map_values(|p: (int, int)|
        (name_index(names, fight_names()[p.0]), name_index(names, fight_names()[p.1]), 1nat))
}

/// Number of bouts in the fight graph.
pub const FIGHT_EDGES: usize = 7;

fn fight_name(i: usize) -> (r: String)
    requires
        i < 5,
    ensures
        r@ == fight_names()[i as int],
{
    let s = if i == 0 {
        "Dustin Poirier"
    } else if i == 1 {
        "Khabib Nurmagomedov"
    } else if i == 2 {
        "Jose Aldo"
    } else if i == 3 {
        "Conor McGregor"
    } else {
        "Nate Diaz"
    };
    s.to_owned()
}

fn fight_pair(k: usize) -> (r: (usize, usize))
    requires
        k < FIGHT_EDGES,
    ensures
        r.0 == fight_pairs()[k as int].0,
        r.1 == fight_pairs()[k as int].1,
        r.0 < 5,
        r.1 < 5,
{
    if k == 0 {
        (0, 1)
    } else if k == 1 {
        (1, 3)
    } else if k == 2 {
        (3, 0)
    } else if k == 3 {
        (3, 2)
    } else if k == 4 {
        (3, 4)
    } else if k == 5 {
        (0, 4)
    } else {
        (2, 4)
    }
}

proof fn lemma_fight_names_distinct()
    ensures
        all_distinct(fight_names()),
{
    reveal_strlit("Dustin Poirier");
    reveal_strlit("Khabib Nurmagomedov");
    reveal_strlit("Jose Aldo");
    reveal_strlit("Conor McGregor");
    reveal_strlit("Nate Diaz");
    assert("Dustin Poirier"@[0] != "Conor McGregor"@[0]);
    assert("Jose Aldo"@[0] != "Nate Diaz"@[0]);
    assert("Dustin Poirier"@.len() != "Khabib Nurmagomedov"@.len());
    assert("Dustin Poirier"@.len() != "Jose Aldo"@.len());
    assert("Dustin Poirier"@.len() != "Nate Diaz"@.len());
    assert("Khabib Nurmagomedov"@.len() != "Jose Aldo"@.len());
    assert("Khabib Nurmagomedov"@.len() != "Conor McGregor"@.len());
    assert("Khabib Nurmagomedov"@.len() != "Nate Diaz"@.len());
    assert("Jose Aldo"@.len() != "Conor McGregor"@.len());
    assert("Conor McGregor"@.len() != "Nate Diaz"@.len());
}

/// Builds the fight graph: one node per record, in order, and a unit-weight
/// edge for each bout between the five named fighters.
pub fn build_fight_graph(records: &Vec<FighterRecord>) -> (r: Result<CentralityGraph, GraphError>)
    ensures
        r == Err::<CentralityGraph, GraphError>(GraphError::CapacityExceeded) <==> records.len() > MAX_ITEMS,
        r == Err::<CentralityGraph, GraphError>(GraphError::DuplicateNode) <==> (records.len() <= MAX_ITEMS
            && !all_distinct(record_names(records@))),
        r == Err::<CentralityGraph, GraphError>(GraphError::InvalidEdge) <==> (records.len() <= MAX_ITEMS
            && all_distinct(record_names(records@))
            && exists|i: int| 0 <= i < 5 && !record_names(records@).contains(#[trigger] fight_names()[i])),
        r is Ok ==> r.unwrap().wf() && r.unwrap().names() == record_names(records@)
            && r.unwrap().edges() == fight_edges(record_names(records@)),
{
    if records.len() > MAX_ITEMS {
        return Err(GraphError::CapacityExceeded);
    }
    let ghost names = record_names(records@);
    let mut g = CentralityGraph::new();
    let mut i: usize = 0;
    while i < records.len()
        invariant
            records.len() <= MAX_ITEMS,
            i <= records.len(),
            g.wf(),
            g.names() == names.take(i as int),
            g.edges() == Seq::<EdgeModel>::empty(),
            all_distinct(names.take(i as int)),
            names == record_names(records@),
        decreases records.len() - i,
    {
        match g.add_node(records[i].name.clone()) {
            Ok(_) => {},
            Err(_) => {
                proof {
                    assert(g.names().len() == i);
                    assert(g.names().contains(records@[i as int].name@));
                    let k = choose|k: int| 0 <= k < g.names().len() && g.names()[k] == records@[i as int].name@;
                    assert(g.names()[k] == names[k]);
                    assert(names[i as int] == records@[i as int].name@);
                    assert(!all_distinct(names));
                }
                return Err(GraphError::DuplicateNode);
            },
        }
        assert(names.take(i + 1) =~= names.take(i as int).push(names[i as int]));
        i = i + 1;
    }
    assert(names.take(i as int) =~= names);
    let mut idx: Vec<usize> = Vec::new();
    let mut f: usize = 0;
    while f < 5
        invariant
            f <= 5,
            g.wf(),
            g.names() == names,
            names == record_names(records@),
            records.len() <= MAX_ITEMS,
            all_distinct(names),
            idx.len() == f,
            forall|j: int| 0 <= j < f ==> (#[trigger] idx[j]) < g.count() && names[idx[j] as int] == fight_names()[j]
                && idx[j] == name_index(names, fight_names()[j]),
        decreases 5 - f,
    {
        let want = fight_name(f);
        match g.find(&want) {
            Some(v) => {
                proof {
                    assert(names[v as int] == want@);
                }
                idx.push(v);
            },
            None => {
                assert(!record_names(records@).contains(fight_names()[f as int]));
                return Err(GraphError::InvalidEdge);
            },
        }
        f = f + 1;
    }
    let mut k: usize = 0;
    while k < FIGHT_EDGES
        invariant
            k <= FIGHT_EDGES,
            g.wf(),
            g.names() == names,
            idx.len() == 5,
            forall|j: int| 0 <= j < 5 ==> (#[trigger] idx[j]) < g.count() && names[idx[j] as int] == fight_names()[j]
                && idx[j] == name_index(names, fight_names()[j]),
            g.edges() == fight_edges(names).take(k as int),
        decreases FIGHT_EDGES - k,
    {
        let (a, b) = fight_pair(k);
        assert(fight_edges(names).len() == FIGHT_EDGES);
        assert(g.edges().len() == k);
        let ia = idx[a];
        let ib = idx[b];
        let res = g.add_edge(ia, ib, 1);
        assert(res is Ok) by {
            lemma_fight_names_distinct();
            assert(names[ia as int] == fight_names()[a as int]);
            assert(names[ib as int] == fight_names()[b as int]);
            assert(fight_names()[a as int] != fight_names()[b as int]);
        }
        assert(g.edges() =~= fight_edges(names).take(k + 1));
        k = k + 1;
    }
    assert(g.edges() =~= fight_edges(names));
    assert forall|j: int| 0 <= j < 5 implies names.contains(#[trigger] fight_names()[j]) by {
        assert(names[idx[j] as int] == fight_names()[j]);
    }
    Ok(g)
}

} // verus!
