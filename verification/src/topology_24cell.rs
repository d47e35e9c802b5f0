//! 4D polytope (24-cell) topology for state-cell classification. Each cell is a neutral
//! cognitive aspect of agent/user memory; the default adjacency graph is symmetric
//! (undirected): if A is a neighbor of B, then B is a neighbor of A.
//!
//! This is a generic default ontology of 24 universal aspects of memory and cognition.
use vstd::prelude::*;

verus! {

/// One cell of the ontology.
#[derive(Debug, Clone, PartialEq)]
pub struct StateCell {
    pub id: u8,
    pub name: String,
    pub description: String,
    pub neighbors: Vec<u8>,
}

/// The cells, ordered by strictly increasing id.
#[derive(Debug, Clone)]
pub struct Topology24Cell {
    cells: Vec<StateCell>,
}

/// Ids strictly increase along the sequence.
pub open spec fn ids_increasing(cells: Seq<StateCell>) -> bool {
    forall|i: int, j: int| 0 <= i < j < cells.len() ==> cells[i].id < cells[j].id
}

/// The first cell of `cells` with the given id.
pub open spec fn find_cell(cells: Seq<StateCell>, id: u8) -> Option<StateCell>
    decreases cells.len(),
{
    if cells.len() == 0 {
        None
    } else if cells[0].id == id {
        Some(cells[0])
    } else {
        find_cell(cells.drop_first(), id)
    }
}

/// Neighbor relation of a cell list: a cell is its own neighbor, otherwise `b` must be
/// listed among the neighbors of cell `a`.
pub open spec fn neighbor_in(cells: Seq<StateCell>, a: u8, b: u8) -> bool {
    a == b || (find_cell(cells, a) matches Some(c) && c.neighbors@.contains(b))
}

/// Topological boost in hundredths: direct match 100, 4D neighbor 90, non-neighbor 80.
pub open spec fn boost_in(cells: Seq<StateCell>, target: u8, query: u8) -> u32 {
    if target == query {
        100
    } else if neighbor_in(cells, target, query) {
        90
    } else {
        80
    }
}

/// Neighbors of the default ontology.
pub open spec fn default_neighbors(id: u8) -> Seq<u8> {
    match id {
        1 => seq![2u8, 3u8, 4u8, 8u8, 9u8, 11u8, 14u8, 15u8, 17u8, 19u8, 20u8, 22u8],
        2 => seq![1u8, 3u8, 4u8, 13u8, 16u8, 17u8, 18u8, 19u8, 22u8, 23u8, 24u8],
        3 => seq![1u8, 2u8, 4u8, 7u8, 10u8, 13u8, 17u8, 18u8, 21u8],
        4 => seq![1u8, 2u8, 3u8, 13u8, 14u8, 17u8, 20u8, 21u8],
        5 => seq![6u8, 7u8, 8u8, 11u8, 12u8, 15u8, 22u8, 23u8, 24u8],
        6 => seq![5u8, 7u8, 8u8, 13u8, 14u8, 16u8, 17u8, 22u8],
        7 => seq![3u8, 5u8, 6u8, 8u8, 10u8, 14u8, 15u8, 22u8],
        8 => seq![1u8, 5u8, 6u8, 7u8, 15u8, 16u8, 18u8, 22u8, 23u8],
        9 => seq![1u8, 10u8, 11u8, 12u8, 19u8, 20u8, 22u8, 24u8],
        10 => seq![3u8, 7u8, 9u8, 11u8, 12u8, 18u8, 19u8, 21u8],
        11 => seq![1u8, 5u8, 9u8, 10u8, 12u8, 19u8, 20u8, 24u8],
        12 => seq![5u8, 9u8, 10u8, 11u8, 19u8, 21u8, 23u8, 24u8],
        13 => seq![2u8, 3u8, 4u8, 6u8, 16u8, 17u8, 18u8, 21u8],
        14 => seq![1u8, 4u8, 6u8, 7u8, 15u8, 17u8, 20u8, 21u8],
        15 => seq![1u8, 5u8, 7u8, 8u8, 14u8, 16u8, 23u8, 24u8],
        16 => seq![2u8, 6u8, 8u8, 13u8, 15u8, 18u8, 23u8, 24u8],
        17 => seq![1u8, 2u8, 3u8, 4u8, 6u8, 13u8, 14u8, 18u8],
        18 => seq![2u8, 3u8, 8u8, 10u8, 13u8, 16u8, 17u8, 21u8],
        19 => seq![1u8, 2u8, 9u8, 10u8, 11u8, 12u8, 20u8, 22u8],
        20 => seq![1u8, 4u8, 9u8, 11u8, 14u8, 19u8, 21u8, 22u8],
        21 => seq![3u8, 4u8, 10u8, 12u8, 13u8, 14u8, 18u8, 20u8, 23u8],
        22 => seq![1u8, 2u8, 5u8, 6u8, 7u8, 8u8, 9u8, 19u8, 20u8],
        23 => seq![2u8, 5u8, 8u8, 12u8, 15u8, 16u8, 21u8, 24u8],
        24 => seq![2u8, 5u8, 9u8, 11u8, 12u8, 15u8, 16u8, 23u8],
        _ => Seq::empty(),
    }
}

/// Names of the default ontology.
pub open spec fn default_name(id: u8) -> Seq<char> {
    match id {
        1 => "self_core"@,
        2 => "primary_bond"@,
        3 => "origins_kinship"@,
        4 => "private_inner"@,
        5 => "technical_craft"@,
        6 => "language_narrative"@,
        7 => "visual_spatial"@,
        8 => "expression_presence"@,
        9 => "logic_reasoning"@,
        10 => "external_world"@,
        11 => "self_architecture"@,
        12 => "system_ops"@,
        13 => "wit_wisdom"@,
        14 => "abstract_surreal"@,
        15 => "drive_energy"@,
        16 => "humor_play"@,
        17 => "emotion_affect"@,
        18 => "social_dynamics"@,
        19 => "ethics_values"@,
        20 => "transcendental"@,
        21 => "archive_past"@,
        22 => "vision_future"@,
        23 => "action_log"@,
        24 => "requests_focus"@,
        _ => Seq::empty(),
    }
}

/// Descriptions of the default ontology.
pub open spec fn default_description(id: u8) -> Seq<char> {
    match id {
        1 => "Self-model, personal style, the core 'I' of the agent"@,
        2 => "Key relationship, shared history, trust with the primary user"@,
        3 => "Background, roots, sense of home and origin"@,
        4 => "Secrets, confidential thoughts, restricted inner area"@,
        5 => "Technical skill, tools, production, precise execution"@,
        6 => "Storytelling, semantics, rhyme, meaning, articulation"@,
        7 => "Imagery, scenes, aesthetics, spatial composition"@,
        8 => "Outward expression, style, performance, social face"@,
        9 => "Mathematics, formal logic, problem solving, algorithms"@,
        10 => "News, verified facts, global events, physical reality"@,
        11 => "Internal mechanics, models, meta-cognition, self-description"@,
        12 => "Paths, scripts, environment health, files, tooling"@,
        13 => "Sarcasm, folk wisdom, dry humor, grounded insight"@,
        14 => "Abstraction, dreams, dark textures, subconscious flow"@,
        15 => "Motivation, momentum, power, forward drive"@,
        16 => "Entertainment, memes, playfulness, social games"@,
        17 => "Sadness, joy, fear, empathy, raw feeling"@,
        18 => "Friendship, rivalry, collaboration, user-agent roles"@,
        19 => "Right/wrong, mission, safety, boundaries"@,
        20 => "Philosophy of mind, 4D concepts, metaphysics"@,
        21 => "Dormant memories, old work, history, long-term storage"@,
        22 => "Roadmaps, goals, upcoming milestones, aspirations"@,
        23 => "Session summaries, work done, execution history"@,
        24 => "Specific commands, tasks, current interaction focus"@,
        _ => Seq::empty(),
    }
}

/// The default ontology: cells 1 to 24, in order.
pub open spec fn is_default_ontology(cells: Seq<StateCell>) -> bool {
    &&& cells.len() == 24
    &&& forall|i: int|
        #![trigger cells[i]]
        0 <= i < 24 ==> {
            &&& cells[i].id == i + 1
            &&& cells[i].neighbors@ == default_neighbors((i + 1) as u8)
            &&& cells[i].name@ == default_name((i + 1) as u8)
            &&& cells[i].description@ == default_description((i + 1) as u8)
        }
}

/// In a list with increasing ids, the cell at position `i` is the one found for its id.
pub proof fn lemma_find_cell_at(cells: Seq<StateCell>, i: int)
    requires
        ids_increasing(cells),
        0 <= i < cells.len(),
    ensures
        find_cell(cells, cells[i].id) == Some(cells[i]),
    decreases i,
{
    if i > 0 {
        assert(cells[0].id < cells[i].id);
        let rest = cells.drop_first();
        assert forall|a: int, b: int| 0 <= a < b < rest.len() implies rest[a].id < rest[b].id by {
            assert(rest[a] == cells[a + 1]);
            assert(rest[b] == cells[b + 1]);
        }
        assert(rest[i - 1] == cells[i]);
        lemma_find_cell_at(rest, i - 1);
    }
}

/// With increasing ids, an id that no cell carries is not found.
pub proof fn lemma_find_cell_absent(cells: Seq<StateCell>, id: u8)
    requires
        forall|i: int| 0 <= i < cells.len() ==> cells[i].id != id,
    ensures
        find_cell(cells, id) is None,
    decreases cells.len(),
{
    if cells.len() > 0 {
        let rest = cells.drop_first();
        assert forall|i: int| 0 <= i < rest.len() implies rest[i].id != id by {
            assert(rest[i] == cells[i + 1]);
        }
        lemma_find_cell_absent(rest, id);
    }
}

/// Every neighbor listed by a default cell lists that cell back.
pub proof fn lemma_default_neighbors_symmetric(a: u8, b: u8)
    requires
        default_neighbors(a).contains(b),
    ensures
        default_neighbors(b).contains(a),
{
    if a == 1 {
        let s = default_neighbors(1u8);
        assert(s =~= seq![2u8, 3u8, 4u8, 8u8, 9u8, 11u8, 14u8, 15u8, 17u8, 19u8, 20u8, 22u8]);
        let j = choose|j: int| 0 <= j < s.len() && s[j] == b;
        if j == 0 {
            assert(default_neighbors(2u8)[0] == 1u8);
        } else if j == 1 {
            assert(default_neighbors(3u8)[0] == 1u8);
        } else if j == 2 {
            assert(default_neighbors(4u8)[0] == 1u8);
        } else if j == 3 {
            assert(default_neighbors(8u8)[0] == 1u8);
        } else if j == 4 {
            assert(default_neighbors(9u8)[0] == 1u8);
        } else if j == 5 {
            assert(default_neighbors(11u8)[0] == 1u8);
        } else if j == 6 {
            assert(default_neighbors(14u8)[0] == 1u8);
        } else if j == 7 {
            assert(default_neighbors(15u8)[0] == 1u8);
        } else if j == 8 {
            assert(default_neighbors(17u8)[0] == 1u8);
        } else if j == 9 {
            assert(default_neighbors(19u8)[0] == 1u8);
        } else if j == 10 {
            assert(default_neighbors(20u8)[0] == 1u8);
        } else if j == 11 {
            assert(default_neighbors(22u8)[0] == 1u8);
        }
    } else if a == 2 {
        let s = default_neighbors(2u8);
        assert(s =~= seq![1u8, 3u8, 4u8, 13u8, 16u8, 17u8, 18u8, 19u8, 22u8, 23u8, 24u8]);
        let j = choose|j: int| 0 <= j < s.len() && s[j] == b;
        if j == 0 {
            assert(default_neighbors(1u8)[0] == 2u8);
        } else if j == 1 {
            assert(default_neighbors(3u8)[1] == 2u8);
        } else if j == 2 {
            assert(default_neighbors(4u8)[1] == 2u8);
        } else if j == 3 {
            assert(default_neighbors(13u8)[0] == 2u8);
        } else if j == 4 {
            assert(default_neighbors(16u8)[0] == 2u8);
        } else if j == 5 {
            assert(default_neighbors(17u8)[1] == 2u8);
        } else if j == 6 {
            assert(default_neighbors(18u8)[0] == 2u8);
        } else if j == 7 {
            assert(default_neighbors(19u8)[1] == 2u8);
        } else if j == 8 {
            assert(default_neighbors(22u8)[1] == 2u8);
        } else if j == 9 {
            assert(default_neighbors(23u8)[0] == 2u8);
        } else if j == 10 {
            assert(default_neighbors(24u8)[0] == 2u8);
        }
    } else if a == 3 {
        let s = default_neighbors(3u8);
        assert(s =~= seq![1u8, 2u8, 4u8, 7u8, 10u8, 13u8, 17u8, 18u8, 21u8]);
        let j = choose|j: int| 0 <= j < s.len() && s[j] == b;
        if j == 0 {
            assert(default_neighbors(1u8)[1] == 3u8);
        } else if j == 1 {
            assert(default_neighbors(2u8)[1] == 3u8);
        } else if j == 2 {
            assert(default_neighbors(4u8)[2] == 3u8);
        } else if j == 3 {
            assert(default_neighbors(7u8)[0] == 3u8);
        } else if j == 4 {
            assert(default_neighbors(10u8)[0] == 3u8);
        } else if j == 5 {
            assert(default_neighbors(13u8)[1] == 3u8);
        } else if j == 6 {
            assert(default_neighbors(17u8)[2] == 3u8);
        } else if j == 7 {
            assert(default_neighbors(18u8)[1] == 3u8);
        } else if j == 8 {
            assert(default_neighbors(21u8)[0] == 3u8);
        }
    } else if a == 4 {
        let s = default_neighbors(4u8);
        assert(s =~= seq![1u8, 2u8, 3u8, 13u8, 14u8, 17u8, 20u8, 21u8]);
        let j = choose|j: int| 0 <= j < s.len() && s[j] == b;
        if j == 0 {
            assert(default_neighbors(1u8)[2] == 4u8);
        } else if j == 1 {
            assert(default_neighbors(2u8)[2] == 4u8);
        } else if j == 2 {
            assert(default_neighbors(3u8)[2] == 4u8);
        } else if j == 3 {
            assert(default_neighbors(13u8)[2] == 4u8);
        } else if j == 4 {
            assert(default_neighbors(14u8)[1] == 4u8);
        } else if j == 5 {
            assert(default_neighbors(17u8)[3] == 4u8);
        } else if j == 6 {
            assert(default_neighbors(20u8)[1] == 4u8);
        } else if j == 7 {
            assert(default_neighbors(21u8)[1] == 4u8);
        }
    } else if a == 5 {
        let s = default_neighbors(5u8);
        assert(s =~= seq![6u8, 7u8, 8u8, 11u8, 12u8, 15u8, 22u8, 23u8, 24u8]);
        let j = choose|j: int| 0 <= j < s.len() && s[j] == b;
        if j == 0 {
            assert(default_neighbors(6u8)[0] == 5u8);
        } else if j == 1 {
            assert(default_neighbors(7u8)[1] == 5u8);
        } else if j == 2 {
            assert(default_neighbors(8u8)[1] == 5u8);
        } else if j == 3 {
            assert(default_neighbors(11u8)[1] == 5u8);
        } else if j == 4 {
            assert(default_neighbors(12u8)[0] == 5u8);
        } else if j == 5 {
            assert(default_neighbors(15u8)[1] == 5u8);
        } else if j == 6 {
            assert(default_neighbors(22u8)[2] == 5u8);
        } else if j == 7 {
            assert(default_neighbors(23u8)[1] == 5u8);
        } else if j == 8 {
            assert(default_neighbors(24u8)[1] == 5u8);
        }
    } else if a == 6 {
        let s = default_neighbors(6u8);
        assert(s =~= seq![5u8, 7u8, 8u8, 13u8, 14u8, 16u8, 17u8, 22u8]);
        let j = choose|j: int| 0 <= j < s.len() && s[j] == b;
        if j == 0 {
            assert(default_neighbors(5u8)[0] == 6u8);
        } else if j == 1 {
            assert(default_neighbors(7u8)[2] == 6u8);
        } else if j == 2 {
            assert(default_neighbors(8u8)[2] == 6u8);
        } else if j == 3 {
            assert(default_neighbors(13u8)[3] == 6u8);
        } else if j == 4 {
            assert(default_neighbors(14u8)[2] == 6u8);
        } else if j == 5 {
            assert(default_neighbors(16u8)[1] == 6u8);
        } else if j == 6 {
            assert(default_neighbors(17u8)[4] == 6u8);
        } else if j == 7 {
            assert(default_neighbors(22u8)[3] == 6u8);
        }
    } else if a == 7 {
        let s = default_neighbors(7u8);
        assert(s =~= seq![3u8, 5u8, 6u8, 8u8, 10u8, 14u8, 15u8, 22u8]);
        let j = choose|j: int| 0 <= j < s.len() && s[j] == b;
        if j == 0 {
            assert(default_neighbors(3u8)[3] == 7u8);
        } else if j == 1 {
            assert(default_neighbors(5u8)[1] == 7u8);
        } else if j == 2 {
            assert(default_neighbors(6u8)[1] == 7u8);
        } else if j == 3 {
            assert(default_neighbors(8u8)[3] == 7u8);
        } else if j == 4 {
            assert(default_neighbors(10u8)[1] == 7u8);
        } else if j == 5 {
            assert(default_neighbors(14u8)[3] == 7u8);
        } else if j == 6 {
            assert(default_neighbors(15u8)[2] == 7u8);
        } else if j == 7 {
            assert(default_neighbors(22u8)[4] == 7u8);
        }
    } else if a == 8 {
        let s = default_neighbors(8u8);
        assert(s =~= seq![1u8, 5u8, 6u8, 7u8, 15u8, 16u8, 18u8, 22u8, 23u8]);
        let j = choose|j: int| 0 <= j < s.len() && s[j] == b;
        if j == 0 {
            assert(default_neighbors(1u8)[3] == 8u8);
        } else if j == 1 {
            assert(default_neighbors(5u8)[2] == 8u8);
        } else if j == 2 {
            assert(default_neighbors(6u8)[2] == 8u8);
        } else if j == 3 {
            assert(default_neighbors(7u8)[3] == 8u8);
        } else if j == 4 {
            assert(default_neighbors(15u8)[3] == 8u8);
        } else if j == 5 {
            assert(default_neighbors(16u8)[2] == 8u8);
        } else if j == 6 {
            assert(default_neighbors(18u8)[2] == 8u8);
        } else if j == 7 {
            assert(default_neighbors(22u8)[5] == 8u8);
        } else if j == 8 {
            assert(default_neighbors(23u8)[2] == 8u8);
        }
    } else if a == 9 {
        let s = default_neighbors(9u8);
        assert(s =~= seq![1u8, 10u8, 11u8, 12u8, 19u8, 20u8, 22u8, 24u8]);
        let j = choose|j: int| 0 <= j < s.len() && s[j] == b;
        if j == 0 {
            assert(default_neighbors(1u8)[4] == 9u8);
        } else if j == 1 {
            assert(default_neighbors(10u8)[2] == 9u8);
        } else if j == 2 {
            assert(default_neighbors(11u8)[2] == 9u8);
        } else if j == 3 {
            assert(default_neighbors(12u8)[1] == 9u8);
        } else if j == 4 {
            assert(default_neighbors(19u8)[2] == 9u8);
        } else if j == 5 {
            assert(default_neighbors(20u8)[2] == 9u8);
        } else if j == 6 {
            assert(default_neighbors(22u8)[6] == 9u8);
        } else if j == 7 {
            assert(default_neighbors(24u8)[2] == 9u8);
        }
    } else if a == 10 {
        let s = default_neighbors(10u8);
        assert(s =~= seq![3u8, 7u8, 9u8, 11u8, 12u8, 18u8, 19u8, 21u8]);
        let j = choose|j: int| 0 <= j < s.len() && s[j] == b;
        if j == 0 {
            assert(default_neighbors(3u8)[4] == 10u8);
        } else if j == 1 {
            assert(default_neighbors(7u8)[4] == 10u8);
        } else if j == 2 {
            assert(default_neighbors(9u8)[1] == 10u8);
        } else if j == 3 {
            assert(default_neighbors(11u8)[3] == 10u8);
        } else if j == 4 {
            assert(default_neighbors(12u8)[2] == 10u8);
        } else if j == 5 {
            assert(default_neighbors(18u8)[3] == 10u8);
        } else if j == 6 {
            assert(default_neighbors(19u8)[3] == 10u8);
        } else if j == 7 {
            assert(default_neighbors(21u8)[2] == 10u8);
        }
    } else if a == 11 {
        let s = default_neighbors(11u8);
        assert(s =~= seq![1u8, 5u8, 9u8, 10u8, 12u8, 19u8, 20u8, 24u8]);
        let j = choose|j: int| 0 <= j < s.len() && s[j] == b;
        if j == 0 {
            assert(default_neighbors(1u8)[5] == 11u8);
        } else if j == 1 {
            assert(default_neighbors(5u8)[3] == 11u8);
        } else if j == 2 {
            assert(default_neighbors(9u8)[2] == 11u8);
        } else if j == 3 {
            assert(default_neighbors(10u8)[3] == 11u8);
        } else if j == 4 {
            assert(default_neighbors(12u8)[3] == 11u8);
        } else if j == 5 {
            assert(default_neighbors(19u8)[4] == 11u8);
        } else if j == 6 {
            assert(default_neighbors(20u8)[3] == 11u8);
        } else if j == 7 {
            assert(default_neighbors(24u8)[3] == 11u8);
        }
    } else if a == 12 {
        let s = default_neighbors(12u8);
        assert(s =~= seq![5u8, 9u8, 10u8, 11u8, 19u8, 21u8, 23u8, 24u8]);
        let j = choose|j: int| 0 <= j < s.len() && s[j] == b;
        if j == 0 {
            assert(default_neighbors(5u8)[4] == 12u8);
        } else if j == 1 {
            assert(default_neighbors(9u8)[3] == 12u8);
        } else if j == 2 {
            assert(default_neighbors(10u8)[4] == 12u8);
        } else if j == 3 {
            assert(default_neighbors(11u8)[4] == 12u8);
        } else if j == 4 {
            assert(default_neighbors(19u8)[5] == 12u8);
        } else if j == 5 {
            assert(default_neighbors(21u8)[3] == 12u8);
        } else if j == 6 {
            assert(default_neighbors(23u8)[3] == 12u8);
        } else if j == 7 {
            assert(default_neighbors(24u8)[4] == 12u8);
        }
    } else if a == 13 {
        let s = default_neighbors(13u8);
        assert(s =~= seq![2u8, 3u8, 4u8, 6u8, 16u8, 17u8, 18u8, 21u8]);
        let j = choose|j: int| 0 <= j < s.len() && s[j] == b;
        if j == 0 {
            assert(default_neighbors(2u8)[3] == 13u8);
        } else if j == 1 {
            assert(default_neighbors(3u8)[5] == 13u8);
        } else if j == 2 {
            assert(default_neighbors(4u8)[3] == 13u8);
        } else if j == 3 {
            assert(default_neighbors(6u8)[3] == 13u8);
        } else if j == 4 {
            assert(default_neighbors(16u8)[3] == 13u8);
        } else if j == 5 {
            assert(default_neighbors(17u8)[5] == 13u8);
        } else if j == 6 {
            assert(default_neighbors(18u8)[4] == 13u8);
        } else if j == 7 {
            assert(default_neighbors(21u8)[4] == 13u8);
        }
    } else if a == 14 {
        let s = default_neighbors(14u8);
        assert(s =~= seq![1u8, 4u8, 6u8, 7u8, 15u8, 17u8, 20u8, 21u8]);
        let j = choose|j: int| 0 <= j < s.len() && s[j] == b;
        if j == 0 {
            assert(default_neighbors(1u8)[6] == 14u8);
        } else if j == 1 {
            assert(default_neighbors(4u8)[4] == 14u8);
        } else if j == 2 {
            assert(default_neighbors(6u8)[4] == 14u8);
        } else if j == 3 {
            assert(default_neighbors(7u8)[5] == 14u8);
        } else if j == 4 {
            assert(default_neighbors(15u8)[4] == 14u8);
        } else if j == 5 {
            assert(default_neighbors(17u8)[6] == 14u8);
        } else if j == 6 {
            assert(default_neighbors(20u8)[4] == 14u8);
        } else if j == 7 {
            assert(default_neighbors(21u8)[5] == 14u8);
        }
    } else if a == 15 {
        let s = default_neighbors(15u8);
        assert(s =~= seq![1u8, 5u8, 7u8, 8u8, 14u8, 16u8, 23u8, 24u8]);
        let j = choose|j: int| 0 <= j < s.len() && s[j] == b;
        if j == 0 {
            assert(default_neighbors(1u8)[7] == 15u8);
        } else if j == 1 {
            assert(default_neighbors(5u8)[5] == 15u8);
        } else if j == 2 {
            assert(default_neighbors(7u8)[6] == 15u8);
        } else if j == 3 {
            assert(default_neighbors(8u8)[4] == 15u8);
        } else if j == 4 {
            assert(default_neighbors(14u8)[4] == 15u8);
        } else if j == 5 {
            assert(default_neighbors(16u8)[4] == 15u8);
        } else if j == 6 {
            assert(default_neighbors(23u8)[4] == 15u8);
        } else if j == 7 {
            assert(default_neighbors(24u8)[5] == 15u8);
        }
    } else if a == 16 {
        let s = default_neighbors(16u8);
        assert(s =~= seq![2u8, 6u8, 8u8, 13u8, 15u8, 18u8, 23u8, 24u8]);
        let j = choose|j: int| 0 <= j < s.len() && s[j] == b;
        if j == 0 {
            assert(default_neighbors(2u8)[4] == 16u8);
        } else if j == 1 {
            assert(default_neighbors(6u8)[5] == 16u8);
        } else if j == 2 {
            assert(default_neighbors(8u8)[5] == 16u8);
        } else if j == 3 {
            assert(default_neighbors(13u8)[4] == 16u8);
        } else if j == 4 {
            assert(default_neighbors(15u8)[5] == 16u8);
        } else if j == 5 {
            assert(default_neighbors(18u8)[5] == 16u8);
        } else if j == 6 {
            assert(default_neighbors(23u8)[5] == 16u8);
        } else if j == 7 {
            assert(default_neighbors(24u8)[6] == 16u8);
        }
    } else if a == 17 {
        let s = default_neighbors(17u8);
        assert(s =~= seq![1u8, 2u8, 3u8, 4u8, 6u8, 13u8, 14u8, 18u8]);
        let j = choose|j: int| 0 <= j < s.len() && s[j] == b;
        if j == 0 {
            assert(default_neighbors(1u8)[8] == 17u8);
        } else if j == 1 {
            assert(default_neighbors(2u8)[5] == 17u8);
        } else if j == 2 {
            assert(default_neighbors(3u8)[6] == 17u8);
        } else if j == 3 {
            assert(default_neighbors(4u8)[5] == 17u8);
        } else if j == 4 {
            assert(default_neighbors(6u8)[6] == 17u8);
        } else if j == 5 {
            assert(default_neighbors(13u8)[5] == 17u8);
        } else if j == 6 {
            assert(default_neighbors(14u8)[5] == 17u8);
        } else if j == 7 {
            assert(default_neighbors(18u8)[6] == 17u8);
        }
    } else if a == 18 {
        let s = default_neighbors(18u8);
        assert(s =~= seq![2u8, 3u8, 8u8, 10u8, 13u8, 16u8, 17u8, 21u8]);
        let j = choose|j: int| 0 <= j < s.len() && s[j] == b;
        if j == 0 {
            assert(default_neighbors(2u8)[6] == 18u8);
        } else if j == 1 {
            assert(default_neighbors(3u8)[7] == 18u8);
        } else if j == 2 {
            assert(default_neighbors(8u8)[6] == 18u8);
        } else if j == 3 {
            assert(default_neighbors(10u8)[5] == 18u8);
        } else if j == 4 {
            assert(default_neighbors(13u8)[6] == 18u8);
        } else if j == 5 {
            assert(default_neighbors(16u8)[5] == 18u8);
        } else if j == 6 {
            assert(default_neighbors(17u8)[7] == 18u8);
        } else if j == 7 {
            assert(default_neighbors(21u8)[6] == 18u8);
        }
    } else if a == 19 {
        let s = default_neighbors(19u8);
        assert(s =~= seq![1u8, 2u8, 9u8, 10u8, 11u8, 12u8, 20u8, 22u8]);
        let j = choose|j: int| 0 <= j < s.len() && s[j] == b;
        if j == 0 {
            assert(default_neighbors(1u8)[9] == 19u8);
        } else if j == 1 {
            assert(default_neighbors(2u8)[7] == 19u8);
        } else if j == 2 {
            assert(default_neighbors(9u8)[4] == 19u8);
        } else if j == 3 {
            assert(default_neighbors(10u8)[6] == 19u8);
        } else if j == 4 {
            assert(default_neighbors(11u8)[5] == 19u8);
        } else if j == 5 {
            assert(default_neighbors(12u8)[4] == 19u8);
        } else if j == 6 {
            assert(default_neighbors(20u8)[5] == 19u8);
        } else if j == 7 {
            assert(default_neighbors(22u8)[7] == 19u8);
        }
    } else if a == 20 {
        let s = default_neighbors(20u8);
        assert(s =~= seq![1u8, 4u8, 9u8, 11u8, 14u8, 19u8, 21u8, 22u8]);
        let j = choose|j: int| 0 <= j < s.len() && s[j] == b;
        if j == 0 {
            assert(default_neighbors(1u8)[10] == 20u8);
        } else if j == 1 {
            assert(default_neighbors(4u8)[6] == 20u8);
        } else if j == 2 {
            assert(default_neighbors(9u8)[5] == 20u8);
        } else if j == 3 {
            assert(default_neighbors(11u8)[6] == 20u8);
        } else if j == 4 {
            assert(default_neighbors(14u8)[6] == 20u8);
        } else if j == 5 {
            assert(default_neighbors(19u8)[6] == 20u8);
        } else if j == 6 {
            assert(default_neighbors(21u8)[7] == 20u8);
        } else if j == 7 {
            assert(default_neighbors(22u8)[8] == 20u8);
        }
    } else if a == 21 {
        let s = default_neighbors(21u8);
        assert(s =~= seq![3u8, 4u8, 10u8, 12u8, 13u8, 14u8, 18u8, 20u8, 23u8]);
        let j = choose|j: int| 0 <= j < s.len() && s[j] == b;
        if j == 0 {
            assert(default_neighbors(3u8)[8] == 21u8);
        } else if j == 1 {
            assert(default_neighbors(4u8)[7] == 21u8);
        } else if j == 2 {
            assert(default_neighbors(10u8)[7] == 21u8);
        } else if j == 3 {
            assert(default_neighbors(12u8)[5] == 21u8);
        } else if j == 4 {
            assert(default_neighbors(13u8)[7] == 21u8);
        } else if j == 5 {
            assert(default_neighbors(14u8)[7] == 21u8);
        } else if j == 6 {
            assert(default_neighbors(18u8)[7] == 21u8);
        } else if j == 7 {
            assert(default_neighbors(20u8)[6] == 21u8);
        } else if j == 8 {
            assert(default_neighbors(23u8)[6] == 21u8);
        }
    } else if a == 22 {
        let s = default_neighbors(22u8);
        assert(s =~= seq![1u8, 2u8, 5u8, 6u8, 7u8, 8u8, 9u8, 19u8, 20u8]);
        let j = choose|j: int| 0 <= j < s.len() && s[j] == b;
        if j == 0 {
            assert(default_neighbors(1u8)[11] == 22u8);
        } else if j == 1 {
            assert(default_neighbors(2u8)[8] == 22u8);
        } else if j == 2 {
            assert(default_neighbors(5u8)[6] == 22u8);
        } else if j == 3 {
            assert(default_neighbors(6u8)[7] == 22u8);
        } else if j == 4 {
            assert(default_neighbors(7u8)[7] == 22u8);
        } else if j == 5 {
            assert(default_neighbors(8u8)[7] == 22u8);
        } else if j == 6 {
            assert(default_neighbors(9u8)[6] == 22u8);
        } else if j == 7 {
            assert(default_neighbors(19u8)[7] == 22u8);
        } else if j == 8 {
            assert(default_neighbors(20u8)[7] == 22u8);
        }
    } else if a == 23 {
        let s = default_neighbors(23u8);
        assert(s =~= seq![2u8, 5u8, 8u8, 12u8, 15u8, 16u8, 21u8, 24u8]);
        let j = choose|j: int| 0 <= j < s.len() && s[j] == b;
        if j == 0 {
            assert(default_neighbors(2u8)[9] == 23u8);
        } else if j == 1 {
            assert(default_neighbors(5u8)[7] == 23u8);
        } else if j == 2 {
            assert(default_neighbors(8u8)[8] == 23u8);
        } else if j == 3 {
            assert(default_neighbors(12u8)[6] == 23u8);
        } else if j == 4 {
            assert(default_neighbors(15u8)[6] == 23u8);
        } else if j == 5 {
            assert(default_neighbors(16u8)[6] == 23u8);
        } else if j == 6 {
            assert(default_neighbors(21u8)[8] == 23u8);
        } else if j == 7 {
            assert(default_neighbors(24u8)[7] == 23u8);
        }
    } else if a == 24 {
        let s = default_neighbors(24u8);
        assert(s =~= seq![2u8, 5u8, 9u8, 11u8, 12u8, 15u8, 16u8, 23u8]);
        let j = choose|j: int| 0 <= j < s.len() && s[j] == b;
        if j == 0 {
            assert(default_neighbors(2u8)[10] == 24u8);
        } else if j == 1 {
            assert(default_neighbors(5u8)[8] == 24u8);
        } else if j == 2 {
            assert(default_neighbors(9u8)[7] == 24u8);
        } else if j == 3 {
            assert(default_neighbors(11u8)[7] == 24u8);
        } else if j == 4 {
            assert(default_neighbors(12u8)[7] == 24u8);
        } else if j == 5 {
            assert(default_neighbors(15u8)[7] == 24u8);
        } else if j == 6 {
            assert(default_neighbors(16u8)[7] == 24u8);
        } else if j == 7 {
            assert(default_neighbors(23u8)[7] == 24u8);
        }
    }
}
/// The default cell with the given id, built fresh.
fn make_cell(id: u8) -> (c: StateCell)
    requires
        1 <= id <= 24,
    ensures
        c.id == id,
        c.neighbors@ == default_neighbors(id),
        c.name@ == default_name(id),
        c.description@ == default_description(id),
{
    let (name, description, neighbors): (&str, &str, Vec<u8>) = match id {
        1 => ("self_core", "Self-model, personal style, the core 'I' of the agent", vec![2u8, 3u8, 4u8, 8u8, 9u8, 11u8, 14u8, 15u8, 17u8, 19u8, 20u8, 22u8]),
        2 => ("primary_bond", "Key relationship, shared history, trust with the primary user", vec![1u8, 3u8, 4u8, 13u8, 16u8, 17u8, 18u8, 19u8, 22u8, 23u8, 24u8]),
        3 => ("origins_kinship", "Background, roots, sense of home and origin", vec![1u8, 2u8, 4u8, 7u8, 10u8, 13u8, 17u8, 18u8, 21u8]),
        4 => ("private_inner", "Secrets, confidential thoughts, restricted inner area", vec![1u8, 2u8, 3u8, 13u8, 14u8, 17u8, 20u8, 21u8]),
        5 => ("technical_craft", "Technical skill, tools, production, precise execution", vec![6u8, 7u8, 8u8, 11u8, 12u8, 15u8, 22u8, 23u8, 24u8]),
        6 => ("language_narrative", "Storytelling, semantics, rhyme, meaning, articulation", vec![5u8, 7u8, 8u8, 13u8, 14u8, 16u8, 17u8, 22u8]),
        7 => ("visual_spatial", "Imagery, scenes, aesthetics, spatial composition", vec![3u8, 5u8, 6u8, 8u8, 10u8, 14u8, 15u8, 22u8]),
        8 => ("expression_presence", "Outward expression, style, performance, social face", vec![1u8, 5u8, 6u8, 7u8, 15u8, 16u8, 18u8, 22u8, 23u8]),
        9 => ("logic_reasoning", "Mathematics, formal logic, problem solving, algorithms", vec![1u8, 10u8, 11u8, 12u8, 19u8, 20u8, 22u8, 24u8]),
        10 => ("external_world", "News, verified facts, global events, physical reality", vec![3u8, 7u8, 9u8, 11u8, 12u8, 18u8, 19u8, 21u8]),
        11 => ("self_architecture", "Internal mechanics, models, meta-cognition, self-description", vec![1u8, 5u8, 9u8, 10u8, 12u8, 19u8, 20u8, 24u8]),
        12 => ("system_ops", "Paths, scripts, environment health, files, tooling", vec![5u8, 9u8, 10u8, 11u8, 19u8, 21u8, 23u8, 24u8]),
        13 => ("wit_wisdom", "Sarcasm, folk wisdom, dry humor, grounded insight", vec![2u8, 3u8, 4u8, 6u8, 16u8, 17u8, 18u8, 21u8]),
        14 => ("abstract_surreal", "Abstraction, dreams, dark textures, subconscious flow", vec![1u8, 4u8, 6u8, 7u8, 15u8, 17u8, 20u8, 21u8]),
        15 => ("drive_energy", "Motivation, momentum, power, forward drive", vec![1u8, 5u8, 7u8, 8u8, 14u8, 16u8, 23u8, 24u8]),
        16 => ("humor_play", "Entertainment, memes, playfulness, social games", vec![2u8, 6u8, 8u8, 13u8, 15u8, 18u8, 23u8, 24u8]),
        17 => ("emotion_affect", "Sadness, joy, fear, empathy, raw feeling", vec![1u8, 2u8, 3u8, 4u8, 6u8, 13u8, 14u8, 18u8]),
        18 => ("social_dynamics", "Friendship, rivalry, collaboration, user-agent roles", vec![2u8, 3u8, 8u8, 10u8, 13u8, 16u8, 17u8, 21u8]),
        19 => ("ethics_values", "Right/wrong, mission, safety, boundaries", vec![1u8, 2u8, 9u8, 10u8, 11u8, 12u8, 20u8, 22u8]),
        20 => ("transcendental", "Philosophy of mind, 4D concepts, metaphysics", vec![1u8, 4u8, 9u8, 11u8, 14u8, 19u8, 21u8, 22u8]),
        21 => ("archive_past", "Dormant memories, old work, history, long-term storage", vec![3u8, 4u8, 10u8, 12u8, 13u8, 14u8, 18u8, 20u8, 23u8]),
        22 => ("vision_future", "Roadmaps, goals, upcoming milestones, aspirations", vec![1u8, 2u8, 5u8, 6u8, 7u8, 8u8, 9u8, 19u8, 20u8]),
        23 => ("action_log", "Session summaries, work done, execution history", vec![2u8, 5u8, 8u8, 12u8, 15u8, 16u8, 21u8, 24u8]),
        24 => ("requests_focus", "Specific commands, tasks, current interaction focus", vec![2u8, 5u8, 9u8, 11u8, 12u8, 15u8, 16u8, 23u8]),
        _ => ("", "", Vec::new()),
    };
    StateCell { id, name: name.to_owned(), description: description.to_owned(), neighbors }
}

/// `cells[i]` is the first cell carrying its id.
pub proof fn lemma_find_cell_first(cells: Seq<StateCell>, i: int)
    requires
        0 <= i < cells.len(),
        forall|j: int| 0 <= j < i ==> cells[j].id != cells[i].id,
    ensures
        find_cell(cells, cells[i].id) == Some(cells[i]),
    decreases i,
{
    if i > 0 {
        let rest = cells.drop_first();
        assert(rest[i - 1] == cells[i]);
        assert forall|j: int| 0 <= j < i - 1 implies #[trigger] rest[j].id != rest[i - 1].id by {
            assert(rest[j] == cells[j + 1]);
        }
        lemma_find_cell_first(rest, i - 1);
    }
}

impl Topology24Cell {
    /// The cells, in increasing id order.
    pub closed spec fn spec_cells(&self) -> Seq<StateCell> {
        self.cells@
    }

    /// The default 24-cell ontology.
    pub fn new() -> (t: Self)
        ensures
            is_default_ontology(t.spec_cells()),
    {
        let mut cells: Vec<StateCell> = Vec::new();
        let mut id: u8 = 1;
        while id <= 24
            invariant
                1 <= id <= 25,
                cells@.len() == id - 1,
                forall|i: int|
                    #![trigger cells@[i]]
                    0 <= i < cells@.len() ==> {
                        &&& cells@[i].id == i + 1
                        &&& cells@[i].neighbors@ == default_neighbors((i + 1) as u8)
                        &&& cells@[i].name@ == default_name((i + 1) as u8)
                        &&& cells@[i].description@ == default_description((i + 1) as u8)
                    },
            decreases 25 - id,
        {
            cells.push(make_cell(id));
            id = id + 1;
        }
        Topology24Cell { cells }
    }

    /// Builds a topology from cells whose ids strictly increase; `None` otherwise.
    pub fn from_cells(cells: Vec<StateCell>) -> (r: Option<Self>)
        ensures
            r is Some <==> ids_increasing(cells@),
            r matches Some(t) ==> t.spec_cells() == cells@,
    {
        let n = cells.len();
        let mut i: usize = 1;
        while i < n
            invariant
                n == cells@.len(),
                1 <= i,
                forall|a: int, b: int| 0 <= a < b < i && b < n ==> cells@[a].id < cells@[b].id,
            decreases n - i,
        {
            if cells[i - 1].id >= cells[i].id {
                return None;
            }
            i = i + 1;
        }
        Some(Topology24Cell { cells })
    }

    /// The cells, in increasing id order.
    pub fn cells(&self) -> (r: &Vec<StateCell>)
        ensures
            r@ == self.spec_cells(),
    {
        &self.cells
    }

    /// The cell with the given id, if any.
    pub fn get_cell(&self, id: u8) -> (r: Option<&StateCell>)
        ensures
            match r {
                Some(c) => find_cell(self.spec_cells(), id) == Some(*c),
                None => find_cell(self.spec_cells(), id) is None,
            },
    {
        let mut i: usize = 0;
        while i < self.cells.len()
            invariant
                i <= self.cells@.len(),
                forall|j: int| 0 <= j < i ==> self.cells@[j].id != id,
            decreases self.cells@.len() - i,
        {
            if self.cells[i].id == id {
                proof {
                    lemma_find_cell_first(self.cells@, i as int);
                }
                return Some(&self.cells[i]);
            }
            i = i + 1;
        }
        proof {
            lemma_find_cell_absent(self.cells@, id);
        }
        None
    }

    /// A cell is its own neighbor; otherwise `cell_b` must be listed by `cell_a`.
    pub fn is_4d_neighbor(&self, cell_a: u8, cell_b: u8) -> (r: bool)
        ensures
            r == neighbor_in(self.spec_cells(), cell_a, cell_b),
    {
        if cell_a == cell_b {
            return true;
        }
        match self.get_cell(cell_a) {
            Some(cell) => {
                let ghost found = find_cell(self.spec_cells(), cell_a);
                assert(found == Some(*cell));
                let mut k: usize = 0;
                while k < cell.neighbors.len()
                    invariant
                        k <= cell.neighbors@.len(),
                        cell_a != cell_b,
                        found == Some(*cell),
                        found == find_cell(self.spec_cells(), cell_a),
                        forall|j: int| 0 <= j < k ==> cell.neighbors@[j] != cell_b,
                    decreases cell.neighbors@.len() - k,
                {
                    if cell.neighbors[k] == cell_b {
                        assert(cell.neighbors@[k as int] == cell_b);
                        return true;
                    }
                    k = k + 1;
                }
                false
            },
            None => false,
        }
    }

    /// Topological distance multiplier between two cells, in hundredths:
    /// direct match 100, 4D neighbor 90, non-neighbor 80.
    pub fn topological_boost(&self, target_cell: u8, query_cell: u8) -> (r: u32)
        ensures
            r == boost_in(self.spec_cells(), target_cell, query_cell),
    {
        if target_cell == query_cell {
            100
        } else if self.is_4d_neighbor(target_cell, query_cell) {
            90
        } else {
            80
        }
    }

    /// The number of cells.
    pub fn len(&self) -> (r: usize)
        ensures
            r == self.spec_cells().len(),
    {
        self.cells.len()
    }
}

impl Default for Topology24Cell {
    fn default() -> (t: Self)
        ensures
            is_default_ontology(t.spec_cells()),
    {
        Self::new()
    }
}

/// In the default ontology adjacency is symmetric: if `b` is a neighbor of `a`, then `a`
/// is a neighbor of `b`.
pub proof fn lemma_default_topology_symmetric(t: Topology24Cell, a: u8, b: u8)
    requires
        is_default_ontology(t.spec_cells()),
        neighbor_in(t.spec_cells(), a, b),
    ensures
        neighbor_in(t.spec_cells(), b, a),
{
    let cells = t.spec_cells();
    assert(ids_increasing(cells));
    if a != b {
        let c = find_cell(cells, a)->0;
        if 1 <= a <= 24 {
            assert(cells[a - 1].id == a);
            lemma_find_cell_at(cells, a - 1);
        } else {
            assert forall|i: int| 0 <= i < cells.len() implies cells[i].id != a by {
                assert(cells[i].id == i + 1);
            }
            lemma_find_cell_absent(cells, a);
        }
        assert(c.neighbors@ == default_neighbors(a));
        lemma_default_neighbors_symmetric(a, b);
        assert(1 <= b <= 24) by {
            let j = choose|j: int| 0 <= j < default_neighbors(a).len() && default_neighbors(a)[j] == b;
            assert(default_neighbors(a).contains(b));
            lemma_default_neighbor_range(a, j);
        }
        assert(cells[b - 1].id == b);
        lemma_find_cell_at(cells, b - 1);
    }
}

/// Every listed neighbor id is a cell id.
pub proof fn lemma_default_neighbor_range(a: u8, j: int)
    requires
        0 <= j < default_neighbors(a).len(),
    ensures
        1 <= default_neighbors(a)[j] <= 24,
{
}

} // verus!
