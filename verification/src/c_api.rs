//! The decision logic behind the C ABI: the engine state a handle holds, decoding the
//! numeric enums the C side passes, splitting the comma-separated tag list, and escaping
//! text for the JSON reply. The exported C functions themselves (pointers, locking, the
//! floating-point re-ranking) live with the program around the library.
use vstd::prelude::*;
use crate::affect_overlay::AffectState;
use crate::canon::CanonLevel;
use crate::ids::{hex_digit, hex_digit_char};
use crate::entities::{scan_back, scan_until};
use crate::graph_nexus::{
    after_feedback, capacity_enforced, count_promotable, has_id, node_created, promoted, update_where, MemoryGraphNexus,
    MemoryNode,
};
use crate::keys::string_views;
use crate::vector_index::{CapiIndex, SimpleVectorIndex, VectorSearchResult};
use crate::provenance::SourceType;
use crate::text::{chars_of, is_whitespace, push_char, spec_is_whitespace, string_of};
use crate::util::mask_filter;

verus! {

/// The provenance code of the C ABI: 0 user utterance, 1 LLM generation, 2 LLM
/// self-description, 3 external document, 4 verified external, anything else unknown.
pub open spec fn spec_source_from_u8(v: u8) -> SourceType {
    if v == 0 {
        SourceType::UserUtterance
    } else if v == 1 {
        SourceType::LlmGeneration
    } else if v == 2 {
        SourceType::LlmSelfDescription
    } else if v == 3 {
        SourceType::ExternalDoc
    } else if v == 4 {
        SourceType::VerifiedExternal
    } else {
        SourceType::UnknownLegacy
    }
}

/// The canon code of the C ABI: 1 L1 project, 2 L2 foundational, anything else none.
pub open spec fn spec_canon_from_u8(v: u8) -> CanonLevel {
    if v == 1 {
        CanonLevel::L1Project
    } else if v == 2 {
        CanonLevel::L2Foundational
    } else {
        CanonLevel::NotCanon
    }
}

pub fn source_from_u8(v: u8) -> (r: SourceType)
    ensures
        r == spec_source_from_u8(v),
{
    match v {
        0 => SourceType::UserUtterance,
        1 => SourceType::LlmGeneration,
        2 => SourceType::LlmSelfDescription,
        3 => SourceType::ExternalDoc,
        4 => SourceType::VerifiedExternal,
        _ => SourceType::UnknownLegacy,
    }
}

pub fn canon_from_u8(v: u8) -> (r: CanonLevel)
    ensures
        r == spec_canon_from_u8(v),
{
    match v {
        1 => CanonLevel::L1Project,
        2 => CanonLevel::L2Foundational,
        _ => CanonLevel::NotCanon,
    }
}

/// A character with whether it is whitespace (`char::is_whitespace`).
pub type SpacedChar = (char, bool);

/// The characters of a text with their whitespace class.
pub open spec fn classify_spaces(s: Seq<char>) -> Seq<SpacedChar> {
    s.map_values(|c: char| (c, spec_is_whitespace(c)))
}

/// The comma-separated fields of `s` from position `i`, given the field `cur` in
/// progress (as `str::split(',')` yields them: every comma ends a field).
pub open spec fn fields_from(s: Seq<SpacedChar>, i: int, cur: Seq<SpacedChar>) -> Seq<Seq<SpacedChar>>
    decreases s.len() - i,
{
    if i < 0 || i >= s.len() {
        seq![cur]
    } else if s[i].0 == ',' {
        seq![cur] + fields_from(s, i + 1, Seq::empty())
    } else {
        fields_from(s, i + 1, cur.push(s[i]))
    }
}

/// A field without leading and trailing whitespace (`str::trim`), as characters.
pub open spec fn trim_ws(w: Seq<SpacedChar>) -> Seq<char> {
    let start = scan_until(w, 0, |c: SpacedChar| !c.1);
    w.subrange(start, scan_back(w, w.len() as int, start, |c: SpacedChar| !c.1)).map_values(|c: SpacedChar| c.0)
}

/// The fields of a list, each trimmed, without the empty ones.
pub open spec fn tags_of(fields: Seq<Seq<SpacedChar>>) -> Seq<Seq<char>> {
    let t = fields.map_values(|f: Seq<SpacedChar>| trim_ws(f));
    mask_filter(t, t.map_values(|f: Seq<char>| f.len() > 0))
}

/// The tags of a classified comma-separated list: each field trimmed, empty ones dropped.
pub open spec fn spec_parse_tags_classified(s: Seq<SpacedChar>) -> Seq<Seq<char>> {
    tags_of(fields_from(s, 0, Seq::empty()))
}

/// The tags of a comma-separated list: each field trimmed, empty ones dropped.
pub open spec fn spec_parse_tags(s: Seq<char>) -> Seq<Seq<char>> {
    spec_parse_tags_classified(classify_spaces(s))
}

/// One field, trimmed.
fn trim_field(w: &Vec<SpacedChar>) -> (t: Vec<char>)
    ensures
        t@ == trim_ws(w@),
{
    let n = w.len();
    let mut a: usize = 0;
    while a < n && w[a].1
        invariant
            n == w@.len(),
            a <= n,
            forall|k: int| 0 <= k < a ==> (#[trigger] w@[k]).1,
        decreases n - a,
    {
        a = a + 1;
    }
    proof {
        crate::entities::lemma_scan_until(w@, 0, a as int, |c: SpacedChar| !c.1);
    }
    let mut b: usize = n;
    while b > a && w[b - 1].1
        invariant
            n == w@.len(),
            a <= b <= n,
            forall|k: int| b <= k < n ==> (#[trigger] w@[k]).1,
        decreases b - a,
    {
        b = b - 1;
    }
    proof {
        crate::entities::lemma_scan_back(w@, n as int, b as int, a as int, |c: SpacedChar| !c.1);
    }
    let mut t: Vec<char> = Vec::new();
    let mut k: usize = a;
    while k < b
        invariant
            n == w@.len(),
            a <= k <= b <= n,
            t@ == w@.subrange(a as int, k as int).map_values(|c: SpacedChar| c.0),
        decreases b - k,
    {
        t.push(w[k].0);
        proof {
            assert(w@.subrange(a as int, k + 1).map_values(|c: SpacedChar| c.0) =~= w@.subrange(a as int, k as int).map_values(
                |c: SpacedChar| c.0,
            ).push(w@[k as int].0));
        }
        k = k + 1;
    }
    t
}

/// The tags of a single field: the field trimmed, or nothing when that is empty.
proof fn lemma_tags_of_one(w: Seq<SpacedChar>)
    ensures
        tags_of(seq![w]) == (if trim_ws(w).len() > 0 { seq![trim_ws(w)] } else { Seq::<Seq<char>>::empty() }),
{
    let t = seq![w].map_values(|f: Seq<SpacedChar>| trim_ws(f));
    assert(t =~= seq![trim_ws(w)]);
    let fl = t.map_values(|f: Seq<char>| f.len() > 0);
    assert(t.drop_last() =~= Seq::<Seq<char>>::empty());
    assert(mask_filter(t.drop_last(), fl.subrange(0, 0)) =~= Seq::<Seq<char>>::empty());
    assert(Seq::<Seq<char>>::empty().push(trim_ws(w)) =~= seq![trim_ws(w)]);
}

/// Adds a finished field to the tags, unless it is empty once trimmed.
fn add_field(out: &mut Vec<String>, field: &Vec<SpacedChar>)
    ensures
        string_views(final(out)@) == string_views(old(out)@) + tags_of(seq![field@]),
{
    let t = trim_field(field);
    let ghost before = string_views(out@);
    proof {
        lemma_tags_of_one(field@);
    }
    if t.len() > 0 {
        out.push(string_of(t.as_slice()));
        assert(string_views(out@) =~= before + seq![trim_ws(field@)]);
    } else {
        assert(string_views(out@) =~= before + Seq::<Seq<char>>::empty());
    }
}

/// Trimming and dropping empty fields distribute over concatenated field lists.
proof fn lemma_tags_add(a: Seq<Seq<SpacedChar>>, b: Seq<Seq<SpacedChar>>)
    ensures
        tags_of(a + b) == tags_of(a) + tags_of(b),
    decreases b.len(),
{
    let ta = a.map_values(|w: Seq<SpacedChar>| trim_ws(w));
    let tb = b.map_values(|w: Seq<SpacedChar>| trim_ws(w));
    let tab = (a + b).map_values(|w: Seq<SpacedChar>| trim_ws(w));
    assert(tab =~= ta + tb);
    if b.len() > 0 {
        lemma_tags_add(a, b.drop_last());
        let b1 = b.drop_last();
        let tb1 = b1.map_values(|w: Seq<SpacedChar>| trim_ws(w));
        assert((a + b).drop_last() =~= a + b1);
        assert(tab.drop_last() =~= (a + b1).map_values(|w: Seq<SpacedChar>| trim_ws(w)));
        assert(tb.drop_last() =~= tb1);
        let fl = tab.map_values(|w: Seq<char>| w.len() > 0);
        assert(fl.subrange(0, tab.len() - 1) =~= (a + b1).map_values(|w: Seq<SpacedChar>| trim_ws(w)).map_values(|w: Seq<char>| w.len() > 0));
        let flb = tb.map_values(|w: Seq<char>| w.len() > 0);
        assert(flb.subrange(0, tb.len() - 1) =~= tb1.map_values(|w: Seq<char>| w.len() > 0));
        assert(tab.last() == tb.last());
    } else {
        assert(b =~= Seq::<Seq<SpacedChar>>::empty());
        assert(a + b =~= a);
        assert(tb =~= Seq::<Seq<char>>::empty());
    }
}

/// The tags of a classified comma-separated list (see [`spec_parse_tags_classified`]).
pub fn parse_tags_classified(cs: &[SpacedChar]) -> (r: Vec<String>)
    ensures
        string_views(r@) == spec_parse_tags_classified(cs@),
{
    let mut out: Vec<String> = Vec::new();
    let mut cur: Vec<SpacedChar> = Vec::new();
    let mut i: usize = 0;
    proof {
        assert(string_views(out@) =~= Seq::<Seq<char>>::empty());
        assert(Seq::<Seq<char>>::empty() + tags_of(fields_from(cs@, 0, cur@)) =~= tags_of(fields_from(cs@, 0, cur@)));
    }
    while i < cs.len()
        invariant
            i <= cs@.len(),
            string_views(out@) + tags_of(fields_from(cs@, i as int, cur@)) == spec_parse_tags_classified(cs@),
        decreases cs@.len() - i,
    {
        if cs[i].0 == ',' {
            let ghost before = string_views(out@);
            add_field(&mut out, &cur);
            proof {
                lemma_tags_add(seq![cur@], fields_from(cs@, i + 1, Seq::empty()));
                assert(string_views(out@) + tags_of(fields_from(cs@, i + 1, Seq::empty())) =~= before + tags_of(fields_from(cs@, i as int, cur@)));
            }
            cur = Vec::new();
        } else {
            cur.push(cs[i]);
        }
        i = i + 1;
    }
    add_field(&mut out, &cur);
    proof {
        assert(fields_from(cs@, i as int, cur@) == seq![cur@]);
    }
    out
}

/// The tags of a comma-separated list (see [`spec_parse_tags`]).
pub fn parse_tags_csv(csv: &str) -> (r: Vec<String>)
    ensures
        string_views(r@) == spec_parse_tags(csv@),
{
    let cs = chars_of(csv);
    let mut classified: Vec<SpacedChar> = Vec::new();
    let mut i: usize = 0;
    while i < cs.len()
        invariant
            cs@ == csv@,
            i <= cs@.len(),
            classified@ == classify_spaces(cs@.subrange(0, i as int)),
        decreases cs@.len() - i,
    {
        let c = cs[i];
        classified.push((c, is_whitespace(c)));
        proof {
            assert(classify_spaces(cs@.subrange(0, i + 1)) =~= classify_spaces(cs@.subrange(0, i as int)).push((c, spec_is_whitespace(c))));
        }
        i = i + 1;
    }
    proof {
        assert(cs@.subrange(0, cs@.len() as int) =~= cs@);
    }
    parse_tags_classified(classified.as_slice())
}

/// A character as it is written inside a JSON string: backslash and double quote are
/// escaped with a backslash; newline, carriage return and tab by their short escapes;
/// any other character below U+0020 as `\u00XX`; everything else is copied.
pub open spec fn escape_char(c: char) -> Seq<char> {
    if c == '\\' {
        seq!['\\', '\\']
    } else if c == '"' {
        seq!['\\', '"']
    } else if c == '\n' {
        seq!['\\', 'n']
    } else if c == '\r' {
        seq!['\\', 'r']
    } else if c == '\t' {
        seq!['\\', 't']
    } else if (c as u32) < 0x20 {
        seq!['\\', 'u', '0', '0', hex_digit(((c as u32) / 16) as u64), hex_digit(((c as u32) % 16) as u64)]
    } else {
        seq![c]
    }
}

/// Escaped text.
pub open spec fn spec_escape(s: Seq<char>) -> Seq<char>
    decreases s.len(),
{
    if s.len() == 0 {
        Seq::empty()
    } else {
        spec_escape(s.drop_last()) + escape_char(s.last())
    }
}

/// Escapes text for a JSON string (see [`escape_char`]), so that the reply is valid JSON
/// whatever the stored content holds.
pub fn escape_json_text(s: &str) -> (r: String)
    ensures
        r@ == spec_escape(s@),
{
    let cs = chars_of(s);
    let mut r = String::new();
    let mut i: usize = 0;
    while i < cs.len()
        invariant
            i <= cs@.len(),
            r@ == spec_escape(cs@.subrange(0, i as int)),
        decreases cs@.len() - i,
    {
        let c = cs[i];
        proof {
            assert(cs@.subrange(0, i + 1).drop_last() =~= cs@.subrange(0, i as int));
        }
        let code = c as u32;
        if c == '\\' {
            push_char(&mut r, '\\');
            push_char(&mut r, '\\');
        } else if c == '"' {
            push_char(&mut r, '\\');
            push_char(&mut r, '"');
        } else if c == '\n' {
            push_char(&mut r, '\\');
            push_char(&mut r, 'n');
        } else if c == '\r' {
            push_char(&mut r, '\\');
            push_char(&mut r, 'r');
        } else if c == '\t' {
            push_char(&mut r, '\\');
            push_char(&mut r, 't');
        } else if code < 0x20 {
            push_char(&mut r, '\\');
            push_char(&mut r, 'u');
            push_char(&mut r, '0');
            push_char(&mut r, '0');
            push_char(&mut r, hex_digit_char((code / 16) as u64));
            push_char(&mut r, hex_digit_char((code % 16) as u64));
        } else {
            push_char(&mut r, c);
        }
        proof {
            assert(r@ =~= spec_escape(cs@.subrange(0, i + 1)));
        }
        i = i + 1;
    }
    proof {
        assert(cs@.subrange(0, cs@.len() as int) =~= cs@);
    }
    r
}

/// Every embedding in the index belongs to a stored node.
pub open spec fn index_within(nodes: Seq<MemoryNode>, index: Option<SimpleVectorIndex>) -> bool {
    match index {
        Some(i) => forall|k: int| 0 <= k < i.spec_ids().len() ==> has_id(nodes, #[trigger] i.spec_ids()[k]),
        None => true,
    }
}

/// The entries of an optional index (none when there is no index).
pub open spec fn index_entries(index: Option<SimpleVectorIndex>) -> Seq<(Seq<char>, Seq<u32>)> {
    match index {
        Some(i) => i.spec_entries(),
        None => Seq::empty(),
    }
}

/// The state behind one C ABI handle: the graph, and the vector index that the first
/// embedding creates (its dimension fixed by that embedding).
pub struct EngineState {
    nexus: MemoryGraphNexus,
    index: Option<CapiIndex>,
}

impl EngineState {
    /// The graph.
    pub closed spec fn spec_nexus(&self) -> MemoryGraphNexus {
        self.nexus
    }

    /// The vector index, once the first embedding has created it.
    pub closed spec fn spec_index(&self) -> Option<CapiIndex> {
        self.index
    }

    /// The graph invariant.
    pub open spec fn wf(&self) -> bool {
        self.spec_nexus().wf()
    }

    /// The graph.
    pub fn nexus(&self) -> (r: &MemoryGraphNexus)
        ensures
            *r == self.spec_nexus(),
    {
        &self.nexus
    }

    /// The vector index, if an embedding has been added.
    pub fn index(&self) -> (r: &Option<CapiIndex>)
        ensures
            *r == self.spec_index(),
    {
        &self.index
    }

    /// An empty engine with the default ontology and no index yet.
    pub fn new() -> (e: Self)
        ensures
            e.wf(),
            e.spec_nexus().spec_nodes() == Seq::<MemoryNode>::empty(),
            e.spec_index() is None,
    {
        EngineState { nexus: MemoryGraphNexus::new(), index: None }
    }

    /// An engine from a graph and an index (as a snapshot holds them), or `None` when the
    /// graph breaks its invariant. The index is taken as it is: an embedding of a node the
    /// graph does not store stays until a capacity eviction clears it.
    pub fn from_parts(nexus: MemoryGraphNexus, index: Option<CapiIndex>) -> (r: Option<Self>)
        ensures
            r is Some <==> nexus.wf(),
            r matches Some(e) ==> e.spec_nexus() == nexus && e.spec_index() == index,
    {
        if !nexus.is_well_formed() {
            return None;
        }
        Some(EngineState { nexus, index })
    }

    /// Adds a node from the C side's values: the content doubles as summary, the tags are
    /// the comma-separated list trimmed with empty ones dropped, and the provenance and
    /// canon codes are decoded. A non-empty embedding (f32 bits) goes to the index, which
    /// the first one creates with its dimension; one of another dimension is not stored.
    pub fn add_node(
        &mut self,
        content: String,
        tags_csv: &str,
        source_type: u8,
        cell_id: u8,
        canon_level: u8,
        embedding: Option<Vec<u32>>,
    ) -> (id: String)
        requires
            old(self).wf(),
        ensures
            final(self).wf(),
            index_within(old(self).spec_nexus().spec_nodes(), old(self).spec_index()) ==> index_within(
                final(self).spec_nexus().spec_nodes(),
                final(self).spec_index(),
            ),
            exists|tags: Vec<String>|
                {
                    &&& string_views(tags@) == spec_parse_tags(tags_csv@)
                    &&& node_created(
                        old(self).spec_nexus(),
                        final(self).spec_nexus(),
                        id@,
                        content,
                        content,
                        tags,
                        spec_source_from_u8(source_type),
                        cell_id,
                        None,
                        spec_canon_from_u8(canon_level),
                    )
                },
            match embedding {
                Some(v) => if v@.len() > 0 {
                    let dim = match old(self).spec_index() {
                        Some(i) => i.spec_dimension(),
                        None => v@.len() as usize,
                    };
                    &&& final(self).spec_index() matches Some(i) && i.spec_dimension() == dim
                    &&& index_entries(final(self).spec_index()) == if v@.len() == dim {
                        index_entries(old(self).spec_index()).push((id@, v@))
                    } else {
                        index_entries(old(self).spec_index())
                    }
                } else {
                    final(self).spec_index() == old(self).spec_index()
                },
                None => final(self).spec_index() == old(self).spec_index(),
            },
    {
        let tags = parse_tags_csv(tags_csv);
        let ghost tv = tags;
        let ghost content_g = content;
        let summary = content.clone();
        let id = self.nexus.create_node(
            content,
            summary,
            tags,
            source_from_u8(source_type),
            cell_id,
            None,
            canon_from_u8(canon_level),
        );
        proof {
            assert(string_views(tv@) == spec_parse_tags(tags_csv@));
            assert(node_created(
                old(self).spec_nexus(),
                self.nexus,
                id@,
                content_g,
                content_g,
                tv,
                spec_source_from_u8(source_type),
                cell_id,
                None,
                spec_canon_from_u8(canon_level),
            ));
        }
        let ghost nodes = self.nexus.spec_nodes();
        let ghost old_nodes = old(self).spec_nexus().spec_nodes();
        assert forall|x: Seq<char>| has_id(old_nodes, x) implies has_id(nodes, x) by {
            if x != id@ {
            }
        }
        match embedding {
            Some(v) => {
                if v.len() > 0 {
                    let mut idx = match self.index.take() {
                        Some(i) => i,
                        None => SimpleVectorIndex::new(v.len()),
                    };
                    let ghost before = idx.spec_entries();
                    let ghost within = index_within(old_nodes, old(self).spec_index());
                    assert(before == index_entries(old(self).spec_index()));
                    assert forall|k: int| within && 0 <= k < before.len() implies has_id(old_nodes, #[trigger] before[k].0) by {
                        match old(self).spec_index() {
                            Some(i0) => {
                                assert(i0.spec_ids()[k] == before[k].0);
                            },
                            None => {},
                        }
                    }
                    let _ = idx.insert(id.clone(), v);
                    proof {
                        assert forall|k: int| within && 0 <= k < idx.spec_ids().len() implies has_id(nodes, #[trigger] idx.spec_ids()[k]) by {
                            if k < before.len() {
                                assert(idx.spec_ids()[k] == before[k].0);
                                assert(has_id(old_nodes, before[k].0));
                            } else {
                                assert(idx.spec_ids()[k] == id@);
                            }
                        }
                    }
                    self.index = Some(idx);
                }
            },
            None => {},
        }
        assert(string_views(tv@) == spec_parse_tags(tags_csv@) && node_created(
            old(self).spec_nexus(),
            self.spec_nexus(),
            id@,
            content_g,
            content_g,
            tv,
            spec_source_from_u8(source_type),
            cell_id,
            None,
            spec_canon_from_u8(canon_level),
        ));
        id
    }

    /// Sets the affect of a node: 0 when the node exists, 2 when it does not.
    pub fn set_affect(&mut self, node_id: &str, affect: AffectState) -> (rc: i32)
        requires
            old(self).wf(),
        ensures
            final(self).wf(),
            rc == if has_id(old(self).spec_nexus().spec_nodes(), node_id@) { 0i32 } else { 2i32 },
            final(self).spec_nexus().spec_nodes() == update_where(
                old(self).spec_nexus().spec_nodes(),
                node_id@,
                |n: MemoryNode| MemoryNode { affect: affect, ..n },
            ),
            final(self).spec_nexus().same_but_nodes(&old(self).spec_nexus()),
            final(self).spec_index() == old(self).spec_index(),
            index_within(old(self).spec_nexus().spec_nodes(), old(self).spec_index()) ==> index_within(
                final(self).spec_nexus().spec_nodes(),
                final(self).spec_index(),
            ),
    {
        let ghost before = self.nexus.spec_nodes();
        let ok = self.nexus.set_node_affect(node_id, affect);
        proof {
            if index_within(before, self.index) {
                self.lemma_same_ids_keep_index(before);
            }
        }
        if ok {
            0
        } else {
            2
        }
    }

    /// Records a human verdict (`helpful != 0` confirms): 0 when the node exists, 2 when it
    /// does not.
    pub fn record_feedback(&mut self, node_id: &str, helpful: i32) -> (rc: i32)
        requires
            old(self).wf(),
        ensures
            final(self).wf(),
            rc == if has_id(old(self).spec_nexus().spec_nodes(), node_id@) { 0i32 } else { 2i32 },
            final(self).spec_nexus().spec_nodes() == update_where(
                old(self).spec_nexus().spec_nodes(),
                node_id@,
                |n: MemoryNode| after_feedback(n, helpful != 0),
            ),
            final(self).spec_nexus().same_but_nodes(&old(self).spec_nexus()),
            final(self).spec_index() == old(self).spec_index(),
            index_within(old(self).spec_nexus().spec_nodes(), old(self).spec_index()) ==> index_within(
                final(self).spec_nexus().spec_nodes(),
                final(self).spec_index(),
            ),
    {
        let ghost before = self.nexus.spec_nodes();
        let ok = self.nexus.record_human_feedback(node_id, helpful != 0);
        proof {
            if index_within(before, self.index) {
                self.lemma_same_ids_keep_index(before);
            }
        }
        if ok {
            0
        } else {
            2
        }
    }

    /// Promotes the nodes confirmed at least `min_confirmations` times to the decoded canon
    /// level (a code that decodes to no canon promotes nothing); returns how many.
    pub fn promote_confirmed(&mut self, min_confirmations: u32, canon_level: u8) -> (count: usize)
        requires
            old(self).wf(),
        ensures
            final(self).wf(),
            final(self).spec_nexus().same_but_nodes(&old(self).spec_nexus()),
            final(self).spec_index() == old(self).spec_index(),
            index_within(old(self).spec_nexus().spec_nodes(), old(self).spec_index()) ==> index_within(
                final(self).spec_nexus().spec_nodes(),
                final(self).spec_index(),
            ),
            !spec_canon_from_u8(canon_level).spec_is_canon() ==> count == 0 && final(self).spec_nexus().spec_nodes()
                == old(self).spec_nexus().spec_nodes(),
            spec_canon_from_u8(canon_level).spec_is_canon() ==> {
                &&& count == count_promotable(old(self).spec_nexus().spec_nodes(), min_confirmations)
                &&& final(self).spec_nexus().spec_nodes() == old(self).spec_nexus().spec_nodes().map_values(
                    |n: MemoryNode| promoted(n, min_confirmations, spec_canon_from_u8(canon_level)),
                )
            },
    {
        let ghost before = self.nexus.spec_nodes();
        let count = self.nexus.promote_confirmed_to_canon(min_confirmations, canon_from_u8(canon_level));
        proof {
            if index_within(before, self.index) {
                self.lemma_same_ids_keep_index(before);
            }
        }
        count
    }

    /// Changing nodes without changing their ids keeps every indexed id stored.
    proof fn lemma_same_ids_keep_index(&self, before: Seq<MemoryNode>)
        requires
            index_within(before, self.index),
            self.nexus.spec_nodes().len() == before.len(),
            forall|i: int| 0 <= i < before.len() ==> (#[trigger] self.nexus.spec_nodes()[i]).id@ == before[i].id@,
        ensures
            index_within(self.nexus.spec_nodes(), self.index),
    {
        match self.index {
            Some(ix) => {
                assert forall|k: int| 0 <= k < ix.spec_ids().len() implies has_id(self.nexus.spec_nodes(), #[trigger] ix.spec_ids()[k]) by {
                    let x = ix.spec_ids()[k];
                    let i = choose|i: int| 0 <= i < before.len() && before[i].id@ == x;
                    assert(self.nexus.spec_nodes()[i].id@ == x);
                }
            },
            None => {},
        }
    }

    /// Evicts under capacity pressure (see [`MemoryGraphNexus::enforce_capacity`]); when
    /// nodes were evicted, their embeddings leave the index too, so the eviction frees the
    /// bulk of a node's cost. Returns the number of nodes evicted.
    pub fn enforce_capacity(&mut self, max_nodes: usize) -> (evicted: usize)
        requires
            old(self).wf(),
        ensures
            final(self).wf(),
            capacity_enforced(old(self).spec_nexus(), final(self).spec_nexus(), max_nodes, evicted as nat),
            evicted == 0 ==> final(self).spec_index() == old(self).spec_index(),
            evicted > 0 ==> index_within(final(self).spec_nexus().spec_nodes(), final(self).spec_index()),
            evicted > 0 ==> index_entries(final(self).spec_index()) == mask_filter(
                index_entries(old(self).spec_index()),
                index_entries(old(self).spec_index()).map_values(
                    |e: (Seq<char>, Seq<u32>)| has_id(final(self).spec_nexus().spec_nodes(), e.0),
                ),
            ),
            final(self).spec_index() is Some <==> old(self).spec_index() is Some,
            final(self).spec_index() matches Some(i) ==> i.spec_dimension() == old(self).spec_index()->0.spec_dimension(),
    {
        let evicted = self.nexus.enforce_capacity(max_nodes);
        if evicted > 0 {
            match self.index.take() {
                Some(mut idx) => {
                    let keep = self.stored_ids();
                    let ghost before = idx.spec_entries();
                    idx.retain_ids(keep.as_slice());
                    proof {
                        let nodes = self.nexus.spec_nodes();
                        let f1 = before.map_values(|e: (Seq<char>, Seq<u32>)| string_views(keep@).contains(e.0));
                        let f2 = before.map_values(|e: (Seq<char>, Seq<u32>)| has_id(nodes, e.0));
                        assert(f1 =~= f2);
                        let idxl = crate::util::lemma_mask_filter_indices(before, f2);
                        assert forall|k: int| 0 <= k < idx.spec_ids().len() implies has_id(nodes, #[trigger] idx.spec_ids()[k]) by {
                            assert(idx.spec_entries()[k] == before[idxl[k]]);
                            assert(f2[idxl[k]]);
                        }
                    }
                    self.index = Some(idx);
                },
                None => {
                    proof {
                        assert(index_entries(None::<SimpleVectorIndex>) =~= Seq::<(Seq<char>, Seq<u32>)>::empty());
                    }
                },
            }
        }
        evicted
    }

    /// The ids of the stored nodes, in id order.
    fn stored_ids(&self) -> (r: Vec<String>)
        requires
            self.nexus.wf(),
        ensures
            forall|x: Seq<char>| string_views(r@).contains(x) <==> has_id(self.nexus.spec_nodes(), x),
    {
        let nodes = self.nexus.nodes();
        let mut r: Vec<String> = Vec::new();
        let mut i: usize = 0;
        while i < nodes.len()
            invariant
                i <= nodes@.len(),
                nodes@ == self.nexus.spec_nodes(),
                string_views(r@) == nodes@.subrange(0, i as int).map_values(|n: MemoryNode| n.id@),
            decreases nodes@.len() - i,
        {
            let ghost old_r = string_views(r@);
            r.push(nodes[i].id.clone());
            proof {
                assert(string_views(r@) =~= old_r.push(nodes@[i as int].id@));
                assert(nodes@.subrange(0, i + 1).map_values(|n: MemoryNode| n.id@) =~= nodes@.subrange(0, i as int).map_values(|n: MemoryNode| n.id@).push(nodes@[i as int].id@));
            }
            i = i + 1;
        }
        proof {
            let ids = nodes@.map_values(|n: MemoryNode| n.id@);
            assert(nodes@.subrange(0, nodes@.len() as int) =~= nodes@);
            assert forall|x: Seq<char>| string_views(r@).contains(x) <==> has_id(self.nexus.spec_nodes(), x) by {
                if string_views(r@).contains(x) {
                    let k = choose|k: int| 0 <= k < ids.len() && ids[k] == x;
                    assert(nodes@[k].id@ == x);
                }
                if has_id(self.nexus.spec_nodes(), x) {
                    let k = choose|k: int| 0 <= k < nodes@.len() && nodes@[k].id@ == x;
                    assert(ids[k] == x);
                }
            }
        }
        r
    }

    /// The search candidates that recall admits (see
    /// [`MemoryGraphNexus::recall_candidates`]).
    pub fn recall_candidates(&self, candidates: Vec<VectorSearchResult>) -> (r: Vec<VectorSearchResult>)
        requires
            self.wf(),
        ensures
            r@ == crate::graph_nexus::spec_recall_candidates(self.spec_nexus().spec_nodes(), candidates@),
    {
        self.nexus.recall_candidates(candidates)
    }
}

} // verus!
