//! The index from card names to the identities that bear them.

use std::collections::BTreeMap;

use vstd::prelude::*;

use crate::maps::{row_holds, TextMap};
use crate::numbered::{ascending_keys, in_order, increasing, lemma_in_order};
use crate::script::{first_value, optional_view, top_level_value};
use crate::scryfall::{
    as_text, color_identity_of, commander_color_identity, str_view, ScryfallCard, ScryfallFace,
};
use crate::signatures::{
    card_signature, face_signature, forge_script_signature, normalize_oracle_text, oracle_text_of,
    script_signature, scryfall_card_signature, scryfall_face_signature, CardSignature,
    FaceSignature,
};
use crate::text::{chars_of, reads, string_of, string_views, trim, trimmed};
use crate::uuids::Uuid;

verus! {

broadcast use vstd::std_specs::btree::group_btree_axioms;

/// The identity that all printings of a card share.
#[derive(Clone, Copy, Debug, Eq, Ord, PartialEq, PartialOrd, Structural)]
pub struct OracleId(pub Uuid);

/// What is known of an identity: the rules texts and the signatures it was
/// seen with.
#[derive(Debug)]
pub struct IdentityEvidence {
    oracle_texts: Vec<String>,
    signatures: Vec<CardSignature>,
}

/// The signatures' costs and types.
spec fn signature_views(signatures: Seq<CardSignature>) -> Seq<Seq<(Seq<char>, Seq<char>)>> {
    Seq::new(signatures.len(), |i: int| signatures[i]@)
}

/// Evidence as two sets.
#[verifier::ext_equal]
pub struct Evidence {
    pub oracle_texts: Set<Seq<char>>,
    pub signatures: Set<Seq<(Seq<char>, Seq<char>)>>,
}

impl View for IdentityEvidence {
    type V = Evidence;

    closed spec fn view(&self) -> Evidence {
        Evidence {
            oracle_texts: string_views(self.oracle_texts@).to_set(),
            signatures: signature_views(self.signatures@).to_set(),
        }
    }
}

/// No evidence.
pub open spec fn no_evidence() -> Evidence {
    Evidence { oracle_texts: Set::empty(), signatures: Set::empty() }
}

impl IdentityEvidence {
    /// Nothing is kept twice.
    #[verifier::type_invariant]
    spec fn distinct(self) -> bool {
        &&& string_views(self.oracle_texts@).no_duplicates()
        &&& signature_views(self.signatures@).no_duplicates()
    }

    /// No evidence yet.
    fn new() -> (out: IdentityEvidence)
        ensures
            out@ == no_evidence(),
    {
        let out = IdentityEvidence { oracle_texts: Vec::new(), signatures: Vec::new() };
        assert(out@ =~= no_evidence()) by {
            assert(string_views(out.oracle_texts@).to_set() =~= Set::empty());
            assert(signature_views(out.signatures@).to_set() =~= Set::empty());
        }
        out
    }

    /// Whether the identity was seen with the rules text.
    fn has_text(&self, text: &str) -> (res: bool)
        ensures
            res == self@.oracle_texts.contains(text@),
    {
        let ghost all = string_views(self.oracle_texts@);
        let wanted = chars_of(text);
        let mut i: usize = 0;
        while i < self.oracle_texts.len()
            invariant
                i <= self.oracle_texts@.len(),
                all == string_views(self.oracle_texts@),
                all.to_set() == self@.oracle_texts,
                wanted@ == text@,
                forall|j: int| 0 <= j < i ==> all[j] != text@,
            decreases self.oracle_texts@.len() - i,
        {
            assert(all[i as int] == self.oracle_texts@[i as int]@);
            if reads(wanted.as_slice(), self.oracle_texts[i].as_str()) {
                assert(all.contains(text@));
                return true;
            }
            i += 1;
        }
        assert(!all.contains(text@));
        false
    }

    /// Whether the identity was seen with the signature.
    fn has_signature(&self, signature: &CardSignature) -> (res: bool)
        ensures
            res == self@.signatures.contains(signature@),
    {
        let ghost all = signature_views(self.signatures@);
        let mut i: usize = 0;
        while i < self.signatures.len()
            invariant
                i <= self.signatures@.len(),
                all == signature_views(self.signatures@),
                all.to_set() == self@.signatures,
                forall|j: int| 0 <= j < i ==> all[j] != signature@,
            decreases self.signatures@.len() - i,
        {
            assert(all[i as int] == self.signatures@[i as int]@);
            if self.signatures[i].matches(signature) {
                assert(all.contains(signature@));
                return true;
            }
            i += 1;
        }
        assert(!all.contains(signature@));
        false
    }

    /// The evidence with one more rules text.
    fn with_text(self, text: String) -> (out: IdentityEvidence)
        ensures
            out@ == (Evidence { oracle_texts: self@.oracle_texts.insert(text@), ..self@ }),
    {
        proof {
            use_type_invariant(&self);
        }
        if self.has_text(text.as_str()) {
            assert(self@.oracle_texts.insert(text@) =~= self@.oracle_texts);
            return self;
        }
        let ghost before = string_views(self.oracle_texts@);
        let ghost all = self@;
        let ghost name = text@;
        let IdentityEvidence { mut oracle_texts, signatures } = self;
        oracle_texts.push(text);
        proof {
            assert(string_views(oracle_texts@) =~= before.push(name));
            assert(!before.contains(name)) by {
                if before.contains(name) {
                    assert(before.to_set().contains(name));
                }
            }
            lemma_push_new(before, name);
        }
        IdentityEvidence { oracle_texts, signatures }
    }

    /// The evidence with one more signature.
    fn with_signature(self, signature: CardSignature) -> (out: IdentityEvidence)
        ensures
            out@ == (Evidence { signatures: self@.signatures.insert(signature@), ..self@ }),
    {
        proof {
            use_type_invariant(&self);
        }
        if self.has_signature(&signature) {
            assert(self@.signatures.insert(signature@) =~= self@.signatures);
            return self;
        }
        let ghost before = signature_views(self.signatures@);
        let ghost faces = signature@;
        let IdentityEvidence { oracle_texts, mut signatures } = self;
        signatures.push(signature);
        proof {
            assert(signature_views(signatures@) =~= before.push(faces));
            assert(!before.contains(faces)) by {
                if before.contains(faces) {
                    assert(before.to_set().contains(faces));
                }
            }
            lemma_push_new(before, faces);
        }
        IdentityEvidence { oracle_texts, signatures }
    }
}

/// A new element at the end of a list joins its set.
proof fn lemma_push_new<A>(items: Seq<A>, item: A)
    requires
        items.no_duplicates(),
        !items.contains(item),
    ensures
        items.push(item).no_duplicates(),
        items.push(item).to_set() == items.to_set().insert(item),
{
    let pushed = items.push(item);
    assert forall|x: A| pushed.to_set().contains(x) == items.to_set().insert(item).contains(x) by {
        if items.contains(x) {
            let i = choose|i: int| 0 <= i < items.len() && items[i] == x;
            assert(pushed[i] == x);
        }
        if pushed.contains(x) {
            let i = choose|i: int| 0 <= i < pushed.len() && pushed[i] == x;
            if i < items.len() {
                assert(items[i] == x);
            }
        }
        assert(pushed[items.len() as int] == item);
    }
    assert(pushed.to_set() =~= items.to_set().insert(item));
    assert forall|i: int, j: int|
        0 <= i < pushed.len() && 0 <= j < pushed.len() && i != j implies pushed[i] != pushed[j] by {
        if i < items.len() {
            assert(items.contains(items[i]));
        }
        if j < items.len() {
            assert(items.contains(items[j]));
        }
    }
}

/// The identities that bear one name, each by the number of its Oracle ID,
/// with what is known of them.
pub type Candidates = BTreeMap<u128, IdentityEvidence>;

/// Candidates with their evidence as sets.
pub open spec fn candidates_view(candidates: Candidates) -> Map<u128, Evidence> {
    candidates@.map_values(|evidence: IdentityEvidence| evidence@)
}

/// The candidates of each name.
pub open spec fn table_view(table: TextMap<Candidates>) -> Map<Seq<char>, Map<u128, Evidence>> {
    table@.map_values(|candidates: Candidates| candidates_view(candidates))
}

/// The evidence for an identity, if there is any.
pub open spec fn evidence_for(candidates: Map<u128, Evidence>, id: u128) -> Evidence {
    if candidates.dom().contains(id) {
        candidates[id]
    } else {
        no_evidence()
    }
}

/// The candidates for a name, if there are any.
pub open spec fn bearers(table: Map<Seq<char>, Map<u128, Evidence>>, name: Seq<char>) -> Map<
    u128,
    Evidence,
> {
    if table.dom().contains(name) {
        table[name]
    } else {
        Map::empty()
    }
}

/// Evidence with the rules text, where there is one, and the signature added.
pub open spec fn more_evidence(
    evidence: Evidence,
    oracle_text: Option<Seq<char>>,
    signature: Seq<(Seq<char>, Seq<char>)>,
) -> Evidence {
    Evidence {
        oracle_texts: match oracle_text {
            Some(text) => evidence.oracle_texts.insert(oracle_text_of(text)),
            None => evidence.oracle_texts,
        },
        signatures: evidence.signatures.insert(signature),
    }
}

/// The table after an identity was seen under a name.
pub open spec fn with_identity(
    table: Map<Seq<char>, Map<u128, Evidence>>,
    name: Seq<char>,
    id: u128,
    oracle_text: Option<Seq<char>>,
    signature: Seq<(Seq<char>, Seq<char>)>,
) -> Map<Seq<char>, Map<u128, Evidence>> {
    let candidates = bearers(table, trim(name));
    table.insert(
        trim(name),
        candidates.insert(
            id,
            more_evidence(evidence_for(candidates, id), oracle_text, signature),
        ),
    )
}

/// Records that an identity was seen under a name.
pub fn insert_identity(
    index: &mut TextMap<Candidates>,
    name: &str,
    oracle_id: OracleId,
    oracle_text: Option<&str>,
    signature: CardSignature,
)
    ensures
        table_view(*final(index)) == with_identity(
            table_view(*old(index)),
            name@,
            oracle_id.0.0,
            str_view(oracle_text),
            signature@,
        ),
{
    let ghost table = index@;
    let ghost faces = signature@;
    let ghost views = table_view(*index);
    let chars = chars_of(name);
    let key = string_of(trimmed(chars.as_slice()));
    let id: u128 = oracle_id.0.0;
    let mut candidates: Candidates = match index.remove(key.as_str()) {
        Some(candidates) => candidates,
        None => BTreeMap::new(),
    };
    proof {
        assert(candidates_view(candidates) =~= bearers(views, key@));
    }
    let ghost known = candidates_view(candidates);
    let evidence = match candidates.remove(&id) {
        Some(evidence) => evidence,
        None => IdentityEvidence::new(),
    };
    assert(evidence@ == evidence_for(known, id));
    let evidence = match oracle_text {
        Some(text) => evidence.with_text(normalize_oracle_text(text)),
        None => evidence,
    };
    let evidence = evidence.with_signature(signature);
    let ghost added = more_evidence(evidence_for(known, id), str_view(oracle_text), faces);
    assert(evidence@ =~= added);
    candidates.insert(id, evidence);
    assert(candidates_view(candidates) =~= known.insert(id, added));
    let ghost now = candidates_view(candidates);
    index.insert(key, candidates);
    proof {
        assert(table_view(*index) =~= views.insert(key@, now));
    }
}

/// The index from names to identities: the names of whole cards, those of
/// their faces, and the identities' colors.
pub struct NameIndex {
    pub whole_cards: TextMap<Candidates>,
    pub faces: TextMap<Candidates>,
    pub color_identities: BTreeMap<u128, String>,
}

/// What a name index holds.
#[verifier::ext_equal]
pub struct Names {
    pub whole_cards: Map<Seq<char>, Map<u128, Evidence>>,
    pub faces: Map<Seq<char>, Map<u128, Evidence>>,
    pub color_identities: Map<u128, Seq<char>>,
}

impl View for NameIndex {
    type V = Names;

    open spec fn view(&self) -> Names {
        Names {
            whole_cards: table_view(self.whole_cards),
            faces: table_view(self.faces),
            color_identities: self.color_identities@.map_values(|colors: String| colors@),
        }
    }
}

/// The index of no cards.
pub open spec fn no_names() -> Names {
    Names { whole_cards: Map::empty(), faces: Map::empty(), color_identities: Map::empty() }
}

/// The candidates for a name: those of the whole card of that name, else
/// those of the face of that name.
pub open spec fn candidates_for(names: Names, name: Seq<char>) -> Option<Map<u128, Evidence>> {
    if names.whole_cards.dom().contains(trim(name)) {
        Some(names.whole_cards[trim(name)])
    } else if names.faces.dom().contains(trim(name)) {
        Some(names.faces[trim(name)])
    } else {
        None
    }
}

/// Whether a printing takes part in the index: it is in English, has an
/// identity, and its layout is that of a game object with a script.
pub open spec fn is_indexed(card: ScryfallCard) -> bool {
    &&& card.lang@ == "en"@
    &&& card.layout@ != "art_series"@
    &&& card.layout@ != "double_faced_token"@
    &&& card.layout@ != "emblem"@
    &&& card.layout@ != "front_card"@
    &&& card.layout@ != "token"@
    &&& card.oracle_id is Some
}

/// The table after an identity was seen under a name and, where there is one,
/// under a printed name.
pub open spec fn with_both_names(
    table: Map<Seq<char>, Map<u128, Evidence>>,
    name: Seq<char>,
    printed_name: Option<Seq<char>>,
    id: u128,
    oracle_text: Option<Seq<char>>,
    signature: Seq<(Seq<char>, Seq<char>)>,
) -> Map<Seq<char>, Map<u128, Evidence>> {
    let named = with_identity(table, name, id, oracle_text, signature);
    match printed_name {
        Some(printed) => with_identity(named, printed, id, oracle_text, signature),
        None => named,
    }
}

/// The table after an identity's faces were seen.
pub open spec fn with_faces(
    table: Map<Seq<char>, Map<u128, Evidence>>,
    faces: Seq<ScryfallFace>,
    id: u128,
) -> Map<Seq<char>, Map<u128, Evidence>>
    decreases faces.len(),
{
    if faces.len() == 0 {
        table
    } else {
        let face = faces.last();
        with_both_names(
            with_faces(table, faces.drop_last(), id),
            face.name@,
            optional_view(face.printed_name),
            id,
            optional_view(face.oracle_text),
            seq![face_signature(face.mana_cost@, face.type_line@)],
        )
    }
}

/// The index after one more printing. The first printing of an identity
/// settles its colors.
pub open spec fn with_card(names: Names, card: ScryfallCard) -> Names {
    if !is_indexed(card) {
        names
    } else {
        let id = (card.oracle_id->0).0;
        Names {
            whole_cards: with_both_names(
                names.whole_cards,
                card.name@,
                optional_view(card.printed_name),
                id,
                optional_view(card.oracle_text),
                card_signature(card),
            ),
            faces: with_faces(names.faces, card.card_faces@, id),
            color_identities: if names.color_identities.dom().contains(id) {
                names.color_identities
            } else {
                names.color_identities.insert(id, color_identity_of(card))
            },
        }
    }
}

/// The index of the printings.
pub open spec fn with_cards(names: Names, cards: Seq<ScryfallCard>) -> Names
    decreases cards.len(),
{
    if cards.len() == 0 {
        names
    } else {
        with_card(with_cards(names, cards.drop_last()), cards.last())
    }
}

impl NameIndex {
    /// The index of no cards.
    pub fn new() -> (index: NameIndex)
        ensures
            index@ == no_names(),
    {
        let index = NameIndex {
            whole_cards: TextMap::new(),
            faces: TextMap::new(),
            color_identities: BTreeMap::new(),
        };
        assert(index@.whole_cards =~= Map::empty());
        assert(index@.faces =~= Map::empty());
        assert(index@.color_identities =~= Map::empty());
        index
    }

    /// Records an identity under the name of a whole card.
    pub fn insert_whole_card(
        &mut self,
        name: &str,
        oracle_id: OracleId,
        oracle_text: Option<&str>,
        signature: CardSignature,
    )
        ensures
            final(self)@ == (Names {
                whole_cards: with_identity(
                    old(self)@.whole_cards,
                    name@,
                    oracle_id.0.0,
                    str_view(oracle_text),
                    signature@,
                ),
                ..old(self)@
            }),
    {
        insert_identity(&mut self.whole_cards, name, oracle_id, oracle_text, signature);
    }

    /// Records an identity under the name of a face.
    pub fn insert_face(
        &mut self,
        name: &str,
        oracle_id: OracleId,
        oracle_text: Option<&str>,
        signature: CardSignature,
    )
        ensures
            final(self)@ == (Names {
                faces: with_identity(
                    old(self)@.faces,
                    name@,
                    oracle_id.0.0,
                    str_view(oracle_text),
                    signature@,
                ),
                ..old(self)@
            }),
    {
        insert_identity(&mut self.faces, name, oracle_id, oracle_text, signature);
    }

    /// The identities that bear a name. A complete card name is
    /// authoritative; faces are looked at only where no whole card has it.
    pub fn lookup(&self, name: &str) -> (res: Option<&Candidates>)
        ensures
            match res {
                Some(candidates) => candidates_for(self@, name@) == Some(
                    candidates_view(*candidates),
                ),
                None => candidates_for(self@, name@) is None,
            },
    {
        let chars = chars_of(name);
        let key = string_of(trimmed(chars.as_slice()));
        match self.whole_cards.get(key.as_str()) {
            Some(candidates) => Some(candidates),
            None => self.faces.get(key.as_str()),
        }
    }

    /// The number of different names.
    pub fn distinct_name_count(&self) -> (count: usize)
        ensures
            self@.whole_cards.dom().union(self@.faces.dom()).finite(),
            count == self@.whole_cards.dom().union(self@.faces.dom()).len(),
    {
        let mut names: TextMap<()> = TextMap::new();
        collect_keys(&mut names, &self.whole_cards);
        collect_keys(&mut names, &self.faces);
        proof {
            assert(names@.dom() =~= self@.whole_cards.dom().union(self@.faces.dom()));
        }
        names.len()
    }
}

/// Adds the keys of a table.
fn collect_keys(names: &mut TextMap<()>, table: &TextMap<Candidates>)
    ensures
        final(names)@.dom() == old(names)@.dom().union(table@.dom()),
{
    let count = table.len();
    let ghost rows = table.rows();
    let ghost start = names@.dom();
    let mut i: usize = 0;
    while i < count
        invariant
            i <= count,
            count == rows.len(),
            rows == table.rows(),
            forall|name: Seq<char>| #[trigger]
                names@.dom().contains(name) <==> start.contains(name) || exists|j: int|
                    0 <= j < i && #[trigger] row_holds(rows, name, j),
        decreases count - i,
    {
        let ghost before = names@.dom();
        let key = table.key_at(i).clone();
        names.insert(key, ());
        proof {
            assert(row_holds(rows, key@, i as int));
            assert forall|name: Seq<char>| #[trigger]
                names@.dom().contains(name) <==> start.contains(name) || exists|j: int|
                    0 <= j < i + 1 && #[trigger] row_holds(rows, name, j) by {
                assert(names@.dom().contains(name) == (before.contains(name) || name == key@));
            }
        }
        i += 1;
    }
    proof {
        assert forall|name: Seq<char>|
            names@.dom().contains(name) == start.union(table@.dom()).contains(name) by {
            if table@.dom().contains(name) {
                let j = choose|j: int| row_holds(rows, name, j);
                assert(row_holds(rows, name, j));
            }
        }
        assert(names@.dom() =~= start.union(table@.dom()));
    }
}

/// Records one more printing.
pub fn index_card(index: &mut NameIndex, card: ScryfallCard)
    ensures
        final(index)@ == with_card(old(index)@, card),
{
    let ghost start = index@;
    let lang = chars_of(card.lang.as_str());
    let layout_chars = chars_of(card.layout.as_str());
    let layout = layout_chars.as_slice();
    let english = reads(lang.as_slice(), "en");
    let excluded = reads(layout, "art_series") || reads(layout, "double_faced_token") || reads(
        layout,
        "emblem",
    ) || reads(layout, "front_card") || reads(layout, "token");
    if !english || excluded {
        return ;
    }
    let oracle_id = match card.oracle_id {
        Some(id) => OracleId(id),
        None => {
            return ;
        },
    };
    let id: u128 = oracle_id.0.0;
    let colors = commander_color_identity(&card);
    if !index.color_identities.contains_key(&id) {
        let ghost before = index.color_identities@;
        index.color_identities.insert(id, colors);
        assert(index@.color_identities =~= start.color_identities.insert(id, colors@)) by {
            assert(index.color_identities@ == before.insert(id, colors));
        }
    }
    let ghost colored = index@;
    let signature = scryfall_card_signature(&card);
    index.insert_whole_card(
        card.name.as_str(),
        oracle_id,
        as_text(&card.oracle_text),
        signature.copied(),
    );
    match &card.printed_name {
        Some(printed) => {
            index.insert_whole_card(
                printed.as_str(),
                oracle_id,
                as_text(&card.oracle_text),
                signature,
            );
        },
        None => {},
    }
    let ghost whole = index@;
    let mut i: usize = 0;
    assert(card.card_faces@.take(0) =~= Seq::empty());
    while i < card.card_faces.len()
        invariant
            i <= card.card_faces@.len(),
            oracle_id.0.0 == id,
            index@ == (Names {
                faces: with_faces(whole.faces, card.card_faces@.take(i as int), id),
                ..whole
            }),
        decreases card.card_faces@.len() - i,
    {
        let face = &card.card_faces[i];
        let mut faces: Vec<FaceSignature> = Vec::new();
        faces.push(scryfall_face_signature(face));
        let signature = CardSignature(faces);
        proof {
            assert(signature@ =~= seq![face_signature(face.mana_cost@, face.type_line@)]);
            assert(card.card_faces@.take(i + 1).drop_last() =~= card.card_faces@.take(i as int));
        }
        index.insert_face(
            face.name.as_str(),
            oracle_id,
            as_text(&face.oracle_text),
            signature.copied(),
        );
        match &face.printed_name {
            Some(printed) => {
                index.insert_face(
                    printed.as_str(),
                    oracle_id,
                    as_text(&face.oracle_text),
                    signature,
                );
            },
            None => {},
        }
        i += 1;
    }
    assert(card.card_faces@.take(card.card_faces@.len() as int) =~= card.card_faces@);
}

/// The index of the printings, recorded in their order.
pub fn index_cards(cards: Vec<ScryfallCard>) -> (index: NameIndex)
    ensures
        index@ == with_cards(no_names(), cards@),
{
    let mut index = NameIndex::new();
    let ghost all = cards@;
    assert(all.take(0) =~= Seq::empty());
    for card in it: cards
        invariant
            it.seq() == all,
            index@ == with_cards(no_names(), all.take(it.index())),
    {
        proof {
            assert(all.take(it.index() + 1).drop_last() =~= all.take(it.index()));
        }
        index_card(&mut index, card);
    }
    assert(all.take(all.len() as int) =~= all);
    index
}

/// The identities that were seen with the rules text.
pub open spec fn seen_with_text(candidates: Map<u128, Evidence>, text: Seq<char>) -> Set<u128> {
    candidates.dom().filter(|id: u128| candidates[id].oracle_texts.contains(text))
}

/// The identities that were seen with the signature.
pub open spec fn seen_with_signature(
    candidates: Map<u128, Evidence>,
    signature: Seq<(Seq<char>, Seq<char>)>,
) -> Set<u128> {
    candidates.dom().filter(|id: u128| candidates[id].signatures.contains(signature))
}

/// The identities that a script stands for, of those that bear its name: the
/// only one, all of them for an unsupported variant, the one with the
/// script's rules text, or else the one with its signature.
pub open spec fn resolved(script: Seq<char>, candidates: Map<u128, Evidence>) -> Option<Set<u128>> {
    if candidates.dom().len() == 1 {
        Some(candidates.dom())
    } else {
        match first_value(script, "Oracle"@) {
            Some(oracle) => if oracle == "<Unsupported Variant>"@ {
                Some(candidates.dom())
            } else {
                let by_text = seen_with_text(candidates, oracle_text_of(oracle));
                if by_text.len() == 1 {
                    Some(by_text)
                } else {
                    match script_signature(script) {
                        Some(signature) => {
                            let by_signature = seen_with_signature(candidates, signature);
                            if by_signature.len() == 1 {
                                Some(by_signature)
                            } else {
                                None
                            }
                        },
                        None => None,
                    }
                }
            },
            None => None,
        }
    }
}

/// The numbers of the IDs.
pub open spec fn id_numbers(ids: Seq<OracleId>) -> Seq<u128> {
    Seq::new(ids.len(), |i: int| ids[i].0.0)
}

/// Numbers as IDs.
pub(crate) fn oracle_ids(numbers: &[u128]) -> (ids: Vec<OracleId>)
    ensures
        id_numbers(ids@) == numbers@,
{
    let mut ids: Vec<OracleId> = Vec::new();
    let mut i: usize = 0;
    while i < numbers.len()
        invariant
            i <= numbers@.len(),
            id_numbers(ids@) == numbers@.take(i as int),
        decreases numbers@.len() - i,
    {
        let ghost before = id_numbers(ids@);
        ids.push(OracleId(Uuid(numbers[i])));
        assert(id_numbers(ids@) =~= before.push(numbers@[i as int]));
        assert(numbers@.take(i + 1) =~= before.push(numbers@[i as int]));
        i += 1;
    }
    assert(numbers@.take(numbers@.len() as int) =~= numbers@);
    ids
}

/// Which of two kinds of evidence is asked for.
enum Wanted<'a> {
    Text(&'a str),
    Signature(&'a CardSignature),
}

/// The identities with the wanted evidence.
spec fn seen_with(candidates: Map<u128, Evidence>, wanted: Wanted) -> Set<u128> {
    match wanted {
        Wanted::Text(text) => seen_with_text(candidates, text@),
        Wanted::Signature(signature) => seen_with_signature(candidates, signature@),
    }
}

/// The candidates with the wanted evidence, in ascending order.
fn matching(candidates: &Candidates, wanted: Wanted) -> (out: Vec<u128>)
    ensures
        out@ == in_order(seen_with(candidates_view(*candidates), wanted)),
        out@.len() == seen_with(candidates_view(*candidates), wanted).len(),
{
    let keys = ascending_keys(candidates);
    let ghost known = candidates_view(*candidates);
    let ghost set = seen_with(known, wanted);
    let mut out: Vec<u128> = Vec::new();
    let mut i: usize = 0;
    while i < keys.len()
        invariant
            i <= keys@.len(),
            increasing(keys@),
            keys@.to_set() == candidates@.dom(),
            known == candidates_view(*candidates),
            set == seen_with(known, wanted),
            increasing(out@),
            forall|j: int| 0 <= j < out@.len() ==> set.contains(#[trigger] out@[j]),
            forall|j: int| 0 <= j < out@.len() && i < keys@.len() ==> #[trigger] out@[j] < keys@[i as int],
            forall|j: int|
                0 <= j < i && set.contains(#[trigger] keys@[j]) ==> out@.contains(keys@[j]),
        decreases keys@.len() - i,
    {
        let key: u128 = keys[i];
        let ghost before = out@;
        assert(keys@.to_set().contains(key));
        match candidates.get(&key) {
            Some(evidence) => {
                assert(known[key] == evidence@);
                let kept = match wanted {
                    Wanted::Text(text) => evidence.has_text(text),
                    Wanted::Signature(signature) => evidence.has_signature(signature),
                };
                assert(kept == set.contains(key));
                if kept {
                    out.push(key);
                    assert forall|j: int| 0 <= j < i + 1 && set.contains(
                        #[trigger] keys@[j],
                    ) implies out@.contains(keys@[j]) by {
                        if j < i {
                            let k = choose|k: int| 0 <= k < before.len() && before[k] == keys@[j];
                            assert(out@[k] == keys@[j]);
                        } else {
                            assert(out@[before.len() as int] == key);
                        }
                    }
                }
            },
            None => {},
        }
        i += 1;
    }
    proof {
        assert forall|id: u128| out@.to_set().contains(id) == set.contains(id) by {
            if set.contains(id) {
                assert(known.dom().contains(id));
                assert(keys@.to_set().contains(id));
                let j = choose|j: int| 0 <= j < keys@.len() && keys@[j] == id;
                assert(set.contains(keys@[j]));
            }
        }
        assert(out@.to_set() =~= set);
        lemma_in_order(out@);
    }
    out
}

/// The identities that a script stands for, in ascending order, or nothing
/// where its evidence does not decide.
pub fn resolve_oracle_ids(script: &str, candidates: &Candidates) -> (res: Option<Vec<OracleId>>)
    ensures
        match (res, resolved(script@, candidates_view(*candidates))) {
            (Some(ids), Some(set)) => id_numbers(ids@) == in_order(set),
            (None, None) => true,
            _ => false,
        },
{
    let ghost known = candidates_view(*candidates);
    assert(known.dom() =~= candidates@.dom());
    if candidates.len() == 1 {
        let keys = ascending_keys(candidates);
        return Some(oracle_ids(keys.as_slice()));
    }
    let oracle = match top_level_value(script, "Oracle") {
        Some(oracle) => oracle,
        None => {
            return None;
        },
    };
    let oracle_chars = chars_of(oracle.as_str());
    if reads(oracle_chars.as_slice(), "<Unsupported Variant>") {
        let keys = ascending_keys(candidates);
        return Some(oracle_ids(keys.as_slice()));
    }
    let normalized = normalize_oracle_text(oracle.as_str());
    let by_text = matching(candidates, Wanted::Text(normalized.as_str()));
    if by_text.len() == 1 {
        return Some(oracle_ids(by_text.as_slice()));
    }
    let signature = match forge_script_signature(script) {
        Some(signature) => signature,
        None => {
            return None;
        },
    };
    let by_signature = matching(candidates, Wanted::Signature(&signature));
    if by_signature.len() == 1 {
        Some(oracle_ids(by_signature.as_slice()))
    } else {
        None
    }
}

/// Whether a table has the identity among the bearers of the name.
pub open spec fn bears(
    table: Map<Seq<char>, Map<u128, Evidence>>,
    name: Seq<char>,
    id: u128,
) -> bool {
    table.dom().contains(trim(name)) && table[trim(name)].dom().contains(id)
}

proof fn lemma_faces_keep(
    table: Map<Seq<char>, Map<u128, Evidence>>,
    faces: Seq<ScryfallFace>,
    seen: u128,
    name: Seq<char>,
    id: u128,
)
    requires
        bears(table, name, id),
    ensures
        bears(with_faces(table, faces, seen), name, id),
    decreases faces.len(),
{
    if faces.len() > 0 {
        lemma_faces_keep(table, faces.drop_last(), seen, name, id);
    }
}

proof fn lemma_faces_found(
    table: Map<Seq<char>, Map<u128, Evidence>>,
    faces: Seq<ScryfallFace>,
    id: u128,
    at: int,
)
    requires
        0 <= at < faces.len(),
    ensures
        bears(with_faces(table, faces, id), faces[at].name@, id),
        faces[at].printed_name is Some ==> bears(
            with_faces(table, faces, id),
            (faces[at].printed_name->0)@,
            id,
        ),
    decreases faces.len(),
{
    if at < faces.len() - 1 {
        lemma_faces_found(table, faces.drop_last(), id, at);
        assert(faces.drop_last()[at] == faces[at]);
    }
}

/// Recording more printings takes no identity from a name, and never changes
/// the colors that an identity was first given.
pub proof fn law_recorded_identities_stay(
    names: Names,
    cards: Seq<ScryfallCard>,
    name: Seq<char>,
    id: u128,
)
    ensures
        bears(names.whole_cards, name, id) ==> bears(
            with_cards(names, cards).whole_cards,
            name,
            id,
        ),
        bears(names.faces, name, id) ==> bears(with_cards(names, cards).faces, name, id),
        names.color_identities.dom().contains(id) ==> with_cards(
            names,
            cards,
        ).color_identities.dom().contains(id) && with_cards(names, cards).color_identities[id]
            == names.color_identities[id],
    decreases cards.len(),
{
    if cards.len() > 0 {
        law_recorded_identities_stay(names, cards.drop_last(), name, id);
        let before = with_cards(names, cards.drop_last());
        let card = cards.last();
        if is_indexed(card) && bears(before.faces, name, id) {
            lemma_faces_keep(before.faces, card.card_faces@, (card.oracle_id->0).0, name, id);
        }
    }
}

/// Every printing that takes part in the index is found under its name and
/// its printed name, and each of its faces is recorded under its names; the
/// identity has a color identity.
pub proof fn law_recorded_names_are_found(names: Names, cards: Seq<ScryfallCard>, at: int)
    requires
        0 <= at < cards.len(),
        is_indexed(cards[at]),
    ensures
        ({
            let index = with_cards(names, cards);
            let id = (cards[at].oracle_id->0).0;
            &&& candidates_for(index, cards[at].name@) is Some
            &&& candidates_for(index, cards[at].name@)->0.dom().contains(id)
            &&& cards[at].printed_name is Some ==> {
                &&& candidates_for(index, (cards[at].printed_name->0)@) is Some
                &&& candidates_for(index, (cards[at].printed_name->0)@)->0.dom().contains(id)
            }
            &&& forall|face: int|
                0 <= face < cards[at].card_faces@.len() ==> bears(
                    index.faces,
                    (#[trigger] cards[at].card_faces@[face]).name@,
                    id,
                )
            &&& forall|face: int|
                0 <= face < cards[at].card_faces@.len() && (
                #[trigger] cards[at].card_faces@[face]).printed_name is Some ==> bears(
                    index.faces,
                    (cards[at].card_faces@[face].printed_name->0)@,
                    id,
                )
            &&& index.color_identities.dom().contains(id)
        }),
    decreases cards.len(),
{
    let card = cards[at];
    let id = (card.oracle_id->0).0;
    let before = with_cards(names, cards.drop_last());
    let index = with_cards(names, cards);
    let last = seq![cards.last()];
    assert(last.drop_last() =~= Seq::<ScryfallCard>::empty());
    assert(with_cards(before, last.drop_last()) == before);
    assert(with_cards(before, last) == index);
    if at < cards.len() - 1 {
        law_recorded_names_are_found(names, cards.drop_last(), at);
        assert(cards.drop_last()[at] == card);
    }
    assert(bears(index.whole_cards, card.name@, id)) by {
        if at < cards.len() - 1 {
            lemma_found_whole(names, cards.drop_last(), at);
            law_recorded_identities_stay(before, last, card.name@, id);
        }
    }
    if card.printed_name is Some {
        assert(bears(index.whole_cards, (card.printed_name->0)@, id)) by {
            if at < cards.len() - 1 {
                lemma_found_whole(names, cards.drop_last(), at);
                law_recorded_identities_stay(before, last, (card.printed_name->0)@, id);
            }
        }
    }
    assert forall|face: int| 0 <= face < card.card_faces@.len() implies bears(
        index.faces,
        (#[trigger] card.card_faces@[face]).name@,
        id,
    ) by {
        if at < cards.len() - 1 {
            law_recorded_identities_stay(before, last, card.card_faces@[face].name@, id);
        } else {
            lemma_faces_found(before.faces, card.card_faces@, id, face);
        }
    }
    assert forall|face: int|
        0 <= face < card.card_faces@.len() && (
        #[trigger] card.card_faces@[face]).printed_name is Some implies bears(
        index.faces,
        (card.card_faces@[face].printed_name->0)@,
        id,
    ) by {
        let printed = (card.card_faces@[face].printed_name->0)@;
        if at < cards.len() - 1 {
            law_recorded_identities_stay(before, last, printed, id);
        } else {
            lemma_faces_found(before.faces, card.card_faces@, id, face);
        }
    }
    if at < cards.len() - 1 {
        law_recorded_identities_stay(before, last, card.name@, id);
    }
}

proof fn lemma_found_whole(names: Names, cards: Seq<ScryfallCard>, at: int)
    requires
        0 <= at < cards.len(),
        is_indexed(cards[at]),
    ensures
        bears(with_cards(names, cards).whole_cards, cards[at].name@, (cards[at].oracle_id->0).0),
        cards[at].printed_name is Some ==> bears(
            with_cards(names, cards).whole_cards,
            (cards[at].printed_name->0)@,
            (cards[at].oracle_id->0).0,
        ),
    decreases cards.len(),
{
    if at < cards.len() - 1 {
        lemma_found_whole(names, cards.drop_last(), at);
        assert(cards.drop_last()[at] == cards[at]);
    }
}

/// A script only ever stands for identities that bear its name, and, unless
/// it is an unsupported variant, for one of them.
pub proof fn law_resolved_identities_bear_the_name(
    script: Seq<char>,
    candidates: Map<u128, Evidence>,
)
    requires
        resolved(script, candidates) is Some,
    ensures
        resolved(script, candidates)->0.subset_of(candidates.dom()),
        first_value(script, "Oracle"@) != Some("<Unsupported Variant>"@) ==> resolved(
            script,
            candidates,
        )->0.len() == 1,
{
}

} // verus!
