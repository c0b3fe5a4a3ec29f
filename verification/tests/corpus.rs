use anonymous_corpus::cas::{cid_for_bytes, cid_for_digest};
use anonymous_corpus::catalog::{id_for_hash, load_catalog_index, CatalogError, CatalogProblem};
use anonymous_corpus::generate::generate;
use anonymous_corpus::ids::{CardScriptId, TokenScriptId};
use anonymous_corpus::manifest::{
    content_ref, manifest_document, parse_hints, skin_references, HintError, ManifestError, Member,
    SkinArtifacts,
};
use anonymous_corpus::names::{
    index_card, index_cards, insert_identity, resolve_oracle_ids, Candidates, NameIndex, OracleId,
};
use anonymous_corpus::numbered::ascending_keys;
use anonymous_corpus::parameters::TokenIndex;
use anonymous_corpus::provenance::{
    make_provenance, ProvenanceError, ProvenanceRowProblem,
};
use anonymous_corpus::report::{
    accept, ambiguous_line, report_lines, GenerationReport, MappingProblem, Rejection, ScriptConflict,
};
use anonymous_corpus::scryfall::{
    collect_explicit_identity_sources, collect_mana_symbol_colors, commander_color_identity,
    has_basic_land_type, strip_parenthetical_text, ScryfallCard, ScryfallFace,
};
use anonymous_corpus::signatures::{
    forge_script_signature, normalize_mana_cost, normalize_oracle_text, normalize_type_line,
    scryfall_card_signature, CardSignature, FaceSignature,
};
use anonymous_corpus::tokens::{
    build_token_index, generate_tokens, index_token_ids, TokenSource,
};
use anonymous_corpus::uuids::Uuid;
use std::collections::BTreeSet;

fn card(name: &str, id: u128) -> ScryfallCard {
    ScryfallCard {
        oracle_id: Some(Uuid(id)),
        name: name.to_owned(),
        lang: "en".to_owned(),
        layout: "normal".to_owned(),
        ..Default::default()
    }
}

fn rows(list: &[(u32, u128, &str)]) -> String {
    let mut out = String::from("#id\toracle_id\tname_sha256\tanonymous_set_id\n");
    for (index, (id, oracle, group)) in list.iter().enumerate() {
        out.push_str(&format!("{id}\t{:032x}\t{:064x}\t{group}\n", oracle, index));
    }
    out
}

#[test]
fn reminder_text_is_not_read() {
    assert_eq!(strip_parenthetical_text("a (b (c) d) e"), "a  e");
    assert_eq!(strip_parenthetical_text("a) b"), "a) b");
    assert_eq!(strip_parenthetical_text("(open"), "");
}

#[test]
fn mana_symbols_are_collected_by_their_parts() {
    let mut colors = BTreeSet::new();
    collect_mana_symbol_colors("{1}{W/U} {R/P} {G B}{", &mut colors);
    assert_eq!(colors, BTreeSet::from([b'R', b'U', b'W']));
    let mut none = BTreeSet::new();
    collect_mana_symbol_colors("W U {x} R}", &mut none);
    assert!(none.is_empty());
    let mut all = BTreeSet::from([b'G']);
    collect_explicit_identity_sources(
        "{W}",
        Some("({U}) {B}"),
        &["R".to_owned(), String::new()],
        Some(&["Green".to_owned()]),
        &mut all,
    );
    assert_eq!(all, BTreeSet::from([b'B', b'G', b'R', b'W']));
}

#[test]
fn basic_land_types_are_words_of_the_type_line() {
    let mut land = card("Land", 1);
    land.type_line = "Land — «Forest»".to_owned();
    assert!(has_basic_land_type(&land, "G"));
    assert!(!has_basic_land_type(&land, "W"));
    assert!(!has_basic_land_type(&land, "Forest"));
    land.type_line = "Forests".to_owned();
    assert!(!has_basic_land_type(&land, "G"));
    land.card_faces.push(ScryfallFace { type_line: "Basic Swamp".to_owned(), ..Default::default() });
    assert!(has_basic_land_type(&land, "B"));
}

#[test]
fn colors_come_in_their_usual_order() {
    let mut five = card("Five", 1);
    five.color_identity = ["G", "B", "U", "R", "W"].map(String::from).to_vec();
    assert_eq!(commander_color_identity(&five), "WUBRG");
    five.type_line = "Plains Island".to_owned();
    assert_eq!(commander_color_identity(&five), "BRG");
    five.card_faces.push(ScryfallFace { mana_cost: "{U}".to_owned(), ..Default::default() });
    assert_eq!(commander_color_identity(&five), "UBRG");
}

#[test]
fn spellings_are_made_common() {
    assert_eq!(normalize_oracle_text(" a\\nb \t c\u{a0}d "), "a b c d");
    assert_eq!(normalize_mana_cost("{1}{w/u}"), "1W/U");
    assert_eq!(normalize_mana_cost("No CoSt"), "");
    assert_eq!(normalize_mana_cost("ß"), "SS");
    assert_eq!(normalize_type_line("Legendary Creature — Élf//X"), "legendary creature élf x");
}

fn face(mana_cost: &str, type_line: &str) -> FaceSignature {
    FaceSignature { mana_cost: mana_cost.to_owned(), type_line: type_line.to_owned() }
}

#[test]
fn signatures_pair_costs_with_types() {
    let mut single = card("Single", 1);
    single.mana_cost = "{R}".to_owned();
    single.type_line = "Instant".to_owned();
    assert_eq!(scryfall_card_signature(&single), CardSignature(vec![face("R", "instant")]));
    single.card_faces.push(ScryfallFace {
        mana_cost: "{U}".to_owned(),
        type_line: "Sorcery".to_owned(),
        ..Default::default()
    });
    assert_eq!(scryfall_card_signature(&single), CardSignature(vec![face("U", "sorcery")]));
    assert_eq!(
        forge_script_signature("ManaCost:2 W\nTypes:Creature Elf\nManaCost:no cost\nTypes:Land\n"),
        Some(CardSignature(vec![face("2W", "creature elf"), face("", "land")]))
    );
    assert_eq!(forge_script_signature("ManaCost:R\n"), None);
    assert_eq!(forge_script_signature("Types:Land\n"), None);
}

#[test]
fn whole_cards_come_before_faces() {
    let mut double = card("Front // Back", 2);
    double.card_faces = vec![
        ScryfallFace { name: " Front ".to_owned(), ..Default::default() },
        ScryfallFace {
            name: "Back".to_owned(),
            printed_name: Some("Printed Back".to_owned()),
            ..Default::default()
        },
    ];
    let mut old = card("Front", 1);
    old.printed_name = Some("Printed Front".to_owned());
    let index = index_cards(vec![double, old]);
    assert_eq!(ascending_keys(index.lookup("Front").unwrap()), vec![1]);
    assert_eq!(ascending_keys(index.lookup(" Back\n").unwrap()), vec![2]);
    assert_eq!(ascending_keys(index.lookup("Printed Back").unwrap()), vec![2]);
    assert_eq!(ascending_keys(index.lookup("Printed Front").unwrap()), vec![1]);
    assert!(index.lookup("front").is_none());
    assert_eq!(index.distinct_name_count(), 5);
}

#[test]
fn display_printings_are_not_indexed() {
    let mut index = NameIndex::new();
    for layout in ["art_series", "double_faced_token", "emblem", "front_card", "token"] {
        let mut shown = card("Shown", 1);
        shown.layout = layout.to_owned();
        index_card(&mut index, shown);
    }
    let mut foreign = card("Shown", 1);
    foreign.lang = "de".to_owned();
    index_card(&mut index, foreign);
    let mut nameless = card("Shown", 1);
    nameless.oracle_id = None;
    index_card(&mut index, nameless);
    assert!(index.lookup("Shown").is_none());
    assert_eq!(index.distinct_name_count(), 0);
    let mut scheme = card("Shown", 1);
    scheme.layout = "scheme".to_owned();
    index_card(&mut index, scheme);
    assert_eq!(index.lookup("Shown").unwrap().len(), 1);
}

#[test]
fn the_first_printing_settles_the_colors() {
    let mut first = card("Card", 1);
    first.color_identity = vec!["R".to_owned()];
    let mut second = card("Card", 1);
    second.color_identity = vec!["G".to_owned()];
    let index = index_cards(vec![first, second]);
    assert_eq!(index.color_identities.get(&1).unwrap(), "R");
}

fn candidates(list: Vec<(u128, Option<&str>, CardSignature)>) -> Candidates {
    let mut table = anonymous_corpus::maps::TextMap::new();
    for (id, text, signature) in list {
        insert_identity(&mut table, "Name", OracleId(Uuid(id)), text, signature);
    }
    table.remove(" Name ".trim()).unwrap()
}

#[test]
fn scripts_are_resolved_by_text_and_then_by_signature() {
    let red = || CardSignature(vec![face("R", "instant")]);
    let blue = || CardSignature(vec![face("U", "instant")]);
    let one = candidates(vec![(7, None, red())]);
    assert_eq!(resolve_oracle_ids("", &one), Some(vec![OracleId(Uuid(7))]));
    let two = candidates(vec![(9, Some("Draw  a card."), red()), (8, Some("Other."), blue())]);
    assert_eq!(resolve_oracle_ids("", &two), None);
    assert_eq!(
        resolve_oracle_ids("Oracle:<Unsupported Variant>\n", &two),
        Some(vec![OracleId(Uuid(8)), OracleId(Uuid(9))])
    );
    assert_eq!(
        resolve_oracle_ids("Oracle:Draw a\\ncard.\n", &two),
        Some(vec![OracleId(Uuid(9))])
    );
    assert_eq!(
        resolve_oracle_ids("Oracle:x\nManaCost:U\nTypes:Instant\n", &two),
        Some(vec![OracleId(Uuid(8))])
    );
    assert_eq!(resolve_oracle_ids("Oracle:x\nManaCost:G\nTypes:Instant\n", &two), None);
    assert_eq!(resolve_oracle_ids("Oracle:x\n", &two), None);
}

#[test]
fn catalog_rows_are_checked() {
    let hash = "0".repeat(64);
    let oracle = "00000000-0000-0000-0000-0000000000aa";
    let read = |body: &str| load_catalog_index(body).err();
    let at = |line, problem| Some(CatalogError { line, problem });
    assert_eq!(read(""), None);
    assert_eq!(read("\n#id\tx\n"), at(2, CatalogProblem::InvalidId));
    assert_eq!(read("x\n"), at(1, CatalogProblem::InvalidId));
    assert_eq!(read("4294967296\n"), at(1, CatalogProblem::InvalidId));
    assert_eq!(read("#id\t\n\n0\n"), at(3, CatalogProblem::ReservedId));
    assert_eq!(read("1\n"), at(1, CatalogProblem::MissingOracleId));
    assert_eq!(read("1\tz\n"), at(1, CatalogProblem::InvalidOracleId));
    assert_eq!(read(&format!("1\t{oracle}\n")), at(1, CatalogProblem::MissingNameHash));
    assert_eq!(read(&format!("1\t{oracle}\th\n")), at(1, CatalogProblem::MissingSetGroup));
    assert_eq!(read(&format!("1\t{oracle}\th\tg\n")), at(1, CatalogProblem::InvalidNameHash));
    assert_eq!(read(&format!("1\t{oracle}\t{hash}\tg\n")), None);
}

#[test]
fn contended_hashes_stand_for_no_number() {
    let hash = "0".repeat(64);
    let text = format!("1\t{:032x}\t{hash}\tg\n2\t{:032x}\t{hash}\th\n3\t{:032x}\t{}\ti\n", 5, 5, 6, "1".repeat(64));
    let catalog = load_catalog_index(&text).ok().unwrap();
    let none = candidates(vec![(5, None, CardSignature(Vec::new()))]);
    let only = candidates(vec![(6, None, CardSignature(Vec::new()))]);
    assert_eq!(id_for_hash(&hash, &none, &catalog), None);
    assert_eq!(id_for_hash(&hash, &only, &catalog), Some(CardScriptId(3)));
    assert_eq!(id_for_hash(&"1".repeat(64), &none, &catalog), Some(CardScriptId(3)));
    let ids: Vec<u32> = catalog.card_ids(5).unwrap().iter().map(|id| id.0).collect();
    assert_eq!(ids, vec![1, 2]);
    assert!(catalog.card_ids(7).is_none());
    assert!(catalog.set_group(CardScriptId(9)).is_none());
}

#[test]
fn a_run_maps_reports_and_generates() {
    let mut red = card("Fixture Red", 1);
    red.color_identity = vec!["R".to_owned()];
    let index = index_cards(vec![
        red,
        card("Fixture Twice", 2),
        card("Fixture Twice", 3),
        card("Fixture Unlisted", 4),
        card("Fixture Back", 5),
        card("Fixture Front", 6),
    ]);
    let catalog = load_catalog_index(&rows(&[
        (10, 1, "2025A"),
        (11, 1, "2025B"),
        (12, 5, "1993A"),
        (13, 6, "1993A"),
    ]))
    .ok()
    .unwrap();
    let source = |path: &str, text: &str| (format!("src/{path}"), text.to_owned());
    let sources = vec![
        source("a.txt", "Name:Fixture Red\nManaCost:R\n"),
        source("b.txt", "Name:Fixture Twice\nManaCost:R\n"),
        source("c.txt", "Name:Fixture Unlisted\n"),
        source("d.txt", "Name:Nobody\n"),
        source("e.txt", "ManaCost:R\n"),
        source("f.txt", "Name:Fixture Red\nManaCost:R\n"),
        source("g.txt", "Name:Fixture Red\nManaCost:G\n"),
        source("h.txt", "Name:Fixture Front\nAlternateMode:Meld\nALTERNATE\nName:Fixture Back\nManaCost:W\n"),
    ];
    let run = generate("src", &sources, &index, &catalog, &TokenIndex::new());
    let report = &run.report;
    assert_eq!(report.source_scripts, 8);
    assert_eq!(report.generated_scripts, 4);
    assert_eq!(report.duplicate_identical_scripts, 2);
    let ids: Vec<u32> = run.scripts.keys().copied().collect();
    assert_eq!(ids, vec![10, 11, 12, 13]);
    assert_eq!(
        run.scripts[&10].script,
        "Id:10\nColorIdentity:R\nOriginSet:2025A\nManaCost:R\n"
    );
    assert_eq!(run.scripts[&10].source, "src/a.txt");
    assert_eq!(
        run.scripts[&12].script,
        "Id:12\nColorIdentity:\nOriginSet:1993A\nManaCost:W\n"
    );
    let missing: Vec<(&str, &str, usize)> = report
        .missing_mappings
        .iter()
        .map(|problem| (problem.source.as_str(), problem.name.as_str(), problem.oracle_ids.len()))
        .collect();
    assert_eq!(
        missing,
        vec![
            ("c.txt", "Fixture Unlisted", 1),
            ("d.txt", "Nobody", 0),
            ("e.txt", "<missing Name field>", 0),
        ]
    );
    assert_eq!(
        report.missing_mappings[0].oracle_ids,
        vec!["00000000-0000-0000-0000-000000000004"]
    );
    assert_eq!(report.ambiguous_mappings.len(), 1);
    assert_eq!(
        report.ambiguous_mappings[0].oracle_ids,
        vec!["00000000-0000-0000-0000-000000000002", "00000000-0000-0000-0000-000000000003"]
    );
    assert_eq!(report.conflicting_scripts.len(), 2);
    assert_eq!(report.conflicting_scripts[0].card_id, 10);
    assert_eq!(report.conflicting_scripts[0].first_source, "a.txt");
    assert_eq!(report.conflicting_scripts[0].second_source, "g.txt");
    assert!(report.unaccounted_identities.is_empty());
    assert_eq!(accept(report, false), Err(Rejection::Conflicts(2)));
}

fn report() -> GenerationReport {
    GenerationReport {
        source_scripts: 0,
        generated_scripts: 0,
        duplicate_identical_scripts: 0,
        missing_mappings: Vec::new(),
        ambiguous_mappings: Vec::new(),
        conflicting_scripts: Vec::new(),
        unaccounted_identities: Vec::new(),
    }
}

fn problem() -> MappingProblem {
    MappingProblem { source: String::new(), name: String::new(), oracle_ids: Vec::new() }
}

#[test]
fn reports_are_accepted_or_rejected() {
    let mut gaps = report();
    assert_eq!(accept(&gaps, true), Ok(()));
    gaps.missing_mappings.push(problem());
    gaps.ambiguous_mappings.push(problem());
    assert_eq!(accept(&gaps, false), Ok(()));
    assert_eq!(accept(&gaps, true), Err(Rejection::Mappings(2)));
    gaps.conflicting_scripts.push(ScriptConflict {
        card_id: 1,
        first_source: String::new(),
        second_source: String::new(),
    });
    assert_eq!(accept(&gaps, false), Err(Rejection::Conflicts(1)));
    gaps.unaccounted_identities.push(problem());
    assert_eq!(accept(&gaps, false), Err(Rejection::Unaccounted(1)));
}

#[test]
fn tokens_are_indexed_and_made() {
    let keys = vec!["fixture_one".to_owned(), "fixture_two".to_owned()];
    let index = build_token_index(&keys).ok().unwrap();
    assert_eq!(index.len(), 2);
    assert_eq!(*index.get("fixture_one").unwrap(), TokenScriptId(2_329_072_464));
    let sources = vec![TokenSource {
        key: "fixture_two".to_owned(),
        text: "Name:x\nTypes:Creature\nSVar:A:DB$ Token | TokenScript$ fixture_one\n".to_owned(),
    }];
    let catalog = load_catalog_index("").ok().unwrap();
    let made = generate_tokens(&sources, &NameIndex::new(), &catalog, &index).unwrap();
    assert_eq!(
        made,
        vec![(
            TokenScriptId(1_628_200_063),
            "TokenId:1628200063\nColorIdentity:\nTypes:Creature\nSVar:A:DB$ Token | TokenScriptIds$ 2329072464\n".to_owned()
        )]
    );
    let lost = vec![TokenSource { key: "lost".to_owned(), text: String::new() }];
    assert_eq!(
        generate_tokens(&lost, &NameIndex::new(), &catalog, &index),
        Err("lost".to_owned())
    );
}

#[test]
fn token_collisions_are_named() {
    let twice = build_token_index(&["same".to_owned(), "other".to_owned(), "same".to_owned()]).err().unwrap();
    assert_eq!((twice.first.as_str(), twice.second.as_str()), ("same", "same"));
    let keys = vec!["a".to_owned(), "b".to_owned(), "c".to_owned()];
    let ids = [TokenScriptId(1), TokenScriptId(2), TokenScriptId(1)];
    let collision = index_token_ids(&keys, &ids).err().unwrap();
    assert_eq!(
        (collision.first.as_str(), collision.second.as_str(), collision.id),
        ("a", "c", TokenScriptId(1))
    );
}

#[test]
fn content_identifiers_are_exact() {
    assert_eq!(
        cid_for_bytes(b"hello world"),
        "bafkreifzjut3te2nhyekklss27nh3k72ysco7y32koao5eei66wof36n5e"
    );
    assert_eq!(
        cid_for_bytes(b""),
        "bafkreihdwdcefgh4dqkjv67uzcmw7ojee6xedzdetojuzjevtenxquvyku"
    );
    assert_eq!(
        cid_for_digest(&[0; 32]),
        "bafkreiaaaaaaaaaaaaaaaaaaaaaaaaaaaaaaaaaaaaaaaaaaaaaaaaaaaa"
    );
}

#[test]
fn provenance_tables_vouch_for_their_rows() {
    let identity = "0123456789abcdef".repeat(4);
    let catalog = "#id\toracle_id\n1\t00000000-0000-0000-0000-0000000000aa\n\n2\t000000000000000000000000000000BB\n";
    let table = make_provenance(&identity, catalog).unwrap();
    assert_eq!(table.rows, 2);
    let body = "1\t00000000-0000-0000-0000-0000000000aa\n2\t00000000-0000-0000-0000-0000000000bb\n";
    assert_eq!(
        table.document,
        format!("#id\toracle_id\tmetadata: v=1 kind=provenance-oracle-ids catalog_identity={identity} cards=2 body_sha256=ffb455f58d1c603abb535413adb77b6f72cd9ea2b3c1ca4ea1a0942f0a2fadff\n{body}")
    );
    let again = make_provenance(&identity, &table.document).unwrap();
    assert_eq!(again.document, table.document);
}

#[test]
fn provenance_problems_are_told() {
    let identity = "0".repeat(64);
    let oracle = "00000000-0000-0000-0000-0000000000aa";
    let read = |catalog: &str| make_provenance(&identity, catalog).err();
    let at = |line, problem| Some(ProvenanceError::Row { line, problem });
    assert_eq!(
        make_provenance(&"A".repeat(64), "").err(),
        Some(ProvenanceError::InvalidCatalogIdentity)
    );
    assert_eq!(
        make_provenance("0", "").err(),
        Some(ProvenanceError::InvalidCatalogIdentity)
    );
    assert_eq!(read(""), Some(ProvenanceError::NoHeader));
    assert_eq!(read("oracle_id\n"), Some(ProvenanceError::NoIdColumn));
    assert_eq!(read("#id\n"), Some(ProvenanceError::NoOracleColumn));
    assert_eq!(read("#id\toracle_id\n"), Some(ProvenanceError::NoRows));
    assert_eq!(
        read(&format!("oracle_id\t#id\n{oracle}\n")),
        at(2, ProvenanceRowProblem::MissingId)
    );
    assert_eq!(read("#id\toracle_id\nx\n"), at(2, ProvenanceRowProblem::InvalidId));
    assert_eq!(read("#id\toracle_id\n1\n"), at(2, ProvenanceRowProblem::MissingOracleId));
    assert_eq!(read("#id\toracle_id\n1\tz\n"), at(2, ProvenanceRowProblem::InvalidOracleId));
    assert_eq!(
        read(&format!("#id\toracle_id\n\n2\t{oracle}\n")),
        at(3, ProvenanceRowProblem::NotDense { expected: 1, found: 2 })
    );
}

#[test]
fn manifests_are_canonical() {
    let artifacts = SkinArtifacts {
        cardset: b"hello world",
        titles: b"",
        bodies: None,
        artpack: Some(b"hello world"),
        provenance: None,
    };
    let hints = vec![
        "cardset=https://a.example/x?y=\"z\"".to_owned(),
        "artpack=http://b.example/\\".to_owned(),
        "cardset=https://c.example/\u{1}\n".to_owned(),
    ];
    let references = skin_references(&artifacts, &hints).ok().unwrap();
    assert_eq!(
        manifest_document(&references),
        concat_parts(&[
            "{\"artpack\":{\"cid\":\"bafkreifzjut3te2nhyekklss27nh3k72ysco7y32koao5eei66wof36n5e\",\"hints\":[\"http://b.example/\\\\\"],\"size\":11},",
            "\"cardset\":{\"cid\":\"bafkreifzjut3te2nhyekklss27nh3k72ysco7y32koao5eei66wof36n5e\",\"hints\":[\"https://a.example/x?y=\\\"z\\\"\",\"https://c.example/\\u0001\\n\"],\"size\":11},",
            "\"format\":\"deepscry-card-skin\",",
            "\"titles\":{\"cid\":\"bafkreihdwdcefgh4dqkjv67uzcmw7ojee6xedzdetojuzjevtenxquvyku\",\"hints\":[],\"size\":0},",
            "\"version\":1}",
        ])
    );
    let value: serde_json::Value = serde_json::from_str(&manifest_document(&references)).unwrap();
    assert_eq!(value["cardset"]["hints"][1], "https://c.example/\u{1}\n");
    assert_eq!(serde_json::to_string(&value).unwrap(), manifest_document(&references));
}

fn concat_parts(parts: &[&str]) -> String {
    parts.concat()
}

#[test]
fn manifests_escape_strings_as_json_does() {
    for c in (0u32..0x250).chain([0x2028, 0xffff, 0x1f600]).filter_map(char::from_u32) {
        let text = format!("a{c}b");
        let reference = content_ref(b"", vec![text.clone()]);
        assert_eq!(reference.size, 0);
        let references = anonymous_corpus::manifest::SkinReferences {
            artpack: None,
            bodies: None,
            cardset: reference,
            provenance: None,
            titles: content_ref(b"x", Vec::new()),
        };
        let document = manifest_document(&references);
        assert!(document.contains(&serde_json::to_string(&text).unwrap()), "{c:?}");
    }
}

#[test]
fn hints_are_checked() {
    assert_eq!(
        parse_hints(&["titles=https://x=y".to_owned()]).ok().unwrap(),
        vec![(Member::Titles, "https://x=y".to_owned())]
    );
    assert!(matches!(parse_hints(&["titles".to_owned()]), Err(HintError::NoSeparator)));
    assert!(matches!(
        parse_hints(&["other=https://x".to_owned()]),
        Err(HintError::UnknownMember(name)) if name == "other"
    ));
    assert!(matches!(
        parse_hints(&["titles=ftp://x".to_owned()]),
        Err(HintError::NotAbsolute(url)) if url == "ftp://x"
    ));
    let artifacts = SkinArtifacts {
        cardset: b"",
        titles: b"",
        bodies: None,
        artpack: None,
        provenance: None,
    };
    let hint = |text: &str| vec![text.to_owned()];
    for (text, member) in [
        ("bodies=https://x", Member::Bodies),
        ("artpack=https://x", Member::Artpack),
        ("provenance=https://x", Member::Provenance),
    ] {
        assert!(matches!(
            skin_references(&artifacts, &hint(text)),
            Err(ManifestError::MissingArtifact(missing)) if missing == member
        ));
    }
    assert!(matches!(
        skin_references(&artifacts, &hint("x")),
        Err(ManifestError::Hint(HintError::NoSeparator))
    ));
    assert!(skin_references(&artifacts, &hint("titles=http://x")).is_ok());
}

#[test]
fn every_change_to_a_reference_changes_the_manifest() {
    let document = |cardset: &[u8], titles: &[u8], provenance: Option<&[u8]>, hints: &[&str]| {
        let artifacts = SkinArtifacts { cardset, titles, bodies: None, artpack: None, provenance };
        let hints: Vec<String> = hints.iter().map(|hint| hint.to_string()).collect();
        manifest_document(&skin_references(&artifacts, &hints).ok().unwrap())
    };
    let all = [
        document(b"a", b"b", None, &[]),
        document(b"c", b"b", None, &[]),
        document(b"a", b"c", None, &[]),
        document(b"a", b"b", Some(b"c"), &[]),
        document(b"a", b"b", None, &["titles=https://x.example"]),
        document(b"a", b"b", None, &["titles=https://y.example"]),
        document(b"a", b"b", None, &["cardset=https://x.example"]),
        document(b"a", b"b", None, &["titles=https://x.example", "titles=https://y.example"]),
        document(b"a", b"b", None, &["titles=https://x.example\",\"https://y.example"]),
    ];
    for (i, left) in all.iter().enumerate() {
        for right in &all[i + 1..] {
            assert_ne!(left, right);
        }
    }
}

fn named(source: &str, name: &str, ids: &[&str]) -> MappingProblem {
    MappingProblem {
        source: source.to_owned(),
        name: name.to_owned(),
        oracle_ids: ids.iter().map(|id| id.to_string()).collect(),
    }
}

#[test]
fn reports_show_the_first_problems_of_each_kind() {
    let mut full = report();
    full.source_scripts = 4;
    full.generated_scripts = 3;
    full.duplicate_identical_scripts = 1;
    assert_eq!(
        report_lines(&full),
        vec![
            "Generated 3 numeric-ID scripts from 4 source scripts (1 identical duplicates)",
            "Unmapped: 0; ambiguous: 0; conflicting numeric scripts: 0; UNACCOUNTED: 0",
        ]
    );
    full.unaccounted_identities.push(named("a.txt", "A", &[]));
    for i in 0..12 {
        full.missing_mappings.push(named(&format!("{i}.txt"), "M", &[]));
    }
    for _ in 0..10 {
        full.ambiguous_mappings.push(named("b.txt", "B", &["00-1", "x\"y\n"]));
    }
    let lines = report_lines(&full);
    assert_eq!(lines.len(), 2 + 1 + 11 + 10);
    assert_eq!(
        lines[1],
        "Unmapped: 12; ambiguous: 10; conflicting numeric scripts: 0; UNACCOUNTED: 1"
    );
    assert_eq!(
        lines[2],
        "FAIL: a.txt (A) was never looked up at all - present in the Forge source, no Scryfall lookup attempted"
    );
    assert_eq!(lines[3], "WARNING: no Scryfall oracle_id for 0.txt (M)");
    assert_eq!(lines[12], "WARNING: no Scryfall oracle_id for 9.txt (M)");
    assert_eq!(
        lines[13],
        "WARNING: 2 additional missing mappings are recorded in .cache/reports/generate-report.json"
    );
    assert_eq!(
        lines[14],
        "WARNING: ambiguous Scryfall oracle_id for b.txt (B): [\"00-1\", \"x\\\"y\\n\"]"
    );
    full.ambiguous_mappings.push(named("b.txt", "B", &[]));
    full.unaccounted_identities.extend((0..10).map(|_| named("a.txt", "A", &[])));
    let lines = report_lines(&full);
    assert_eq!(
        lines[12],
        "FAIL: 1 additional unaccounted identities are recorded in .cache/reports/generate-report.json"
    );
    assert_eq!(
        lines.last().unwrap(),
        "WARNING: 1 additional ambiguous mappings are recorded in .cache/reports/generate-report.json"
    );
    assert_eq!(
        ambiguous_line("s", "n", "[]"),
        "WARNING: ambiguous Scryfall oracle_id for s (n): []"
    );
}
