use anonymous_corpus::catalog::{load_catalog_index, numeric_name_references};
use anonymous_corpus::contextual::rewrite_contextual_card_references;
use anonymous_corpus::digest::{hex_sha256, stable_runtime_object_id, token_id_for_key};
use anonymous_corpus::ids::{CardScriptId, TokenScriptId};
use anonymous_corpus::keywords::normalize_keyword_vocabulary;
use anonymous_corpus::names::index_cards;
use anonymous_corpus::parameters::{
    is_display_parameter, rewrite_card_reference_parameters, rewrite_token_script_parameters,
    rewrite_top_level_card_reference, strip_display_parameters, TokenIndex,
};
use anonymous_corpus::paths::{
    relative_display, sibling_with_suffix, validate_output_path, OutputPathError,
};
use anonymous_corpus::qualifiers::{
    anonymize_set_qualifiers, match_token_title, replace_named_qualifiers,
};
use anonymous_corpus::references::{edit_distance_at_most_one, numeric_id_for_name};
use anonymous_corpus::report::{reconcile_identities, Attempts};
use anonymous_corpus::runtime::{anonymize_runtime_object_names, runtime_object_names};
use anonymous_corpus::sanitize::{
    is_removed_top_level_field, sanitize_runtime_line, sanitize_script, sanitize_token_script,
};
use anonymous_corpus::script::{
    meld_back_identity, source_identity_name, top_level_value, top_level_values,
};
use anonymous_corpus::scryfall::{commander_color_identity, ScryfallCard, ScryfallFace};
use anonymous_corpus::uuids::Uuid;

fn no_tokens() -> TokenIndex {
    TokenIndex::new()
}

#[test]
fn sanitizes_a_script_without_touching_executable_fields() {
    let input = "Name:Fixture Qzx One\nManaCost:R\nTypes:Instant\nA:SP$ DealDamage | ValidTgts$ Any | NumDmg$ 3 | SpellDescription$ CARDNAME deals damage.\nSVar:Named:DB$ MakeCard | Name$ Fixture Qzx One | SpellDescription$ Make one.\nOracle:Fixture rules sentence used only by this synthetic test.\n";
    assert_eq!(
        sanitize_script(input, CardScriptId(145), "R", "Gfixture", &[], &no_tokens()),
        "Id:145\nColorIdentity:R\nOriginSet:Gfixture\nManaCost:R\nTypes:Instant\nA:SP$ DealDamage | ValidTgts$ Any | NumDmg$ 3\nSVar:Named:DB$ MakeCard | Name$ Fixture Qzx One\n"
    );
}

#[test]
fn removes_all_human_description_parameters() {
    let input = "Text:Display-only sentence.\nT:Mode$ SpellCast | TriggerDescription$ Display sentence | CostDesc$ More display text | Description$ Keep this\n";
    assert_eq!(
        sanitize_script(input, CardScriptId(1), "", "Gfixture", &[], &no_tokens()),
        "Id:1\nColorIdentity:\nOriginSet:Gfixture\nT:Mode$ SpellCast\n"
    );
}

#[test]
fn removes_non_runtime_deck_hints() {
    let input = "# Human implementation note\n\nDeckHints:Type$Forest & Name$Fixture Qzx One\nDeckHas:Ability$Token\nDeckNeeds:Name$Fixture Qzx Two\nDraft:AI$ True\nAI:RemoveDeck:Random\nManaCost:G\nTypes:Creature\n";
    assert_eq!(
        sanitize_script(input, CardScriptId(1), "G", "Gfixture", &[], &no_tokens()),
        "Id:1\nColorIdentity:G\nOriginSet:Gfixture\nManaCost:G\nTypes:Creature\n"
    );
}

#[test]
fn numeric_path_has_three_trie_levels_and_full_key() {
    let id = CardScriptId(12_345_678);
    assert_eq!(id.trie_path("cards"), "cards/12/34/56/12345678.txt");
}

#[test]
fn named_filter_qualifiers_become_numeric_identity_qualifiers() {
    let references = vec![("Fixture Qzx One".to_owned(), CardScriptId(145))];
    assert_eq!(
        replace_named_qualifiers(
            "S:Mode$ Continuous | Affected$ Creature.namedFixture Qzx One+YouCtrl",
            &references,
            &no_tokens(),
        ),
        "S:Mode$ Continuous | Affected$ Creature.catalogId145+YouCtrl"
    );
}

#[test]
fn parses_structured_negated_and_prose_named_qualifiers() {
    let references = vec![
        ("Fixture Qzx One".to_owned(), CardScriptId(145)),
        ("Worldgorger Dragon".to_owned(), CardScriptId(5780)),
    ];
    let mut tokens = no_tokens();
    tokens.insert("wolves_of_the_hunt".to_owned(), TokenScriptId(999));

    assert_eq!(
        replace_named_qualifiers(
            "Creature.YouCtrl+nonArtifact+!namedFixture Qzx One",
            &references,
            &tokens
        ),
        "Creature.YouCtrl+nonArtifact+!catalogId145"
    );
    assert_eq!(
        replace_named_qualifiers(
            "ValidCard$ creatures named Wolves of the Hunt",
            &references,
            &tokens
        ),
        "ValidCard$ creatures tokenId999"
    );
}

#[test]
fn strips_keyword_flavor_words() {
    assert_eq!(normalize_keyword_vocabulary("K:Equip:2:Flavor Fixture Blade"), "K:Equip:2");
    assert_eq!(
        normalize_keyword_vocabulary("K:Equip:4:Flavor Fixture and Fixture Shield"),
        "K:Equip:4"
    );
    assert_eq!(normalize_keyword_vocabulary("K:Flying"), "K:Flying");
}

#[test]
fn executable_card_reference_parameters_become_numeric() {
    let references = vec![
        ("Fixture Qzx One".to_owned(), CardScriptId(145)),
        ("Fixture Qzx Two".to_owned(), CardScriptId(146)),
    ];
    assert_eq!(
        rewrite_card_reference_parameters(
            "SVar:Make:DB$ MakeCard | Name$ Fixture Qzx One | Zone$ Hand",
            &references
        ),
        "SVar:Make:DB$ MakeCard | CatalogId$ 145 | Zone$ Hand"
    );
    assert_eq!(
        rewrite_card_reference_parameters(
            "SVar:Meld:DB$ Meld | Name$ Fixture Qzx One | Primary$ Fixture Qzx One | Secondary$ Fixture Qzx Two",
            &references
        ),
        "SVar:Meld:DB$ Meld | CatalogId$ 145 | PrimaryCatalogId$ 145 | SecondaryCatalogId$ 146"
    );
    assert_eq!(
        rewrite_card_reference_parameters(
            "A:AB$ NameCard | ChooseFromList$ Fixture Qzx One,Fixture Qzx Two",
            &references
        ),
        "A:AB$ NameCard | ChooseFromCatalogIds$ 145,146"
    );
    assert_eq!(
        rewrite_card_reference_parameters("CopyFaceFrom:Fixture Qzx One", &references),
        "CopyFaceFromId:145"
    );
    assert_eq!(
        rewrite_card_reference_parameters("K:Partner with:Fixture Qzx Two", &references),
        "K:PartnerWithId:146"
    );
}

#[test]
fn token_script_references_and_definitions_become_numeric() {
    let mut tokens = no_tokens();
    tokens.insert("fixture_one".to_owned(), TokenScriptId(101));
    tokens.insert("fixture_two".to_owned(), TokenScriptId(102));
    assert_eq!(
        rewrite_token_script_parameters(
            "SVar:T:DB$ Token | TokenScript$ fixture_one,fixture_two | TokenOwner$ You",
            &tokens
        ),
        "SVar:T:DB$ Token | TokenScriptIds$ 101,102 | TokenOwner$ You"
    );
    assert_eq!(
        sanitize_token_script(
            "Name:Fixture Token\nManaCost:no cost\nTypes:Creature\nOracle:Display text.\n",
            TokenScriptId(101),
            &[],
            &tokens
        ),
        "TokenId:101\nColorIdentity:\nManaCost:no cost\nTypes:Creature\n"
    );
    assert_eq!(token_id_for_key("fixture_one"), token_id_for_key("fixture_one"));
    assert_ne!(token_id_for_key("fixture_one"), token_id_for_key("fixture_two"));
}

#[test]
fn set_predicates_use_anonymous_functional_groups() {
    assert_eq!(
        anonymize_set_qualifiers("ValidCard$ Card.setSET+Other | ValidCards$ Permanent.!token+setSET"),
        "ValidCard$ Card.setG2992d15897b5bbe7+Other | ValidCards$ Permanent.!token+setG2992d15897b5bbe7"
    );
    assert_eq!(
        anonymize_set_qualifiers("RepeatSubAbility$ ResetCheck"),
        "RepeatSubAbility$ ResetCheck"
    );
}

#[test]
fn synthetic_runtime_object_names_become_numeric() {
    assert_eq!(
        anonymize_runtime_object_names(
            "SVar:E:DB$ Effect | Name$ Fixture effect | Duration$ Permanent",
            &["Fixture effect".to_owned()]
        ),
        format!(
            "SVar:E:DB$ Effect | Name$ {} | Duration$ Permanent",
            stable_runtime_object_id("Fixture effect")
        )
    );
    assert_eq!(
        anonymize_runtime_object_names(
            "SVar:C:DB$ Clone | NewName$ Fixture clone",
            &["Fixture clone".to_owned()]
        ),
        format!(
            "SVar:C:DB$ Clone | NewName$ {}",
            stable_runtime_object_id("Fixture clone")
        )
    );
    assert_eq!(
        anonymize_runtime_object_names(
            "SVar:X:Count$ValidCommand Effect.YouCtrl+namedFixture effect",
            &["Fixture effect".to_owned()]
        ),
        format!(
            "SVar:X:Count$ValidCommand Effect.YouCtrl+named{}",
            stable_runtime_object_id("Fixture effect")
        )
    );
}

#[test]
fn keyword_operands_use_non_prose_vocabulary() {
    assert_eq!(
        normalize_keyword_vocabulary(
            "S:Mode$ Continuous | AddKeyword$ Flying & First\u{20}Strike & Protection from red"
        ),
        "S:Mode$ Continuous | AddKeyword$ Flying & FirstStrike & Protection:Red"
    );
    assert_eq!(
        normalize_keyword_vocabulary(
            "S:Mode$ Continuous | AddKeyword$ You draw cards from the bottom of your library instead of the top of your \u{6c}ibrary."
        ),
        "S:Mode$ Continuous | AddKeyword$ DrawFromBottom"
    );
    assert_eq!(
        normalize_keyword_vocabulary("K:etbCounter:P1P1:X:no Condition:Human reminder sentence."),
        "K:etbCounter:P1P1:X:no Condition"
    );
}

#[test]
fn basic_land_types_are_not_folded_into_color_identity() {
    let card = ScryfallCard {
        oracle_id: None,
        name: "Fixture Qzx Dual".to_owned(),
        printed_name: None,
        oracle_text: Some("({T}: Add {R} or {W}.)\nAs this land enters, you may pay 2 life.".to_owned()),
        mana_cost: String::new(),
        type_line: "Land — Mountain Plains".to_owned(),
        lang: "en".to_owned(),
        layout: "normal".to_owned(),
        color_identity: vec!["R".to_owned(), "W".to_owned()],
        colors: Vec::new(),
        color_indicator: None,
        card_faces: Vec::new(),
        ..Default::default()
    };
    assert_eq!(commander_color_identity(&card), "");
}

#[test]
fn non_reminder_symbols_still_define_a_basic_land_cards_identity() {
    let card = ScryfallCard {
        oracle_id: None,
        name: "Fixture Qzx Producing Land".to_owned(),
        printed_name: None,
        oracle_text: Some("{T}: Add {W} or {R}.".to_owned()),
        mana_cost: String::new(),
        type_line: "Land — Mountain Plains".to_owned(),
        lang: "en".to_owned(),
        layout: "normal".to_owned(),
        color_identity: vec!["R".to_owned(), "W".to_owned()],
        colors: Vec::new(),
        color_indicator: None,
        card_faces: Vec::new(),
        ..Default::default()
    };
    assert_eq!(commander_color_identity(&card), "WR");
}

#[test]
fn indexes_whole_cards_and_faces_by_oracle_identity() {
    let id = Uuid(uuid::Uuid::parse_str("12345678-1234-1234-1234-123456789abc").unwrap().as_u128());
    let index = index_cards(vec![ScryfallCard {
        oracle_id: Some(id),
        name: "Fixture Qzx Front // Fixture Qzx Back".to_owned(),
        printed_name: None,
        oracle_text: None,
        mana_cost: "{1}{R} // {1}{U}".to_owned(),
        type_line: "Instant // Instant".to_owned(),
        lang: "en".to_owned(),
        layout: "split".to_owned(),
        color_identity: vec!["R".to_owned(), "U".to_owned()],
        colors: vec!["R".to_owned(), "U".to_owned()],
        color_indicator: None,
        card_faces: vec![
            ScryfallFace {
                name: "Fire".to_owned(),
                printed_name: None,
                oracle_text: None,
                mana_cost: "{1}{R}".to_owned(),
                type_line: "Instant".to_owned(),
                colors: vec!["R".to_owned()],
                color_indicator: None,
                ..Default::default()
            },
            ScryfallFace {
                name: "Ice".to_owned(),
                printed_name: None,
                oracle_text: None,
                mana_cost: "{1}{U}".to_owned(),
                type_line: "Instant".to_owned(),
                colors: vec!["U".to_owned()],
                color_indicator: None,
                ..Default::default()
            },
        ],
        ..Default::default()
    }]);
    assert_eq!(index.lookup("Fixture Qzx Front // Fixture Qzx Back").unwrap().len(), 1);
    assert_eq!(index.lookup("Fire").unwrap().len(), 1);
    assert_eq!(index.lookup("Ice").unwrap().len(), 1);
}

#[test]
fn rejects_parent_traversal_in_output() {
    assert!(validate_output_path("../cards").is_err());
    assert!(validate_output_path("cards").is_ok());
}

#[test]
fn derives_split_identity_from_copy_face_records() {
    let script =
        "CopyFaceFrom:Fixture Qzx Front\nAlternateMode:Split\n\nALTERNATE\n\nCopyFaceFrom:Fixture Qzx Back\n";
    assert_eq!(
        source_identity_name(script).as_deref(),
        Some("Fixture Qzx Front // Fixture Qzx Back")
    );
}

#[test]
fn meld_back_identity_extracts_the_back_face_from_an_alternate_block() {
    let script = "Name:Fixture Front\nManaCost:2 W\nTypes:Creature\nAlternateMode:Meld\nOracle:Front rules text.\n\nALTERNATE\n\nName:Fixture Back\nManaCost:no cost\nTypes:Creature\nOracle:Back rules text.\n";
    let (back_name, back_text) = meld_back_identity(script).expect("meld back identity");
    assert_eq!(back_name, "Fixture Back");
    assert!(back_text.contains("Types:Creature"));
    assert!(back_text.contains("Oracle:Back rules text."));
    assert!(!back_text.contains("Fixture Front"));
}

#[test]
fn meld_back_identity_is_none_for_a_melds_other_front_half() {
    let script = "Name:Fixture Other Front\nManaCost:1 W\nTypes:Creature\nSVar:Meld:DB$ Meld | Name$ Fixture Back | Primary$ Fixture Front | Secondary$ Fixture Other Front\nAlternateMode:Meld\nOracle:Other front rules text.\n";
    assert_eq!(meld_back_identity(script), None);
}

#[test]
fn meld_back_identity_is_none_for_non_meld_alternate_modes() {
    let script = "Name:Fixture DFC Front\nManaCost:2 U\nTypes:Creature\nAlternateMode:DoubleFaced\nOracle:Front rules text.\n\nALTERNATE\n\nName:Fixture DFC Back\nManaCost:no cost\nTypes:Creature\nOracle:Back rules text.\n";
    assert_eq!(meld_back_identity(script), None);
}

#[test]
fn reconcile_identities_flags_an_identity_that_was_never_attempted() {
    let source_root = "cardsfolder";
    let source_path = "cardsfolder/g/gisela_fixture.txt".to_owned();
    let text = "Name:Fixture Front\nManaCost:2 W\nTypes:Creature\nAlternateMode:Meld\nOracle:Front rules text.\n\nALTERNATE\n\nName:Fixture Back\nManaCost:no cost\nTypes:Creature\nOracle:Back rules text.\n".to_owned();
    let source_texts = vec![(source_path.clone(), text)];

    let mut attempted_broken = Attempts::new();
    attempted_broken.insert(&source_path, "Fixture Front");
    let mut unaccounted = Vec::new();
    reconcile_identities(source_root, &source_texts, &attempted_broken, &mut unaccounted);
    assert_eq!(unaccounted.len(), 1, "the meld back identity must be reported as unaccounted");
    assert_eq!(unaccounted[0].name, "Fixture Back");

    let mut attempted_fixed = Attempts::new();
    attempted_fixed.insert(&source_path, "Fixture Front");
    attempted_fixed.insert(&source_path, "Fixture Back");
    let mut unaccounted_fixed = Vec::new();
    reconcile_identities(source_root, &source_texts, &attempted_fixed, &mut unaccounted_fixed);
    assert!(unaccounted_fixed.is_empty(), "both identities attempted -> nothing unaccounted");
}

#[test]
fn an_unaccounted_identity_is_reported_with_its_relative_source() {
    let sources = vec![("root/a/b.txt".to_owned(), "Name:Lone\n".to_owned())];
    let mut problems = Vec::new();
    reconcile_identities("root", &sources, &Attempts::new(), &mut problems);
    assert_eq!(problems.len(), 1);
    assert_eq!(problems[0].source, "a/b.txt");
    assert_eq!(problems[0].name, "Lone");
    assert!(problems[0].oracle_ids.is_empty());
}

#[test]
fn attempts_belong_to_their_source() {
    let mut attempts = Attempts::new();
    attempts.insert("a", "One");
    attempts.insert("b", "Two");
    attempts.insert("a", "Three");
    assert!(attempts.contains("a", "One"));
    assert!(attempts.contains("a", "Three"));
    assert!(attempts.contains("b", "Two"));
    assert!(!attempts.contains("b", "One"));
    assert!(!attempts.contains("c", "One"));
}

#[test]
fn identity_names_follow_names_before_copied_faces() {
    assert_eq!(source_identity_name("ManaCost:R\n"), None);
    assert_eq!(source_identity_name("Name: A \nName:B\n").as_deref(), Some("A"));
    assert_eq!(
        source_identity_name("Name:A\nAlternateMode:Split\nALTERNATE\nName:B\n").as_deref(),
        Some("A // B")
    );
    assert_eq!(source_identity_name("Name:A\nCopyFaceFrom:C\n").as_deref(), Some("A"));
    assert_eq!(top_level_value("A: x \r\nB:y:z", "B").as_deref(), Some("y:z"));
    assert_eq!(top_level_value("A: x \r\nB:y:z", "C"), None);
    assert_eq!(top_level_values("T:1\nX:9\nT : 2 \n", "T"), vec!["1", "2"]);
}

#[test]
fn token_titles_match_their_keys() {
    assert_eq!(
        match_token_title("Wolves of the Hunt and more", "wolves_of_the_hunt").as_deref(),
        Some("Wolves of the Hunt")
    );
    assert_eq!(
        match_token_title("Urza's Saga-x", "urzas_saga").as_deref(),
        Some("Urza's Saga")
    );
    assert_eq!(match_token_title("Wolvesx", "wolves"), None);
    assert_eq!(match_token_title("Wolf", "wolves"), None);
    assert_eq!(match_token_title("Bär", "bär").as_deref(), Some("Bär"));
}

#[test]
fn the_longest_token_title_and_any_card_title_win() {
    let mut tokens = no_tokens();
    tokens.insert("fixture".to_owned(), TokenScriptId(1));
    tokens.insert("fixture_long".to_owned(), TokenScriptId(2));
    assert_eq!(
        replace_named_qualifiers("A.named Fixture Long+B", &[], &tokens),
        "A.tokenId2+B"
    );
    let references = vec![("Fixture".to_owned(), CardScriptId(7))];
    assert_eq!(
        replace_named_qualifiers("A.namedFixture Long+B", &references, &tokens),
        "A.catalogId7 Long+B"
    );
    assert_eq!(
        replace_named_qualifiers("renamed unnamedFixture", &references, &tokens),
        "renamed unnamedFixture"
    );
    assert_eq!(
        replace_named_qualifiers("A.namedUnknown|B.namedFixture", &references, &tokens),
        "A.namedUnknown|B.catalogId7"
    );
}

#[test]
fn a_prose_qualifier_that_overlaps_a_replaced_title_stays() {
    let references = vec![("creatures".to_owned(), CardScriptId(3))];
    assert_eq!(
        replace_named_qualifiers("X.namedcreatures named creatures", &references, &no_tokens()),
        "X.catalogId3 named creatures"
    );
}

#[test]
fn titles_within_one_edit_are_found_when_they_agree() {
    let references = vec![
        ("Fixture Alpha".to_owned(), CardScriptId(1)),
        ("Fixture Alphb".to_owned(), CardScriptId(2)),
        ("Other, Title".to_owned(), CardScriptId(3)),
    ];
    assert_eq!(numeric_id_for_name("Fixture Alpha", &references), Some(CardScriptId(1)));
    assert_eq!(numeric_id_for_name("Fixture Alphc", &references), None);
    assert_eq!(numeric_id_for_name("other, titl", &references), Some(CardScriptId(3)));
    assert_eq!(numeric_id_for_name(" Other; Title ", &references), Some(CardScriptId(3)));
    assert_eq!(numeric_id_for_name("Nothing", &references), None);
    assert!(edit_distance_at_most_one("abc", "abc"));
    assert!(edit_distance_at_most_one("abc", "ABd"));
    assert!(edit_distance_at_most_one("abc", "ab"));
    assert!(edit_distance_at_most_one("bc", "abc"));
    assert!(!edit_distance_at_most_one("abc", "acb"));
    assert!(!edit_distance_at_most_one("abc", "a"));
}

#[test]
fn closeness_of_titles_is_symmetric() {
    for (left, right) in [("abc", "abd"), ("abc", "ab"), ("İx", "ix"), ("abc", "cba"), ("", "a")] {
        assert_eq!(
            edit_distance_at_most_one(left, right),
            edit_distance_at_most_one(right, left)
        );
    }
}

#[test]
fn top_level_references_and_lists_become_numeric() {
    let references = vec![
        ("Fixture One".to_owned(), CardScriptId(11)),
        ("Fixture Two".to_owned(), CardScriptId(12)),
    ];
    assert_eq!(rewrite_top_level_card_reference("ManaCost:R", &references), None);
    assert_eq!(
        rewrite_top_level_card_reference("CopyFaceFrom:Fixture Two", &references).as_deref(),
        Some("CopyFaceFromId:12")
    );
    assert_eq!(
        rewrite_card_reference_parameters(
            "A:AB$ MakeCard | Names$ Fixture One,Fixture Two",
            &references
        ),
        "A:AB$ MakeCard | CatalogIds$ 11,12"
    );
}

#[test]
fn unknown_token_keys_stay_as_they_are() {
    let mut tokens = no_tokens();
    tokens.insert("known".to_owned(), TokenScriptId(5));
    assert_eq!(
        rewrite_token_script_parameters("DB$ Token | TokenScript$ known,unknown", &tokens),
        "DB$ Token | TokenScript$ known,unknown"
    );
}

#[test]
fn display_parameters_are_recognized_by_their_keys() {
    assert!(is_display_parameter(" SpellDescription$ x"));
    assert!(is_display_parameter("OptionPrompt$ x"));
    assert!(is_display_parameter("StackDesc $ x"));
    assert!(is_display_parameter("SomeMessage$ x"));
    assert!(is_display_parameter("ChoiceTitle$ x"));
    assert!(is_display_parameter("Image$ x"));
    assert!(is_display_parameter("SpellbookName$ x"));
    assert!(!is_display_parameter("Descriptions$ x"));
    assert!(!is_display_parameter("Description"));
}

#[test]
fn stripping_leaves_no_display_parameter_and_settles_at_once() {
    for line in [
        "A:SP$ X |  Y$ 1|Description$ z | W$ 2 ",
        "Description$ only",
        "",
        "a||b| Image$ c",
    ] {
        let once = strip_display_parameters(line);
        assert!(once.split('|').all(|segment| !is_display_parameter(segment)));
        assert_eq!(strip_display_parameters(&once), once);
    }
    assert_eq!(strip_display_parameters("A |B| Image$ c"), "A | B");
    assert_eq!(strip_display_parameters("Description$ only"), "");
}

#[test]
fn removed_fields_are_recognized_by_their_keys() {
    for line in [
        "K:DeckLimit:4",
        "Name:x",
        " Oracle :x",
        "Text:x",
        "DeckHints:x",
        "ODeckHints:x",
        "DeckHas:x",
        "DeckNeeds:x",
        "Draft:x",
        "AI:x",
        "Variant:A:Name:x",
        "Name",
    ] {
        assert!(is_removed_top_level_field(line), "{line}");
    }
    for line in ["Names:x", "K:Deck", "ManaCost:R", "", "SVar:Name:x"] {
        assert!(!is_removed_top_level_field(line), "{line}");
    }
}

#[test]
fn removed_lines_change_nothing_in_the_body() {
    let kept = "ManaCost:R\nA:SP$ Draw | NumCards$ 1\n";
    let padded = "Name:Title\n\n# note\nManaCost:R\nOracle:Text\nA:SP$ Draw | NumCards$ 1\nText:x\n";
    assert_eq!(
        sanitize_script(padded, CardScriptId(3), "R", "2025A", &[], &no_tokens()),
        sanitize_script(kept, CardScriptId(3), "R", "2025A", &[], &no_tokens())
    );
}

#[test]
fn runtime_names_are_collected_longest_first() {
    let script = "SVar:A:DB$ Effect | Name$ Bb\nSVar:B:DB$ Clone | NewName$ Long name\nSVar:C:DB$ Effect | Name$ Aa\nSVar:D:DB$ Effect | Name$ Aa\n";
    assert_eq!(runtime_object_names(script), vec!["Long name", "Aa", "Bb"]);
}

#[test]
fn digests_give_exact_identities() {
    assert_eq!(
        hex_sha256(b""),
        "e3b0c44298fc1c149afbf4c8996fb92427ae41e4649b934ca495991b7852b855"
    );
    assert_eq!(token_id_for_key("fixture_one"), TokenScriptId(2_329_072_464));
    assert_eq!(token_id_for_key("fixture_two"), TokenScriptId(1_628_200_063));
    assert_eq!(stable_runtime_object_id("Fixture effect"), 2_771_554_709_147_874_667);
    assert_eq!(stable_runtime_object_id(" Fixture clone\n"), 14_989_932_148_249_673_048);
}

#[test]
fn set_codes_are_grouped_without_regard_to_case() {
    assert_eq!(
        anonymize_set_qualifiers("Card.setset"),
        anonymize_set_qualifiers("Card.setSET")
    );
    assert_eq!(anonymize_set_qualifiers("Card.set+x"), "Card.set+x");
    assert_eq!(anonymize_set_qualifiers("Card.set"), "Card.set");
}

#[test]
fn lines_pass_through_every_rewriting() {
    let references = vec![("Fixture One".to_owned(), CardScriptId(11))];
    let mut tokens = no_tokens();
    tokens.insert("goblin".to_owned(), TokenScriptId(21));
    assert_eq!(
        sanitize_runtime_line(
            "A:AB$ Token | TokenScript$ goblin | ValidCards$ Creature.namedFixture One | SpellDescription$ Make.",
            &references,
            &tokens,
            &[],
            Some(CardScriptId(11)),
        ),
        "A:AB$ Token | TokenScriptIds$ 21 | ValidCards$ Creature.catalogId11"
    );
    assert_eq!(
        rewrite_contextual_card_references("ManaCost:R", &references, None),
        "ManaCost:R"
    );
}

#[test]
fn output_paths_are_checked() {
    assert_eq!(validate_output_path(""), Err(OutputPathError::Unsafe));
    assert_eq!(validate_output_path("/"), Err(OutputPathError::Unsafe));
    assert_eq!(validate_output_path("//."), Err(OutputPathError::Unsafe));
    assert_eq!(validate_output_path("a/../b"), Err(OutputPathError::ParentTraversal));
    assert_eq!(validate_output_path("."), Err(OutputPathError::NoFinalName));
    assert_eq!(validate_output_path("./"), Err(OutputPathError::NoFinalName));
    assert_eq!(validate_output_path("/a/"), Ok(()));
    assert_eq!(validate_output_path("a..b"), Ok(()));
}

#[test]
fn paths_are_shown_from_the_source_directory() {
    assert_eq!(relative_display("cardsfolder", "cardsfolder/a/b.txt"), "a/b.txt");
    assert_eq!(relative_display("/", "/a/b.txt"), "a/b.txt");
    assert_eq!(relative_display("cards", "cardsfolder/a.txt"), "cardsfolder/a.txt");
    assert_eq!(relative_display("a", "a"), "");
    assert_eq!(relative_display("", "a/b"), "a/b");
    assert_eq!(relative_display("/src", "/src//a.txt"), "a.txt");
    assert_eq!(relative_display("src/.", "src/a"), "a");
    assert_eq!(relative_display("src", "./src/a"), "./src/a");
    let spellings = [
        "", ".", "./", "..", "/", "//", "/.", "a", "a/", "./a", "a/.", "a//b", "a/./b", "a/b/", "a/..",
        "../a", "/a", "//a/", "/a/b", "/a//b/./c", "a/b//c/.", ".a", "a.", "a/.b", "./.", "a/b/c",
    ];
    for root in spellings {
        for path in spellings {
            let shown = std::path::Path::new(path);
            let expected = shown.strip_prefix(root).unwrap_or(shown).display().to_string();
            assert_eq!(relative_display(root, path), expected, "{root:?} {path:?}");
        }
    }
}

#[test]
fn siblings_are_hidden_neighbours() {
    assert_eq!(sibling_with_suffix("cards", "build-1").as_deref(), Some(".cards.build-1"));
    assert_eq!(sibling_with_suffix("a/cards", "old-2").as_deref(), Some("a/.cards.old-2"));
    assert_eq!(sibling_with_suffix("/cards/.", "x").as_deref(), Some("/.cards.x"));
    assert_eq!(sibling_with_suffix("a/..", "x"), None);
    assert_eq!(sibling_with_suffix("/", "x"), None);
    assert_eq!(sibling_with_suffix("", "x"), None);
    let spellings = [
        ".", "./", "..", "//", "a/", "./a", "a/.", "a//b", "a/./b", "a/b/", "../a", "//a/", "/a//b/./c",
        "a/b//c/.", ".a", "a/.b", "./.", "a/../b",
    ];
    for path in spellings {
        let whole = std::path::Path::new(path);
        let expected = whole.file_name().map(|name| {
            let name = format!(".{}.x", name.to_str().unwrap());
            whole.parent().unwrap().join(name).display().to_string()
        });
        assert_eq!(sibling_with_suffix(path, "x"), expected, "{path:?}");
    }
}

#[test]
fn names_find_numbers_by_hash_and_by_identity() {
    let catalog = load_catalog_index(
        "#id\toracle_id\tname_sha256\tanonymous_set_id\n1\t00000000-0000-0000-0000-0000000000aa\t48d867ad41b2dfdebd3a67ae2b34945a91f0d0670759f60ed74cfdfc32e2c86e\t2025A\n2\t00000000-0000-0000-0000-0000000000bb\t0000000000000000000000000000000000000000000000000000000000000000\t2025B\n",
    )
    .ok()
    .unwrap();
    assert_eq!(catalog.len(), 2);
    let card = |name: &str, id: u128| ScryfallCard {
        oracle_id: Some(Uuid(id)),
        name: name.to_owned(),
        lang: "en".to_owned(),
        layout: "normal".to_owned(),
        ..Default::default()
    };
    let index = index_cards(vec![card("Fixture Card", 0xcc), card("By, Identity", 0xbb)]);
    let references = numeric_name_references(&index, &catalog);
    let found: Vec<(&str, u32)> = references.iter().map(|(name, id)| (name.as_str(), id.0)).collect();
    assert_eq!(
        found,
        vec![
            ("By, Identity", 2),
            ("By,_Identity", 2),
            ("By; Identity", 2),
            ("Fixture Card", 1),
            ("Fixture_Card", 1),
        ]
    );
    assert_eq!(numeric_id_for_name("By; Identity", &references), Some(CardScriptId(2)));
}

#[test]
fn without_titles_qualifiers_stay() {
    for line in [
        "Valid$ Creature.namedFixture One+YouCtrl",
        "creatures named Fixture",
        "Valid$ Card.!namedX",
        "named",
        "",
    ] {
        assert_eq!(replace_named_qualifiers(line, &[], &no_tokens()), line);
    }
}

#[test]
fn removed_fields_do_not_come_out_from_behind_display_text() {
    let line = |text: &str| sanitize_runtime_line(text, &[], &no_tokens(), &[], None);
    assert_eq!(line("Types:Instant | Name: kept"), "Types:Instant | Name: kept");
    assert!(!is_removed_top_level_field("SpellDescription$ x | Name: Title"));
    assert_eq!(line("SpellDescription$ x | Name: Title"), "Name: Title");
    let script = "Desc$ a | Name:Foo\nTypes:Instant\n K:DeckLimit:4\nSpellDescription$ x | A:SP$ Draw\n";
    assert_eq!(
        sanitize_script(script, CardScriptId(3), "R", "2025A", &[], &no_tokens()),
        "Id:3\nColorIdentity:R\nOriginSet:2025A\nTypes:Instant\nA:SP$ Draw\n"
    );
    assert_eq!(
        sanitize_token_script(script, TokenScriptId(3), &[], &no_tokens()),
        "TokenId:3\nColorIdentity:\nTypes:Instant\nA:SP$ Draw\n"
    );
    let script = "Name:Foo\r\nTypes:Instant\r\n Oracle:x\nDesc$ a | Text:b |\nK:Flying | \r";
    let anonymous = sanitize_script(script, CardScriptId(3), "R", "2025A", &[], &no_tokens());
    assert_eq!(
        anonymous.lines().collect::<Vec<_>>(),
        ["Id:3", "ColorIdentity:R", "OriginSet:2025A", "Types:Instant", "K:Flying | "]
    );
    assert!(!anonymous.lines().any(is_removed_top_level_field));
}

#[test]
fn flavor_words_go_before_keywords_are_looked_for() {
    for (line, expected) in [
        ("K:Equip:2:Flavor Protection from red", "K:Equip:2"),
        ("K:Equip:2:Flavor First Strike:x", "K:Equip:2:x"),
        ("K:Protection from red:Flavor Blade", "K:Protection:Red"),
        ("K:Flavor Blade", "K"),
        ("SVar:X:Flavor Protection from red", "SVar:X:Flavor Protection:Red"),
    ] {
        assert_eq!(normalize_keyword_vocabulary(line), expected);
    }
    for line in ["K:Flying", "K:Equip:2:a:b:c:d:e", "K:etbCounter:P1P1:1:no Condition:text", "K:"] {
        let flavored = format!("{line}:Flavor Fixture Protection from blue Blade");
        assert_eq!(normalize_keyword_vocabulary(&flavored), normalize_keyword_vocabulary(line));
    }
}
