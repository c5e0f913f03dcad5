use rack_advisor::advisor::suggest_rerolls;
use rack_advisor::dictionary::{load_blocklist, load_core_words, load_cspell_words, load_dictionary, Dictionary};
use rack_advisor::probability::{approximate_draw_probability, binomial, DrawChance};
use rack_advisor::scoring::letter_value;
use rack_advisor::request::{solve_request, RequestError, SolveRackRequest};
use rack_advisor::solver::{score_word_with_bonuses, solve_rack, Bonus};

const RAW: &str = "cat\nact\ntac\nbat\ntab\nat\nta\nbit\nbid\ncab\ndab\naa\naaaa\nzzz\nbad\ncandid\nantic\nit\n  tin  \nnit\nab\nba\n";
const CORE: &str = "cat\nACT\nbat\ntab\nat\nta\nbit\nbid\ncab\ndab\naa\naaaa\nzzz\nbad\nantic\nit\ntin\nnit\nab\nba\nabacus\n";
const SPELL: &str = "CAT\nact\nBAT\nTAB\nAT\nTA\nBIT\nBID\nCAB\nDAB\nAA\nAAAA\nZZZ\nBAD\nANTIC\nIT\nTIN\nNIT\nAB\n";
const BLOCK: &str = "# blocked words\nTA\n";

const BINOM_98_7: u128 = 13_834_413_152;

fn sample_dictionary() -> Dictionary {
    let core = load_core_words(CORE);
    let spelling = load_cspell_words(SPELL);
    let blocked = load_blocklist(BLOCK);
    load_dictionary(RAW, &core, &spelling, &blocked)
}

fn rack(s: &str) -> Vec<char> {
    s.chars().collect()
}

#[test]
fn pass_two_chases_lengthener_triads_for_long_targets() {
    let rack: Vec<char> = "ABCDINT".chars().collect();
    let advice = suggest_rerolls(&rack, 7, &Vec::new(), 3, None);
    let pass_two = advice
        .iter()
        .find(|entry| entry.phase == "target")
        .expect("expected pass-two advice");

    assert!(pass_two.missing_letters.contains(&'G'));
    assert!(pass_two.missing_letters.contains(&'E'));
    assert!(!pass_two
        .notes
        .iter()
        .any(|note| note.contains("Rack already balanced")));
}

#[test]
fn dictionary_is_sorted_unique_and_filtered() {
    let dict = sample_dictionary();
    let words: Vec<String> = dict.words().clone();
    assert_eq!(
        words,
        vec!["AB", "ACT", "ANTIC", "AT", "BAD", "BAT", "BID", "BIT", "CAB", "CAT", "DAB", "IT", "NIT", "TAB", "TIN"]
            .into_iter()
            .map(String::from)
            .collect::<Vec<String>>()
    );
    for w in &words {
        assert!(w.len() >= 2 && w.len() <= 15);
        assert!(w.chars().all(|c| c.is_ascii_uppercase()));
        assert!(w.chars().any(|c| "AEIOUY".contains(c)));
    }
    assert!(!words.contains(&"AA".to_string()));
    assert!(!words.contains(&"AAAA".to_string()));
    assert!(!words.contains(&"ZZZ".to_string()));
    assert!(!words.contains(&"TA".to_string()));
    assert!(!words.contains(&"BA".to_string()));
}

#[test]
fn blocklist_skips_comments() {
    let blocked = load_blocklist("# note\n  xy \n\n#zz\nab\n");
    assert_eq!(blocked, vec!["XY".to_string(), "AB".to_string()]);
}

#[test]
fn letter_values_follow_the_table() {
    assert_eq!(letter_value('A'), Some(1));
    assert_eq!(letter_value('d'), Some(2));
    assert_eq!(letter_value('Y'), Some(3));
    assert_eq!(letter_value('M'), Some(4));
    assert_eq!(letter_value('K'), Some(5));
    assert_eq!(letter_value('x'), Some(8));
    assert_eq!(letter_value('Q'), Some(10));
    assert_eq!(letter_value('1'), None);
}

#[test]
fn bonus_codes_round_trip() {
    assert_eq!(Bonus::from_str_raw(" dl "), Bonus::DoubleLetter);
    assert_eq!(Bonus::from_str_raw("TL"), Bonus::TripleLetter);
    assert_eq!(Bonus::from_str_raw("Dw"), Bonus::DoubleWord);
    assert_eq!(Bonus::from_str_raw("tw"), Bonus::TripleWord);
    assert_eq!(Bonus::from_str_raw("xx"), Bonus::Plain);
    assert_eq!(Bonus::Plain.as_code(), "NONE");
    assert_eq!(Bonus::TripleWord.as_code(), "TW");
}

#[test]
fn scores_with_bonuses_and_rounds() {
    let cat = rack("CAT");
    // C=4, A=1, T=1
    assert_eq!(score_word_with_bonuses(&cat, &[], 1), Some(6));
    assert_eq!(score_word_with_bonuses(&cat, &[], 3), Some(18));
    assert_eq!(score_word_with_bonuses(&cat, &[Bonus::TripleLetter], 1), Some(14));
    assert_eq!(
        score_word_with_bonuses(&cat, &[Bonus::DoubleWord, Bonus::Plain, Bonus::TripleWord], 1),
        Some(36)
    );
    assert_eq!(score_word_with_bonuses(&cat, &[Bonus::DoubleLetter], 2), Some(2 * 10));
    assert_eq!(score_word_with_bonuses(&rack("C1T"), &[], 1), None);
}

#[test]
fn scoring_saturates() {
    let word = rack("QQQQQQQQQQQQQQQ");
    let bonuses = vec![Bonus::TripleWord; 15];
    assert_eq!(score_word_with_bonuses(&word, &bonuses, 5), Some(u32::MAX));
}

#[test]
fn solve_rack_ranks_and_truncates() {
    let dict = sample_dictionary();
    let letters = rack("CATB");
    let result = solve_rack(&dict, &letters, None, &Vec::new(), 40, &[], 1);
    let got: Vec<(String, u32)> = result.iter().map(|c| (c.word.clone(), c.score)).collect();
    assert_eq!(
        got,
        vec![
            ("CAB".to_string(), 9),
            ("ACT".to_string(), 6),
            ("BAT".to_string(), 6),
            ("CAT".to_string(), 6),
            ("TAB".to_string(), 6),
            ("AB".to_string(), 5),
            ("AT".to_string(), 2),
        ]
    );
    let capped = solve_rack(&dict, &letters, None, &Vec::new(), 0, &[], 1);
    assert_eq!(capped.len(), 1);
    assert_eq!(capped[0].word, "CAB");
}

#[test]
fn solve_rack_honours_target_and_exclusions() {
    let dict = sample_dictionary();
    let letters = rack("CATB");
    let result = solve_rack(&dict, &letters, Some(3), &vec!["CAB".to_string()], 40, &[], 2);
    let words: Vec<String> = result.iter().map(|c| c.word.clone()).collect();
    assert_eq!(words, vec!["ACT", "BAT", "CAT", "TAB"]);
    assert!(result.iter().all(|c| c.score == 12));
}

#[test]
fn candidates_never_use_more_letters_than_the_rack() {
    let dict = sample_dictionary();
    let letters = rack("AT");
    let result = solve_rack(&dict, &letters, None, &Vec::new(), 40, &[], 1);
    let words: Vec<String> = result.iter().map(|c| c.word.clone()).collect();
    assert_eq!(words, vec!["AT"]);
    assert!(solve_rack(&dict, &[], None, &Vec::new(), 40, &[], 1).is_empty());
}

#[test]
fn four_identical_vowels_do_not_crash() {
    let dict = sample_dictionary();
    let letters = rack("AAAA");
    let result = solve_rack(&dict, &letters, None, &Vec::new(), 40, &[], 1);
    assert!(result.is_empty());
    let advice = suggest_rerolls(&letters, 4, &Vec::new(), 6, None);
    assert!(!advice.is_empty());
    assert_eq!(advice[0].phase, "foundation");
}

#[test]
fn probability_edge_cases() {
    assert_eq!(approximate_draw_probability(&['A'], &[], &['E']), None);
    assert_eq!(approximate_draw_probability(&['A'], &['B'], &[]), None);
    assert_eq!(approximate_draw_probability(&['A'], &['B'], &['1']), None);
    // the only Q and the only Z are kept
    assert_eq!(
        approximate_draw_probability(&['Q', 'Z'], &['B'], &['Q', 'Z']),
        Some(DrawChance::Impossible)
    );
    // 98 tiles, 93 left after keeping 5; desired E has 12 left, 81 others
    let many: Vec<char> = vec!['B'; 82];
    assert_eq!(
        approximate_draw_probability(&['A', 'B', 'C', 'D', 'F'], &many, &['E']),
        Some(DrawChance::Certain)
    );
    assert_eq!(
        approximate_draw_probability(&['A', 'B', 'C', 'D', 'F'], &['X', 'Y'], &['E']),
        Some(DrawChance::Odds { miss: 81 * 80 / 2, total: 93 * 92 / 2 })
    );
}

#[test]
fn binomial_values() {
    assert_eq!(binomial(5, 2), 10);
    assert_eq!(binomial(10, 0), 1);
    assert_eq!(binomial(3, 5), 0);
    assert_eq!(binomial(98, 7), BINOM_98_7);
}

#[test]
fn balanced_rack_gets_no_second_pass() {
    // S kept, glue consonants, two vowels, both triads, and a TL hitter (H)
    let letters = rack("SINGERH");
    let advice = suggest_rerolls(&letters, 7, &Vec::new(), 6, None);
    assert_eq!(advice.len(), 1);
    assert!(advice[0].reroll_letters.is_empty());
    assert!(advice[0].notes.iter().any(|n| n.contains("already balanced")));
}

#[test]
fn duplicates_are_trimmed_and_q_without_u_dropped() {
    let letters = rack("EEEEQRS");
    let advice = suggest_rerolls(&letters, 7, &Vec::new(), 6, None);
    let first = &advice[0];
    assert!(first.reroll_letters.contains(&'Q'));
    assert_eq!(first.reroll_letters.iter().filter(|c| **c == 'E').count(), 2);
    assert!(first.notes.iter().any(|n| n == "Trim extra E"));
    assert!(first.notes.iter().any(|n| n == "Dump Q (no U)"));
    assert_eq!(first.keep_letters.len() + first.reroll_letters.len(), letters.len());
}

#[test]
fn baseline_word_is_protected() {
    let letters = rack("EEEEQRS");
    let advice = suggest_rerolls(&letters, 7, &Vec::new(), 6, Some("EEEE"));
    let first = &advice[0];
    assert_eq!(first.keep_letters.iter().filter(|c| **c == 'E').count(), 4);
}

#[test]
fn limit_truncates_advice() {
    let letters = rack("ABCDINT");
    assert!(suggest_rerolls(&letters, 7, &Vec::new(), 0, None).is_empty());
    assert_eq!(suggest_rerolls(&letters, 7, &Vec::new(), 1, None).len(), 1);
    assert!(suggest_rerolls(&[], 7, &Vec::new(), 3, None).is_empty());
}

fn request(letters: &[&str], target: Option<u8>, round: Option<u8>) -> SolveRackRequest {
    SolveRackRequest {
        rack_letters: letters.iter().map(|s| s.to_string()).collect(),
        target_word_length: target,
        invalid_words: vec![" cab ".to_string()],
        rack_bonuses: vec!["tl".to_string(), "junk".to_string()],
        round,
    }
}

#[test]
fn request_validation_errors() {
    let dict = sample_dictionary();
    let empty = request(&["1", "", "?"], None, None);
    assert_eq!(solve_request(&dict, &empty).err(), Some(RequestError::EmptyRack));
    let bad_target = request(&["c"], Some(16), None);
    assert_eq!(solve_request(&dict, &bad_target).err(), Some(RequestError::TargetOutOfRange));
    let bad_round = request(&["c"], None, Some(6));
    assert_eq!(solve_request(&dict, &bad_round).err(), Some(RequestError::RoundOutOfRange));
    let long: Vec<&str> = vec!["a"; 256];
    assert!(solve_request(&dict, &request(&long, None, None)).is_ok());
    assert_eq!(RequestError::EmptyRack.message(), "Add at least one rack letter before solving.");
}

#[test]
fn request_is_normalized_and_solved() {
    let dict = sample_dictionary();
    let solved = solve_request(&dict, &request(&["cx", "a", "T", "b", "9"], None, Some(2))).unwrap();
    assert_eq!(solved.rack_letters, vec!['C', 'A', 'T', 'B']);
    assert_eq!(solved.round, 2);
    assert_eq!(solved.rack_bonuses, vec![Bonus::TripleLetter, Bonus::Plain]);
    let words: Vec<(String, u32)> = solved.recommendations.iter().map(|c| (c.word.clone(), c.score)).collect();
    // CAB is excluded; first letters are tripled, then doubled by the round
    assert_eq!(words[0], ("BAT".to_string(), 28));
    assert_eq!(words[1], ("CAT".to_string(), 28));
    assert!(!words.iter().any(|(w, _)| w == "CAB"));
    assert!(!solved.reroll_advice.is_empty());
}

#[test]
fn repeats_beyond_two_are_trimmed_from_the_back() {
    let letters = rack("SSSSTTTA");
    let advice = suggest_rerolls(&letters, 8, &Vec::new(), 6, None);
    let first = &advice[0];
    assert_eq!(first.keep_letters.iter().filter(|c| **c == 'S').count(), 2);
    assert_eq!(first.keep_letters.iter().filter(|c| **c == 'T').count(), 2);
    assert_eq!(first.reroll_letters, vec!['S', 'S', 'T']);
    assert!(first.notes.iter().any(|n| n == "Trim extra S"));
    assert!(first.notes.iter().any(|n| n == "Trim extra T"));
    assert_eq!(first.focus_tags.iter().filter(|t| t.as_str() == "Trim duplicates").count(), 1);
}

#[test]
fn balanced_rack_without_tl_hitter_still_gets_second_pass() {
    // S, glue consonants, two vowels and both triads, but no triple-letter hitter
    let letters = rack("SINGERT");
    let advice = suggest_rerolls(&letters, 7, &Vec::new(), 6, None);
    assert!(advice[0].reroll_letters.is_empty());
    assert!(advice[0].notes.iter().any(|n| n.contains("already balanced")));
    assert_eq!(advice.len(), 2);
    assert!(advice[1].missing_letters.contains(&'J'));
    assert!(advice[1].notes.iter().any(|n| n.contains("TL hitter")));
}

#[test]
fn abcdint_full_advice() {
    let letters = rack("ABCDINT");
    let advice = suggest_rerolls(&letters, 7, &Vec::new(), 3, None);
    assert_eq!(advice.len(), 2);
    assert!(advice[0].reroll_letters.is_empty());
    assert!(advice[0].notes.iter().any(|n| n == "Rack already balanced — optional reroll"));
    assert_eq!(advice[0].target_word, "Pass 1 – Balance rack");
    assert_eq!(advice[1].target_word, "Pass 2 – Target the board");
    assert_eq!(advice[1].reroll_letters, vec!['B']);
    assert_eq!(advice[1].keep_letters, rack("ACDINT"));
    assert_eq!(advice[1].missing_letters, rack("SGERINLYD"));
    assert_eq!(advice[1].success_probability, Some(DrawChance::Odds { miss: 45, total: 92 }));
    assert!(advice.iter().all(|a| a.estimated_score.is_none()));
}

#[test]
fn four_identical_vowels_advice() {
    let letters = rack("AAAA");
    let advice = suggest_rerolls(&letters, 4, &Vec::new(), 6, None);
    assert_eq!(advice.len(), 2);
    assert_eq!(advice[0].keep_letters, rack("AA"));
    assert_eq!(advice[0].reroll_letters, rack("AA"));
    assert_eq!(advice[1].keep_letters, rack("A"));
    assert_eq!(advice[1].reroll_letters, rack("AAA"));
}

#[test]
fn singher_is_kept_whole() {
    let letters = rack("SINGHER");
    let advice = suggest_rerolls(&letters, 7, &Vec::new(), 3, None);
    assert_eq!(advice.len(), 1);
    assert_eq!(advice[0].keep_letters, letters);
    assert!(advice[0].reroll_letters.is_empty());
}

#[test]
fn zero_target_means_rack_length_and_exclusions_do_not_matter() {
    let letters = rack("QVBKEEE");
    let a = suggest_rerolls(&letters, 0, &Vec::new(), 6, None);
    let b = suggest_rerolls(&letters, 7, &vec!["QV".to_string()], 6, None);
    assert_eq!(a.len(), b.len());
    for (x, y) in a.iter().zip(b.iter()) {
        assert_eq!(x.keep_letters, y.keep_letters);
        assert_eq!(x.reroll_letters, y.reroll_letters);
        assert_eq!(x.missing_letters, y.missing_letters);
        assert_eq!(x.notes, y.notes);
    }
}

#[test]
fn q_without_u_and_v_without_core_vowel() {
    let advice = suggest_rerolls(&rack("QVUBKT"), 6, &Vec::new(), 6, None);
    assert!(advice[0].notes.iter().any(|n| n == "Drop V until you secure A/E/I/O"));
    assert!(!advice[0].keep_letters.contains(&'V'));
    let advice = suggest_rerolls(&rack("QBKTAE"), 6, &Vec::new(), 6, None);
    assert!(!advice[0].keep_letters.contains(&'Q'));
    assert!(advice[0].notes.iter().any(|n| n == "Dump Q (no U)"));
    assert!(!advice[0].missing_letters.contains(&'U'));
}
