//! Normalized text and its mapping to the original.
use tracetext::normalize::Normalizer;
use tracetext::punctuation::is_punctuation;
use tracetext::search::StructuralSearchEngine;

fn normalize(text: &str) -> (String, Vec<usize>) {
    StructuralSearchEngine::normalize_text_with_mapping(text)
}

#[test]
fn case_and_diacritics_are_removed() {
    assert_eq!(normalize("Árbol Ñandú").0, "arbol nandu");
    assert_eq!(normalize("ÉCOLE").0, "ecole");
    assert_eq!(normalize("e\u{0301}tude").0, "etude");
    assert_eq!(normalize("STRASSE straße").0, "strasse straße");
    assert_eq!(normalize("İ").0, "i");
}

#[test]
fn punctuation_and_layout_noise_are_removed() {
    assert_eq!(normalize("“V&V” – plan•2 (draft)").0, "vv plan2 draft");
    assert_eq!(normalize("  a \n\r\t b  ").0, "a b");
    assert_eq!(normalize("foo-bar_baz*").0, "foobarbaz");
    assert_eq!(normalize("‘x’").0, "x");
    assert_eq!(normalize("a\u{00a0}b").0, "a b");
}

#[test]
fn mapping_points_into_the_original() {
    assert_eq!(normalize("Á  b"), ("a b".to_string(), vec![0, 1, 3]));
    assert_eq!(normalize("(x) y!"), ("x y".to_string(), vec![1, 3, 4]));
    assert_eq!(normalize("e\u{0301}f"), ("ef".to_string(), vec![0, 2]));
    assert_eq!(normalize("ﬃ a"), ("ffi a".to_string(), vec![0, 0, 0, 1, 2]));
    assert_eq!(normalize("\u{1100}가x").1, vec![0, 1, 1, 2]);
}

#[test]
fn text_without_letters_is_empty() {
    assert_eq!(normalize(""), (String::new(), vec![]));
    assert_eq!(normalize(" .,;-_ \n"), (String::new(), vec![]));
    assert_eq!(normalize("\u{0301}\u{0300}"), (String::new(), vec![]));
}

#[test]
fn normalized_text_is_trimmed_and_single_spaced() {
    for text in ["  a  b ", "...a... b...", "\n\nuno\n\n dos \n", "- x - y -"] {
        let (normalized, mapping) = normalize(text);
        assert_eq!(normalized.trim(), normalized);
        assert!(!normalized.contains("  "));
        assert_eq!(mapping.len(), normalized.chars().count());
        assert!(mapping.windows(2).all(|w| w[0] <= w[1]));
        assert!(mapping.iter().all(|&i| i < text.chars().count()));
    }
}

#[test]
fn normalized_part_stands_in_normalized_whole() {
    let text = "El Plan de V&V, según la norma “DO-178C”, es OBLIGATORIO.";
    let chars: Vec<char> = text.chars().collect();
    let whole = normalize(text).0;
    for start in 0..chars.len() {
        for end in start..=chars.len() {
            let part: String = chars[start..end].iter().collect();
            assert!(whole.contains(&normalize(&part).0), "{part:?}");
        }
    }
}

#[test]
fn stretches_come_from_their_origins() {
    let text = "Él dijo: «¡No!» – y 2 (dos) veces más.";
    let original: Vec<char> = text.chars().collect();
    let (normalized, mapping) = normalize(text);
    let chars: Vec<char> = normalized.chars().collect();
    for start in 0..chars.len() {
        for end in start..chars.len() {
            if chars[start] == ' ' || chars[end] == ' ' {
                continue;
            }
            let stretch: String = chars[start..=end].iter().collect();
            let part: String = original[mapping[start]..=mapping[end]].iter().collect();
            assert!(normalize(&part).0.contains(&stretch), "{part:?} / {stretch:?}");
        }
    }
}

#[test]
fn punctuation_of_every_kind_is_removed() {
    assert_eq!(normalize("¿Qué?"), ("que".to_string(), vec![1, 2, 3]));
    assert_eq!(normalize("¡Hola! «sí»…").0, "hola si");
    assert_eq!(normalize("uno—dos").0, "unodos");
    assert_eq!(normalize("§ 4 · a").0, "4 a");
    assert_eq!(normalize("「東京」、大阪。").0, "東京大阪");
    assert_eq!(normalize("ＡＢ！").0, "ab");
}

#[test]
fn punctuation_is_told_from_letters_and_numbers() {
    for c in "!\"#$%&'()*+,-./:;<=>?@[\\]^_`{|}~".chars() {
        assert!(is_punctuation(c), "{c:?}");
    }
    for c in "¡§«¶·»¿‐–—‘’“”†•…‰′‹›‽⁂、。「」〈〉〰՚׃،؟।๏༄⁽⟨⸮！？＿｡𐄀𒑰\u{1E95E}".chars() {
        assert!(is_punctuation(c), "{c:?}");
    }
    for c in "⁃⁅⁑⁓⁞\u{1B4E}\u{1B7F}\u{2E63}\u{10D6E}\u{113D8}\u{11B00}\u{11B09}\u{11F43}".chars() {
        assert!(is_punctuation(c), "{c:?}");
    }
    for c in "aZ09 ñß¢£¤¥¦¨©ª¬®¯°±²´¸¹º¼×÷₀€ℵ→∑⁄⁒①あ漢가\u{0301}😀\n".chars() {
        assert!(!is_punctuation(c), "{c:?}");
    }
}

#[test]
fn compatible_forms_are_taken_apart() {
    assert_eq!(normalize("\u{FB01}n"), ("fin".to_string(), vec![0, 0, 1]));
    assert_eq!(normalize("ＴＥＸＴ ①"), ("text 1".to_string(), vec![0, 1, 2, 3, 4, 5]));
    assert_eq!(normalize("x²"), ("x2".to_string(), vec![0, 1]));
    assert_eq!(normalize("½"), ("1⁄2".to_string(), vec![0, 0, 0]));
    assert_eq!(normalize("a¨b"), ("a b".to_string(), vec![0, 1, 2]));
    assert_eq!(normalize("a™"), ("atm".to_string(), vec![0, 1, 1]));
    assert_eq!(normalize("⑴"), ("1".to_string(), vec![0]));
}

#[test]
fn pieces_are_taken_with_their_lowercase_form() {
    let mut normalizer = Normalizer::new();
    normalizer.take_piece('\n', &['\n'], 0);
    normalizer.take_piece('Q', &['x', 'y'], 1);
    normalizer.take_piece(',', &[','], 2);
    normalizer.take_piece('\u{0301}', &['\u{0301}'], 3);
    normalizer.take_piece('\u{2028}', &['\u{2028}'], 4);
    normalizer.take_space(5);
    normalizer.take_char('É', 6);
    normalizer.take_char('ﬂ', 7);
    normalizer.take_space(8);
    assert_eq!(normalizer.finish(), ("xy efl".to_string(), vec![1, 1, 4, 6, 7, 7]));
}

#[test]
fn normalized_text_is_clean_and_stays_as_it_is() {
    let texts = [
        "El Plan de V&V, según la norma “DO-178C”, es OBLIGATORIO.",
        "  ¿Qué?\t¡Sí!\u{00a0}\u{3000}x\u{0301}\r\n ",
        "STRASSE straße İstanbul ﬃ ½ ¨ Ａ",
        "#define MAX(a, b) ((a) > (b) ? (a) : (b))",
    ];
    for text in texts {
        let (normalized, _) = normalize(text);
        for c in normalized.chars() {
            assert!(c == ' ' || !c.is_whitespace(), "{c:?}");
            assert!(!('\u{0300}'..='\u{036F}').contains(&c), "{c:?}");
            assert!(!is_punctuation(c), "{c:?}");
        }
        let (again, mapping) = normalize(&normalized);
        assert_eq!(again, normalized);
        assert_eq!(mapping, (0..normalized.chars().count()).collect::<Vec<usize>>());
    }
}

#[test]
fn mathematical_signs_of_the_punctuation_block_are_kept() {
    assert_eq!(normalize("1⁄2"), ("1⁄2".to_string(), vec![0, 1, 2]));
    assert_eq!(normalize("⁒"), ("⁒".to_string(), vec![0]));
}
