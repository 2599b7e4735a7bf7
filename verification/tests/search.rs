//! The search engine, on small documents and against plain floating-point computations.
use compact_str::CompactString;
use std::collections::HashSet;
use tracetext::models::{QueryMatch, TextCandidate};
use tracetext::score::blended;
use tracetext::search::StructuralSearchEngine;
use tracetext::single::Single;

fn candidate(text: &str) -> TextCandidate {
    let (normalized_text, mapping) = StructuralSearchEngine::normalize_text_with_mapping(text);
    TextCandidate {
        text: text.to_string(),
        normalized_text,
        mapping,
        location: "doc.pdf".to_string(),
    }
}

fn engine(texts: &[&str]) -> StructuralSearchEngine {
    StructuralSearchEngine::new(texts.iter().map(|t| candidate(t)).collect())
}

fn search(texts: &[&str], query: &str) -> Vec<QueryMatch> {
    engine(texts).search(&vec![CompactString::from(query)])
}

fn score(m: &QueryMatch) -> f32 {
    f32::from_bits(m.similarity_score.bits)
}

/// The blended score, computed with the machine's numbers.
fn plain_score(query: &str, text: &str) -> f32 {
    let q: Vec<&str> = query.split_whitespace().collect();
    let c: Vec<&str> = text.split_whitespace().collect();
    if q.is_empty() || c.is_empty() {
        return 0.0;
    }
    let sorted = |words: &[&str]| {
        let mut words = words.to_vec();
        words.sort_unstable();
        words.join(" ")
    };
    let lev = |a: &str, b: &str| strsim::normalized_levenshtein(a, b) as f32;
    let token_sort = lev(&sorted(&q), &sorted(&c));
    let q_set: HashSet<&str> = q.iter().copied().collect();
    let c_set: HashSet<&str> = c.iter().copied().collect();
    let t0 = sorted(&q_set.intersection(&c_set).copied().collect::<Vec<_>>());
    let t1 = sorted(&q_set.iter().copied().collect::<Vec<_>>());
    let t2 = sorted(&c_set.iter().copied().collect::<Vec<_>>());
    let token_set = lev(&t0, &t1).max(lev(&t0, &t2)).max(lev(&t1, &t2));
    let mut total = 0.0f32;
    for w in &q {
        let mut best = 0.0f32;
        for v in &c {
            let s = strsim::jaro_winkler(w, v) as f32;
            if s > best {
                best = s;
            }
        }
        total += best;
    }
    let alignment = total / q.len() as f32;
    let blend = (token_sort * 0.40) + (token_set * 0.30) + (alignment * 0.30);
    let anchor = (strsim::jaro_winkler(query, text) as f32 * 0.40)
        + (lev(query, text) * 0.30)
        + (strsim::sorensen_dice(query, text) as f32 * 0.30);
    ((blend * 0.70) + (anchor * 0.30)) * 95.0
}

/// The best window, computed with the machine's numbers.
fn plain_window(query: &str, c: &[char], from: usize) -> Option<(usize, usize)> {
    let n = query.chars().count();
    if from + (n as f32 * 0.5) as usize > c.len() {
        return None;
    }
    let jaro = |s: usize, k: usize| {
        let window: String = c[s..s + k].iter().collect();
        strsim::jaro_winkler(query, &window) as f32
    };
    let step = if c.len() - from > 150 { 3 } else { 1 };
    let mut hotspot = (from, -1.0f32);
    for start in (from..c.len()).step_by(step) {
        if start + n > c.len() {
            break;
        }
        if jaro(start, n) > hotspot.1 {
            hotspot = (start, jaro(start, n));
        }
    }
    if hotspot.1 < 0.4 {
        return None;
    }
    let (low, high) = ((n as f32 * 0.7) as usize, (n as f32 * 1.4) as usize);
    let mut best = (-1.0f32, None);
    for start in hotspot.0.saturating_sub(n / 2).max(from)..=(hotspot.0 + n / 2).min(c.len()) {
        for k in low.max(1)..=high {
            if start + k > c.len() {
                break;
            }
            if jaro(start, k) > best.0 {
                best = (jaro(start, k), Some((start, start + k - 1)));
            }
        }
    }
    if best.0 > 0.0 {
        best.1
    } else {
        None
    }
}

const LONG: &str = "El plan de verificación y validación describe las pruebas del sistema. \
    Cada requisito se verifica con al menos una prueba. La validación del sistema se hace con \
    usuarios. Los requisitos funcionales y no funcionales se trazan hasta las pruebas, y las \
    pruebas hasta los requisitos. The verification plan is reviewed every year by the board.";

const QUERIES: [&str; 9] = [
    "verificación",
    "plan de validacion",
    "requisitos no funcionales",
    "V&V",
    "prueva",
    "sistema usuarios",
    "a",
    "verification plan",
    "xyz",
];

#[test]
fn literal_match_scores_a_hundred() {
    let found = search(&["uno dos tres"], "dos");
    assert_eq!(score(&found[0]), 100.0);
    assert_eq!(found[0].prefix.as_str(), "uno ");
    assert_eq!(found[0].match_text.as_str(), "dos");
    assert_eq!(found[0].suffix.as_str(), " tres");
    assert_eq!(found[0].matched_indices, vec![4, 5, 6]);
    assert_eq!(found[0].query.as_str(), "dos");
    assert_eq!(found[0].location, "doc.pdf");
    assert!(found[0].matches);
}

#[test]
fn match_that_differs_in_form_scores_ninety_eight() {
    let found = search(&["Uno DÓS, tres"], "dos");
    assert_eq!(score(&found[0]), 98.0);
    assert_eq!(found[0].match_text.as_str(), "DÓS");
}

#[test]
fn all_occurrences_are_found_without_overlap() {
    let found = search(&["aaaa"], "aa");
    let exact: Vec<_> = found.iter().filter(|m| score(m) == 100.0).collect();
    assert_eq!(exact.len(), 2);
    assert_eq!(exact[0].matched_indices, vec![0, 1]);
    assert_eq!(exact[1].matched_indices, vec![2, 3]);
    let found = search(&["dos y dos", "nada", "tres dos"], "dos");
    let places: Vec<_> = found.iter().filter(|m| score(m) == 100.0).collect();
    assert_eq!(places.len(), 3);
    assert_eq!(places[1].prefix.as_str(), "dos y ");
    assert_eq!(places[2].prefix.as_str(), "tres ");
}

#[test]
fn blank_queries_and_empty_documents_find_nothing() {
    assert!(search(&["texto"], " ... ").is_empty());
    assert!(search(&["texto"], "").is_empty());
    assert!(search(&[""], "texto").is_empty());
    assert!(search(&[], "texto").is_empty());
    assert!(engine(&["texto"]).search(&vec![]).is_empty());
}

#[test]
fn resemblance_is_found_below_the_exact_scores() {
    let found = search(&["el documento de verificasion final"], "verificación");
    assert_eq!(found.len(), 1);
    assert!(score(&found[0]) >= 50.0 && score(&found[0]) <= 95.0);
    assert!(found[0].match_text.as_str().contains("verificasi"));
}

#[test]
fn scores_equal_those_of_plain_numbers() {
    for q in QUERIES {
        for c in ["plan", "plan de verificacion", "de plan plan", "requisitos", "", "zz yy xx"] {
            let r = StructuralSearchEngine::compute_fuzzy_score(q, c);
            assert_eq!(r.bits, plain_score(q, c).to_bits(), "{q} / {c}");
        }
    }
    let words: Vec<&str> = LONG.split_whitespace().collect();
    for k in 1..6 {
        for w in words.windows(k) {
            let text = w.join(" ");
            for q in QUERIES {
                let r = StructuralSearchEngine::compute_fuzzy_score(q, &text);
                assert_eq!(r.bits, plain_score(q, &text).to_bits(), "{q} / {text}");
            }
        }
    }
    let same = StructuralSearchEngine::compute_fuzzy_score("plan de pruebas", "plan de pruebas");
    assert_eq!(same.bits, plain_score("plan de pruebas", "plan de pruebas").to_bits());
    assert_eq!(StructuralSearchEngine::compute_fuzzy_score("  ", "x").bits, 0);
}

#[test]
fn windows_equal_those_of_plain_numbers() {
    let (text, _) = StructuralSearchEngine::normalize_text_with_mapping(LONG);
    let chars: Vec<char> = text.chars().collect();
    for q in QUERIES {
        let (q, _) = StructuralSearchEngine::normalize_text_with_mapping(q);
        for from in (0..chars.len()).step_by(17) {
            let r = StructuralSearchEngine::find_best_fuzzy_window_in_range(&q, &chars, from);
            assert_eq!(r, plain_window(&q, &chars, from), "{q} from {from}");
        }
    }
    let none: Vec<char> = Vec::new();
    assert_eq!(StructuralSearchEngine::find_best_fuzzy_window_in_range("abc", &none, 0), None);
    let short: Vec<char> = "ab".chars().collect();
    assert_eq!(StructuralSearchEngine::find_best_fuzzy_window_in_range("abcdef", &short, 0), None);
}

/// All matches in one text, computed with the machine's numbers: first index, last index, score.
fn plain_search(query: &str, text: &str) -> Vec<(u32, u32, f32, String)> {
    let cand = candidate(text);
    let (q, _) = StructuralSearchEngine::normalize_text_with_mapping(query);
    let c: Vec<char> = cand.normalized_text.chars().collect();
    let n = q.chars().count();
    let original: Vec<char> = text.chars().collect();
    let mut regions: Vec<(usize, usize)> = Vec::new();
    let mut found = Vec::new();
    if q.is_empty() {
        return found;
    }
    let quote = |s: usize, e: usize| -> (u32, u32, String) {
        let (a, b) = (cand.mapping[s], cand.mapping[e]);
        (a as u32, b as u32, original[a..=b].iter().collect())
    };
    for (at, _) in cand.normalized_text.match_indices(&q) {
        let s = cand.normalized_text[..at].chars().count();
        regions.push((s, s + n - 1));
        let (a, b, matched) = quote(s, s + n - 1);
        let score = if matched == query { 100.0 } else { 98.0 };
        found.push((a, b, score, matched));
    }
    let mut from = 0;
    while from < c.len() {
        let Some((s, e)) = plain_window(&q, &c, from) else { break };
        from = e + 1;
        if regions.iter().any(|&(a, b)| s <= b && e >= a) {
            continue;
        }
        let window: String = c[s..=e].iter().collect();
        let score = plain_score(&q, &window);
        if score >= 50.0 {
            regions.push((s, e));
            let (a, b, matched) = quote(s, e);
            found.push((a, b, score, matched));
        }
    }
    found
}

#[test]
fn matches_equal_those_of_plain_numbers() {
    for q in QUERIES {
        let found = search(&[LONG], q);
        let plain = plain_search(q, LONG);
        assert_eq!(found.len(), plain.len(), "{q}");
        for (m, p) in found.iter().zip(&plain) {
            assert_eq!(m.matched_indices.first(), Some(&p.0));
            assert_eq!(m.matched_indices.last(), Some(&p.1));
            assert_eq!(score(m), p.2);
            assert_eq!(m.match_text.as_str(), p.3);
        }
    }
}

#[test]
fn results_follow_the_order_of_the_queries() {
    let engine = engine(&["uno dos tres", "tres dos uno"]);
    let queries: Vec<CompactString> =
        ["tres", "uno", "tres"].iter().map(|q| CompactString::from(*q)).collect();
    let found = engine.search(&queries);
    let mut expected: Vec<QueryMatch> = Vec::new();
    for q in &queries {
        expected.append(&mut engine.search_single_query(q));
    }
    let line = |m: &QueryMatch| format!("{:?}", m);
    assert_eq!(
        found.iter().map(line).collect::<Vec<_>>(),
        expected.iter().map(line).collect::<Vec<_>>()
    );
    let many: Vec<CompactString> =
        (0..300).map(|i| CompactString::from(format!("dos {i}"))).collect();
    let found = engine.search(&many);
    let mut last = 0;
    for m in &found {
        let i: usize = m.query.as_str()[4..].parse().unwrap();
        assert!(i >= last);
        last = i;
    }
}

#[test]
fn matches_do_not_share_characters() {
    for q in QUERIES {
        let found = search(&[LONG], q);
        let mut seen: HashSet<u32> = HashSet::new();
        for m in &found {
            for i in &m.matched_indices {
                assert!(seen.insert(*i), "{q}: {i}");
            }
        }
    }
}

#[test]
fn parts_of_a_match_make_the_text() {
    for q in QUERIES {
        for m in search(&[LONG], q) {
            let text = format!("{}{}{}", m.prefix, m.match_text, m.suffix);
            assert_eq!(text, LONG);
        }
    }
}

#[test]
fn scores_stay_in_their_ranges() {
    for q in QUERIES {
        for m in search(&[LONG, "otra validación", "V&V"], q) {
            let s = score(&m);
            assert!(s == 100.0 || s == 98.0 || (50.0..=95.0).contains(&s));
            assert_eq!(s == 100.0, m.match_text.as_str() == q);
        }
    }
}

#[test]
fn formatting_of_the_query_does_not_matter() {
    let a = search(&[LONG], "plan de validación");
    let b = search(&[LONG], "  ¡PLAN   de «validacion»!");
    assert!(a.len() > 0);
    assert_eq!(a.len(), b.len());
    for (m, n) in a.iter().zip(&b) {
        assert_eq!(m.matched_indices, n.matched_indices);
        assert_eq!(m.prefix, n.prefix);
        assert_eq!(m.match_text, n.match_text);
        assert_eq!(m.suffix, n.suffix);
        assert_eq!(score(m) >= 98.0, score(n) >= 98.0);
        assert!(score(m) == score(n) || score(m) >= 98.0);
    }
}

#[test]
fn every_verbatim_part_is_found() {
    let text = "La Norma DO-178C, edición 2.";
    let chars: Vec<char> = text.chars().collect();
    for start in 0..chars.len() {
        for end in start + 1..=chars.len() {
            let part: String = chars[start..end].iter().collect();
            if StructuralSearchEngine::normalize_text_with_mapping(&part).0.is_empty() {
                continue;
            }
            let found = search(&[text], &part);
            assert!(score(&found[0]) >= 98.0, "{part:?}");
        }
    }
}

#[test]
fn short_mappings_are_tolerated() {
    let cand = TextCandidate {
        text: "abc".to_string(),
        normalized_text: "abc".to_string(),
        mapping: vec![0],
        location: String::new(),
    };
    let query = CompactString::from("abc");
    let found = StructuralSearchEngine::search_candidate(&query, "abc", &cand);
    assert_eq!(found[0].matched_indices, vec![0]);
    assert_eq!(found[0].match_text.as_str(), "a");
    assert_eq!(found[0].similarity_score, Single { bits: 98f32.to_bits() });
}

#[test]
fn occurrences_that_touch_are_reported_apart() {
    let found = search(&["unouno uno"], "uno");
    let exact: Vec<_> =
        found.iter().filter(|m| score(m) == 100.0).map(|m| m.matched_indices[0]).collect();
    assert_eq!(exact, vec![0, 3, 7]);
}

#[test]
fn highlighted_text_holds_the_match() {
    for q in QUERIES {
        let cand = candidate(LONG);
        for m in search(&[LONG], q) {
            let (marked, _) =
                StructuralSearchEngine::normalize_text_with_mapping(m.match_text.as_str());
            let first = cand.mapping.iter().position(|&i| i as u32 == m.matched_indices[0]);
            let stretch: String = cand
                .normalized_text
                .chars()
                .skip(first.unwrap())
                .take(m.matched_indices.len())
                .collect();
            assert!(marked.contains(stretch.trim()), "{marked:?} / {stretch:?}");
        }
    }
}

#[test]
fn similarities_are_blended() {
    let single = |value: f32| Single { bits: value.to_bits() };
    let steps = [0.0f32, 0.1, 0.25, 1.0 / 3.0, 0.5, 0.9, 1.0];
    for a in steps {
        for b in steps {
            for c in steps {
                let words = (a * 0.40) + (b * 0.30) + (c * 0.30);
                let texts = (c * 0.40) + (a * 0.30) + (b * 0.30);
                let expected = ((words * 0.70) + (texts * 0.30)) * 95.0;
                let got = blended(single(a), single(b), single(c), single(c), single(a), single(b));
                assert_eq!(got.bits, expected.to_bits());
            }
        }
    }
    let one = single(1.0);
    assert_eq!(blended(one, one, one, one, one, one), single(95.0));
}

#[test]
fn resemblance_comes_behind_exact_matches_and_scores_less() {
    let text = "el plan de prueba y el plam de pruebas y el plan de prueba";
    let found = search(&[text], "Plan de prueba");
    let exact = found.iter().take_while(|m| score(m) >= 98.0).count();
    assert!(exact >= 2);
    assert!(found[exact..].iter().all(|m| score(m) <= 95.0 && score(m) >= 50.0));
}

#[test]
fn a_text_scores_ninety_five_against_itself() {
    let score_of = StructuralSearchEngine::compute_fuzzy_score;
    for text in ["a", "plan de prueba", "uno uno dos", "el ñandú y la straße", "x y z w v u"] {
        assert_eq!(score_of(text, text).bits, 95.0f32.to_bits(), "{text}");
    }
    let long = "palabra otra ".repeat(40);
    assert_eq!(score_of(&long, &long).bits, 95.0f32.to_bits());
    assert_eq!(score_of("", "").bits, 0);
    assert!(f32::from_bits(score_of("plan", "plam").bits) < 95.0);
}

#[test]
fn a_verbatim_window_has_its_exact_bounds() {
    let find = StructuralSearchEngine::find_best_fuzzy_window_in_range;
    let filler = "lorem ipsum dolor sit amet consectetur ";
    for query in ["x", "plan", "plan de prueba", "aa", "banana"] {
        for before in 0..40usize {
            let text: String = filler.chars().take(before).collect::<String>() + query + " xx plan";
            let chars: Vec<char> = text.chars().collect();
            let (s, e) = find(query, &chars, 0).unwrap();
            assert_eq!(chars[s..=e].iter().collect::<String>(), query);
        }
        let text = filler.repeat(6)[..201].to_string() + query + filler;
        let chars: Vec<char> = text.chars().collect();
        let (s, e) = find(query, &chars, 0).unwrap();
        assert_eq!(chars[s..=e].iter().collect::<String>(), query);
    }
}
