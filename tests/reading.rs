use quran_reader::markup::{LoadError, MarkupAttribute, MarkupEvent};
use quran_reader::quran::{Quran, QuranSubset, Sura};
use quran_reader::text::{contains_chars, matches_query, normalize};

const FATHA: char = '\u{064E}';
const DAMMA: char = '\u{064F}';
const KASRA: char = '\u{0650}';
const SHADDA: char = '\u{0651}';
const SUKUN: char = '\u{0652}';

fn sura(name: &str, ayas: &[&str]) -> Sura {
    Sura {
        name: name.to_string(),
        bismillah: None,
        aya: ayas.iter().map(|a| a.to_string()).collect(),
    }
}

fn sample() -> Quran {
    let doc = "<?xml version=\"1.0\" encoding=\"utf-8\" ?>\n\
<quran>\n\
  <sura index=\"1\" name=\"Al-Fatihah\">\n\
    <aya index=\"1\" text=\"one one\"/>\n\
    <aya index=\"2\" text=\"one two\"/>\n\
    <aya index=\"3\" text=\"one three\"/>\n\
    <aya index=\"4\" text=\"one four\"/>\n\
    <aya index=\"5\" text=\"one five\"/>\n\
    <aya index=\"6\" text=\"one six\"/>\n\
    <aya index=\"7\" text=\"one seven\"/>\n\
  </sura>\n\
  <sura index=\"2\" name=\"Al-Baqarah\">\n\
    <aya index=\"1\" text=\"two one\" bismillah=\"in the name\"/>\n\
    <aya index=\"2\" text=\"two two\"/>\n\
  </sura>\n\
  <sura index=\"3\" name=\"Al-Imran\">\n\
    <aya index=\"1\" text=\"three one\" bismillah=\"in the name\"/>\n\
    <aya index=\"2\" text=\"three two\"/>\n\
    <aya index=\"3\" text=\"three three\"/>\n\
    <aya index=\"4\" text=\"three four\"/>\n\
    <aya index=\"5\" text=\"three five zebra\"/>\n\
  </sura>\n\
</quran>\n";
    Quran::load(doc).unwrap()
}

#[test]
fn load_reads_suras_and_ayas_in_order() {
    let q = sample();
    assert_eq!(q.sura.len(), 3);
    assert_eq!(q.sura[0].name, "Al-Fatihah");
    assert_eq!(q.sura[0].aya.len(), 7);
    assert_eq!(q.sura[0].bismillah, None);
    assert_eq!(q.sura[1].name, "Al-Baqarah");
    assert_eq!(q.sura[1].bismillah, Some("in the name".to_string()));
    assert_eq!(q.sura[1].aya, vec!["two one".to_string(), "two two".to_string()]);
    assert_eq!(q.sura[2].aya[4], "three five zebra");
}

#[test]
fn load_drops_aya_before_any_sura() {
    let q = Quran::load("<quran><aya text=\"stray\"/><sura name=\"A\"><aya text=\"x\"/></sura></quran>")
        .unwrap();
    assert_eq!(q.sura.len(), 1);
    assert_eq!(q.sura[0].aya, vec!["x".to_string()]);
}

#[test]
fn load_keeps_non_ascii_names() {
    let q = Quran::load("<quran><sura name=\"\u{0627}\u{0644}\u{0641}\u{0627}\u{062A}\u{062D}\u{0629}\"><aya text=\"\u{0628}\u{0650}\"/></sura></quran>")
        .unwrap();
    assert_eq!(q.sura[0].name, "\u{0627}\u{0644}\u{0641}\u{0627}\u{062A}\u{062D}\u{0629}");
    assert_eq!(q.sura[0].aya[0], "\u{0628}\u{0650}");
}

#[test]
fn load_rejects_sura_without_name() {
    let r = Quran::load("<quran><sura index=\"1\"><aya text=\"x\"/></sura></quran>");
    assert!(matches!(r, Err(LoadError::MissingAttribute)));
}

#[test]
fn load_rejects_aya_without_text() {
    let r = Quran::load("<quran><sura name=\"A\"><aya index=\"1\"/></sura></quran>");
    assert!(matches!(r, Err(LoadError::MissingAttribute)));
}

#[test]
fn load_rejects_broken_markup() {
    let r = Quran::load("<quran><sura name=\"A\"></quran>");
    assert!(matches!(r, Err(LoadError::Markup { .. })));
}

#[test]
fn load_ignores_other_elements_and_text() {
    let plain = Quran::load("<quran><sura name=\"A\"><aya text=\"x\"/><aya text=\"y\"/></sura></quran>")
        .unwrap();
    let noisy = Quran::load("<quran><!-- c --><meta k=\"v\"/>words<sura name=\"A\">more<note/><aya text=\"x\"/><x>t</x><aya text=\"y\"/></sura></quran>")
        .unwrap();
    assert_eq!(plain.sura.len(), 1);
    assert_eq!(noisy.sura.len(), 1);
    assert_eq!(plain.sura[0].name, noisy.sura[0].name);
    assert_eq!(plain.sura[0].aya, noisy.sura[0].aya);
}

#[test]
fn load_twice_gives_the_same_book() {
    let a = sample();
    let b = sample();
    assert_eq!(a.sura.len(), b.sura.len());
    for (x, y) in a.sura.iter().zip(b.sura.iter()) {
        assert_eq!(x.name, y.name);
        assert_eq!(x.bismillah, y.bismillah);
        assert_eq!(x.aya, y.aya);
    }
}

#[test]
fn load_of_empty_document_is_empty() {
    let q = Quran::load("").unwrap();
    assert!(q.sura.is_empty());
}

#[test]
fn get_aya_on_a_small_book() {
    let q = sample();
    assert_eq!(q.get_aya(1, 1), Some("one one"));
    assert_eq!(q.get_aya(1, 7), Some("one seven"));
    assert_eq!(q.get_aya(1, 8), None);
    assert_eq!(q.get_aya(2, 1), Some("two one"));
    assert_eq!(q.get_aya(3, 5), Some("three five zebra"));
}

#[test]
fn get_sura_by_number() {
    let q = sample();
    assert_eq!(q.get_sura(1).map(|s| s.name.as_str()), Some("Al-Fatihah"));
    assert_eq!(q.get_sura(3).map(|s| s.aya.len()), Some(5));
    assert!(q.get_sura(0).is_none());
    assert!(q.get_sura(4).is_none());
}

#[test]
fn get_aya_out_of_range() {
    let q = sample();
    assert_eq!(q.get_aya(0, 1), None);
    assert_eq!(q.get_aya(1, 0), None);
    assert_eq!(q.get_aya(0, 0), None);
    assert_eq!(q.get_aya(4, 1), None);
    assert_eq!(q.get_aya(2, 3), None);
    assert_eq!(q.get_aya(usize::MAX, usize::MAX), None);
}

#[test]
fn get_aya_without_second_sura() {
    let q = Quran { sura: vec![sura("Al-Fatihah", &["a", "b", "c", "d", "e", "f", "g"])] };
    assert_eq!(q.get_aya(1, 1), Some("a"));
    assert_eq!(q.get_aya(1, 8), None);
    assert_eq!(q.get_aya(2, 1), None);
}

#[test]
fn filter_always_true_keeps_everything() {
    let q = sample();
    let s = q.filter(|_, _, _| true);
    assert_eq!(s, QuranSubset(vec![vec![0, 1, 2, 3, 4, 5, 6], vec![0, 1], vec![0, 1, 2, 3, 4]]));
    let listed: Vec<(usize, &str, Vec<usize>)> =
        s.sura_iter(&q).into_iter().map(|(i, su, p)| (i, su.name.as_str(), p.to_vec())).collect();
    assert_eq!(
        listed,
        vec![
            (1, "Al-Fatihah", vec![0, 1, 2, 3, 4, 5, 6]),
            (2, "Al-Baqarah", vec![0, 1]),
            (3, "Al-Imran", vec![0, 1, 2, 3, 4]),
        ]
    );
}

#[test]
fn filter_always_false_lists_nothing() {
    let q = sample();
    let s = q.filter(|_, _, _| false);
    assert_eq!(s, QuranSubset(vec![vec![], vec![], vec![]]));
    assert!(s.sura_iter(&q).is_empty());
}

#[test]
fn filter_passes_numbers_from_one() {
    let q = sample();
    let s = q.filter(|sura, aya, _| sura == 2 || (sura == 3 && aya % 2 == 0));
    assert_eq!(s, QuranSubset(vec![vec![], vec![0, 1], vec![1, 3]]));
    let listed: Vec<(usize, Vec<usize>)> =
        s.sura_iter(&q).into_iter().map(|(i, _, p)| (i, p.to_vec())).collect();
    assert_eq!(listed, vec![(2, vec![0, 1]), (3, vec![1, 3])]);
}

#[test]
fn filter_passes_the_text() {
    let q = sample();
    let s = q.filter(|_, _, t| t.ends_with("two"));
    assert_eq!(s, QuranSubset(vec![vec![1], vec![1], vec![1]]));
}

#[test]
fn sura_iter_passes_over_empty_suras() {
    let q = Quran { sura: vec![sura("A", &[]), sura("B", &["b"])] };
    let s = q.filter(|_, _, _| true);
    let listed: Vec<(usize, Vec<usize>)> =
        s.sura_iter(&q).into_iter().map(|(i, _, p)| (i, p.to_vec())).collect();
    assert_eq!(listed, vec![(2, vec![0])]);
}

#[test]
fn search_finds_a_single_aya() {
    let q = sample();
    let s = q.search("zebra");
    assert_eq!(s, QuranSubset(vec![vec![], vec![], vec![4]]));
    let listed: Vec<(usize, &str, Vec<usize>)> =
        s.sura_iter(&q).into_iter().map(|(i, su, p)| (i, su.name.as_str(), p.to_vec())).collect();
    assert_eq!(listed, vec![(3, "Al-Imran", vec![4])]);
}

#[test]
fn search_with_empty_query_matches_all() {
    let q = sample();
    assert_eq!(q.search(""), q.filter(|_, _, _| true));
    let only_marks: String = [FATHA, SUKUN].iter().collect();
    assert_eq!(q.search(&only_marks), q.filter(|_, _, _| true));
}

#[test]
fn search_is_case_sensitive_and_in_book_order() {
    let q = sample();
    assert_eq!(q.search("Zebra"), QuranSubset(vec![vec![], vec![], vec![]]));
    assert_eq!(q.search("two"), QuranSubset(vec![vec![1], vec![0, 1], vec![1]]));
}

#[test]
fn search_ignores_marks_on_both_sides() {
    let marked = format!("\u{0628}{}\u{0633}{}\u{0645}{}", KASRA, SUKUN, KASRA);
    let q = Quran { sura: vec![sura("A", &[&marked, "\u{0628}\u{0633}"])] };
    assert_eq!(q.search("\u{0628}\u{0633}\u{0645}"), QuranSubset(vec![vec![0]]));
    let query = format!("\u{0628}{}\u{0633}", FATHA);
    assert_eq!(q.search(&query), QuranSubset(vec![vec![0, 1]]));
}

#[test]
fn normalize_strips_marks() {
    let marked = format!("\u{0628}{}\u{0633}{}\u{0645}{}", KASRA, SUKUN, KASRA);
    assert_eq!(normalize(&marked), "\u{0628}\u{0633}\u{0645}");
    assert_eq!(normalize(""), "");
    assert_eq!(normalize("plain text"), "plain text");
}

#[test]
fn normalize_keeps_neighbours_of_the_range() {
    let s: String = ['\u{064D}', FATHA, DAMMA, KASRA, SHADDA, SUKUN, '\u{0653}'].iter().collect();
    assert_eq!(normalize(&s), "\u{064D}\u{0653}");
}

#[test]
fn normalize_is_idempotent() {
    let s = format!("a{}b{}{}c\u{0653}", FATHA, SHADDA, DAMMA);
    let once = normalize(&s);
    assert_eq!(normalize(&once), once);
    assert_eq!(once, "abc\u{0653}");
}

#[test]
fn normalize_of_interleaved_marks_gives_the_letters() {
    let s: String = [FATHA, 'x', 'y', SHADDA, SUKUN, 'z', DAMMA].iter().collect();
    assert_eq!(normalize(&s), "xyz");
}

#[test]
fn substring_tests() {
    let hay: Vec<char> = "abcabd".chars().collect();
    assert!(contains_chars(&hay, &"abd".chars().collect()));
    assert!(contains_chars(&hay, &vec![]));
    assert!(!contains_chars(&hay, &"abe".chars().collect()));
    assert!(!contains_chars(&vec![], &vec!['a']));
    assert!(matches_query("x\u{064E}yz", "xy"));
    assert!(!matches_query("xz", "xy"));
}

fn element(name: &str, attrs: &[(&str, &[u8])]) -> MarkupEvent {
    MarkupEvent::Element {
        name: name.as_bytes().to_vec(),
        attributes: attrs
            .iter()
            .map(|(k, v)| MarkupAttribute { key: k.as_bytes().to_vec(), value: v.to_vec() })
            .collect(),
    }
}

#[test]
fn events_are_checked_then_applied() {
    let mut q = Quran::new();
    let sura_ev = element("sura", &[("name", b"A")]);
    let aya_ev = element("aya", &[("bismillah", b"b"), ("text", b"t")]);
    assert!(q.event_is_complete(&sura_ev));
    assert!(q.event_is_complete(&aya_ev));
    assert!(q.event_is_complete(&MarkupEvent::Other));
    assert!(q.event_is_complete(&element("note", &[])));
    assert!(!q.event_is_complete(&element("sura", &[("index", b"1")])));
    assert!(!q.event_is_complete(&element("aya", &[("text", &[0xff, 0xfe])])));
    q.apply_event(&sura_ev);
    q.apply_event(&aya_ev);
    q.apply_event(&MarkupEvent::Other);
    assert_eq!(q.sura.len(), 1);
    assert_eq!(q.sura[0].name, "A");
    assert_eq!(q.sura[0].bismillah, Some("b".to_string()));
    assert_eq!(q.sura[0].aya, vec!["t".to_string()]);
}
