use std::cmp::Ordering;
use std::rc::Rc;

use colordle::color::{parse_contrast, smoothstep, Color, RawColor, TextColor};
use colordle::fixed::{cbrt_floor, div_round_i128, sqrt_floor};
use colordle::key::{key_cmp, search_key};
use colordle::palette::{find_sorted, Palette, Palettes};

fn raw(name: &str, hex: &str, l: i32, a: i32, b: i32, contrast: &str) -> RawColor {
    RawColor {
        name: name.to_string(),
        hex: hex.to_string(),
        l,
        a,
        b,
        best_contrast: contrast.to_string(),
    }
}

fn red() -> RawColor {
    raw("Red", "#ff0000", 6280, 2249, 1258, "white")
}

fn blue() -> RawColor {
    raw("Blue", "#0000ff", 4520, -325, -3115, "white")
}

fn lab(l: i32, a: i32, b: i32) -> Color {
    Color {
        name: String::new(),
        search_name: Vec::new(),
        hex: String::new(),
        l,
        a,
        b,
        text_color: TextColor::White,
    }
}

fn key(s: &str) -> Vec<char> {
    s.chars().collect()
}

fn names(list: &[&str]) -> Vec<String> {
    list.iter().map(|s| s.to_string()).collect()
}

fn linear_scan(p: &Palette, k: &[char]) -> Option<Rc<Color>> {
    p.colors().iter().find(|c| c.search_name.as_slice() == k).cloned()
}

#[test]
fn red_converts_with_smoothed_lightness() {
    let c = red().color().unwrap();
    assert_eq!(c.l, 6878);
    assert_eq!(c.a, 2249);
    assert_eq!(c.b, 1258);
    assert_eq!(c.name, "Red");
    assert_eq!(c.hex, "#ff0000");
    assert_eq!(c.search_name, key("red"));
    assert!(matches!(c.text_color, TextColor::White));
}

#[test]
fn smoothstep_fixed_points_and_midpoint() {
    assert_eq!(smoothstep(0), 0);
    assert_eq!(smoothstep(10000), 10000);
    assert_eq!(smoothstep(5000), 5000);
    assert_eq!(smoothstep(6280), 6878);
    assert_eq!(smoothstep(4520), 4282);
}

#[test]
fn contrast_tags() {
    assert!(matches!(parse_contrast(&"white".to_string()), Some(TextColor::White)));
    assert!(matches!(parse_contrast(&"black".to_string()), Some(TextColor::Black)));
    assert!(parse_contrast(&"grey".to_string()).is_none());
    assert!(parse_contrast(&"White".to_string()).is_none());
    let c = raw("Ink", "#000000", 0, 0, 0, "black").color().unwrap();
    assert!(matches!(c.text_color, TextColor::Black));
}

#[test]
fn unknown_contrast_fails_the_record() {
    assert!(raw("Odd", "#123456", 5000, 0, 0, "purple").color().is_none());
}

#[test]
fn search_key_lowercases_and_drops_spaces() {
    assert_eq!(search_key(&"Cherry Red".to_string()), key("cherryred"));
    assert_eq!(search_key(&"  A B  C ".to_string()), key("abc"));
    assert_eq!(search_key(&"".to_string()), key(""));
}

#[test]
fn key_order_is_lexicographic() {
    assert_eq!(key_cmp(&key("abc"), &key("abd")), Ordering::Less);
    assert_eq!(key_cmp(&key("abc"), &key("ab")), Ordering::Greater);
    assert_eq!(key_cmp(&key("ab"), &key("ab")), Ordering::Equal);
    assert_eq!(key_cmp(&key(""), &key("a")), Ordering::Less);
}

#[test]
fn integer_roots_and_rounding() {
    assert_eq!(sqrt_floor(0), 0);
    assert_eq!(sqrt_floor(15), 3);
    assert_eq!(sqrt_floor(16), 4);
    assert_eq!(sqrt_floor(250_000_000_000), 500_000);
    assert_eq!(cbrt_floor(26), 2);
    assert_eq!(cbrt_floor(27), 3);
    assert_eq!(cbrt_floor(160_000_000_000_000_000), 542_883);
    assert_eq!(div_round_i128(5, 2), 3);
    assert_eq!(div_round_i128(-5, 2), -3);
    assert_eq!(div_round_i128(7, 3), 2);
    assert_eq!(div_round_i128(-7, 3), -2);
}

#[test]
fn similarity_exact_values() {
    assert_eq!(lab(0, 0, 0).similarity(&lab(3000, 4000, 0)), 7036);
    assert_eq!(lab(5000, 1000, -2000).similarity(&lab(6000, -500, 300)), 7556);
}

#[test]
fn similarity_is_one_for_the_same_color() {
    for c in [lab(0, 0, 0), lab(6878, 2249, 1258), lab(-5, 20000, -20000)] {
        assert_eq!(c.similarity(&c), 10000);
    }
}

#[test]
fn similarity_is_symmetric() {
    let x = lab(6878, 2249, 1258);
    let y = lab(4282, -325, -3115);
    assert_eq!(x.similarity(&y), y.similarity(&x));
    assert_eq!(x.similarity(&y), 4541);
}

#[test]
fn red_and_blue_palette_similarity() {
    let p = Palette::load(&vec![red(), blue()]).unwrap();
    let r = p.match_name(&"Red".to_string()).unwrap();
    let b = p.match_name(&"Blue".to_string()).unwrap();
    assert_eq!(r.similarity(&r), 10000);
    assert!(r.similarity(&b) < r.similarity(&r));
}

#[test]
fn lookup_ignores_case_and_spaces() {
    let p = Palette::load(&vec![raw("Cherry Red", "#de3163", 5800, 2000, 500, "white"), blue()]).unwrap();
    let a = p.match_name(&"Cherry Red".to_string()).unwrap();
    let b = p.match_name(&"cherryred".to_string()).unwrap();
    let c = p.match_name(&"CHERRY RED".to_string()).unwrap();
    assert!(Rc::ptr_eq(&a, &b));
    assert!(Rc::ptr_eq(&a, &c));
    assert_eq!(a.name, "Cherry Red");
    assert!(p.match_name(&"cherry".to_string()).is_none());
    assert!(p.match_name(&"".to_string()).is_none());
}

#[test]
fn load_sorts_by_key_and_keeps_first_duplicate() {
    let p = Palette::load(&vec![
        raw("Plum", "#1", 5000, 0, 0, "white"),
        raw("apple", "#2", 5000, 0, 0, "black"),
        raw("Mango", "#3", 5000, 0, 0, "white"),
        raw("AP PLE", "#4", 5000, 0, 0, "white"),
    ])
    .unwrap();
    let got: Vec<String> = p.colors().iter().map(|c| c.name.clone()).collect();
    assert_eq!(got, vec!["apple", "Mango", "Plum"]);
    assert_eq!(p.len(), 3);
    assert_eq!(p.match_name(&"Apple".to_string()).unwrap().hex, "#2");
}

#[test]
fn load_of_empty_list_is_empty() {
    let p = Palette::load(&Vec::new()).unwrap();
    assert_eq!(p.len(), 0);
    assert!(p.match_name(&"red".to_string()).is_none());
}

#[test]
fn load_fails_on_any_unknown_contrast() {
    let bad = raw("Odd", "#123456", 5000, 0, 0, "grey");
    assert!(Palette::load(&vec![red(), bad, blue()]).is_none());
}

#[test]
fn child_palette_shares_parent_colors() {
    let parent = Palette::load(&vec![red(), blue(), raw("Green", "#00ff00", 8664, -2339, 1795, "black")]).unwrap();
    let child = parent.load_child(&names(&["blue", "Nope", "RED", "red", "B lue"]));
    let got: Vec<String> = child.colors().iter().map(|c| c.name.clone()).collect();
    assert_eq!(got, vec!["Blue", "Red"]);
    for c in child.colors() {
        let same = parent.colors().iter().any(|p| Rc::ptr_eq(p, c));
        assert!(same);
    }
    assert!(child.match_name(&"Green".to_string()).is_none());
}

#[test]
fn child_of_unmatched_names_is_empty() {
    let parent = Palette::load(&vec![red()]).unwrap();
    assert_eq!(parent.load_child(&names(&["teal", "navy"])).len(), 0);
    assert_eq!(parent.load_child(&Vec::new()).len(), 0);
}

#[test]
fn binary_search_agrees_with_linear_scan() {
    let p = Palette::load(&vec![
        red(),
        blue(),
        raw("Green", "#00ff00", 8664, -2339, 1795, "black"),
        raw("Sky Blue", "#87ceeb", 8000, -500, -700, "black"),
        raw("Amber", "#ffbf00", 8300, 300, 1700, "black"),
    ])
    .unwrap();
    for q in ["red", "Blue", "green", "skyblue", "amber", "aaa", "zzz", "m", "", "redd"] {
        let k = search_key(&q.to_string());
        let by_search = p.match_name(&q.to_string());
        let by_scan = linear_scan(&p, &k);
        match (by_search, by_scan) {
            (None, None) => {}
            (Some(a), Some(b)) => assert!(Rc::ptr_eq(&a, &b)),
            _ => panic!("lookup and scan disagree on {q}"),
        }
    }
}

#[test]
fn find_sorted_reports_insertion_point() {
    let p = Palette::load(&vec![red(), blue()]).unwrap();
    assert_eq!(find_sorted(p.colors(), &key("blue")), Ok(0));
    assert_eq!(find_sorted(p.colors(), &key("red")), Ok(1));
    assert_eq!(find_sorted(p.colors(), &key("green")), Err(1));
    assert_eq!(find_sorted(p.colors(), &key("a")), Err(0));
    assert_eq!(find_sorted(p.colors(), &key("zz")), Err(2));
}

#[test]
fn random_visits_every_color_evenly() {
    let p = Palette::load(&vec![
        red(),
        blue(),
        raw("Green", "#00ff00", 8664, -2339, 1795, "black"),
        raw("Amber", "#ffbf00", 8300, 300, 1700, "black"),
    ])
    .unwrap();
    let mut counts = [0usize; 4];
    for _ in 0..8000 {
        let c = p.random();
        let i = p.colors().iter().position(|x| Rc::ptr_eq(x, &c)).unwrap();
        counts[i] += 1;
    }
    for n in counts {
        assert!(n > 1600 && n < 2400, "{counts:?}");
    }
}

#[test]
fn random_of_single_color() {
    let p = Palette::load(&vec![red()]).unwrap();
    assert_eq!(p.random().name, "Red");
}

#[test]
fn palettes_build_all_or_nothing() {
    let all = vec![red(), blue(), raw("Green", "#00ff00", 8664, -2339, 1795, "black")];
    let ps = Palettes::new(&all, &names(&["red"]), &names(&["green", "blue"]), &names(&["Mauve"])).unwrap();
    assert_eq!(ps.all.len(), 3);
    assert_eq!(ps.basic.len(), 1);
    assert_eq!(ps.advanced.len(), 2);
    assert_eq!(ps.wikipedia.len(), 0);
    let r_all = ps.all.match_name(&"red".to_string()).unwrap();
    let r_basic = ps.basic.match_name(&"red".to_string()).unwrap();
    assert!(Rc::ptr_eq(&r_all, &r_basic));

    let bad = vec![red(), raw("Odd", "#123456", 5000, 0, 0, "")];
    assert!(Palettes::new(&bad, &names(&["red"]), &Vec::new(), &Vec::new()).is_none());
}
