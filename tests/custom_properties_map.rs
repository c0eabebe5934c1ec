use custom_props::custom_properties_map::CustomPropertiesMap;
use custom_props::outline_radius::{parse_value, BorderRadius};
use std::collections::BTreeMap;

fn s(x: &str) -> String {
    x.to_string()
}

fn entries(m: &CustomPropertiesMap) -> Vec<(String, String)> {
    let mut out = Vec::new();
    let mut it = m.iter();
    while let Some((k, v)) = it.next() {
        out.push((k.clone(), v.clone()));
    }
    out
}

fn sorted_entries(m: &CustomPropertiesMap) -> Vec<(String, String)> {
    let mut e = entries(m);
    e.sort();
    e
}

fn model_entries(m: &BTreeMap<String, String>) -> Vec<(String, String)> {
    m.iter().map(|(k, v)| (k.clone(), v.clone())).collect()
}

fn assert_same(m: &CustomPropertiesMap, model: &BTreeMap<String, String>) {
    assert_eq!(sorted_entries(m), model_entries(model));
    assert_eq!(m.len(), model.len());
    assert_eq!(m.is_empty(), model.is_empty());
    for (k, v) in model {
        assert_eq!(m.get(k), Some(v));
    }
}

#[test]
fn empty_map() {
    let m = CustomPropertiesMap::default();
    assert!(m.is_empty());
    assert_eq!(m.len(), 0);
    assert_eq!(m.get(&s("--a")), None);
    assert_eq!(m.get_index(0), None);
    assert!(entries(&m).is_empty());
}

#[test]
fn clone_insert_remove_scenario() {
    let h0 = CustomPropertiesMap::default();
    let mut h1 = h0.clone();
    h1.insert(&s("--a"), s("V1"));
    assert_eq!(h0.get(&s("--a")), None);
    assert_eq!(h1.get(&s("--a")), Some(&s("V1")));
    let mut h2 = h1.clone();
    h2.remove(&s("--a"));
    assert_eq!(h2.get(&s("--a")), None);
    assert_eq!(h1.get(&s("--a")), Some(&s("V1")));
    assert_eq!(h2.len(), 0);
    assert_eq!(h1.len(), 1);
}

#[test]
fn equal_when_overlays_and_chains_match() {
    let base = CustomPropertiesMap::default();
    let mut a = base.clone();
    a.insert(&s("--a"), s("1"));
    a.insert(&s("--b"), s("2"));
    let mut b = base.clone();
    b.insert(&s("--a"), s("0"));
    b.insert(&s("--b"), s("2"));
    b.insert(&s("--a"), s("1"));
    assert!(a == b);
    // The same contents in another order may compare unequal; this one does.
    let mut c = base.clone();
    c.insert(&s("--b"), s("2"));
    c.insert(&s("--a"), s("1"));
    assert_eq!(sorted_entries(&a), sorted_entries(&c));
    assert!(a != c);
}

#[test]
fn clones_evolve_like_plain_maps() {
    let mut start = CustomPropertiesMap::default();
    let mut model = BTreeMap::new();
    for i in 0..12 {
        start.insert(&format!("--k{}", i), format!("v{}", i));
        model.insert(format!("--k{}", i), format!("v{}", i));
    }
    let mut a = start.clone();
    let mut b = start.clone();
    let mut ma = model.clone();
    let mut mb = model.clone();
    for step in 0..40u32 {
        let key = format!("--k{}", step % 15);
        let keep = a.clone();
        if step % 3 == 0 {
            a.remove(&key);
            ma.remove(&key);
        } else {
            a.insert(&key, format!("a{}", step));
            ma.insert(key.clone(), format!("a{}", step));
        }
        drop(keep);
        let key2 = format!("--k{}", (step * 7) % 17);
        if step % 4 == 1 {
            b.remove(&key2);
            mb.remove(&key2);
        } else {
            b.insert(&key2, format!("b{}", step));
            mb.insert(key2.clone(), format!("b{}", step));
        }
        assert_same(&a, &ma);
        assert_same(&b, &mb);
    }
    assert_same(&start, &model);
}

#[test]
fn mutating_a_clone_leaves_the_source() {
    let mut orig = CustomPropertiesMap::default();
    orig.insert(&s("--x"), s("1"));
    orig.insert(&s("--y"), s("2"));
    let before = entries(&orig);
    let mut copy = orig.clone();
    copy.insert(&s("--x"), s("changed"));
    copy.remove(&s("--y"));
    copy.insert(&s("--z"), s("3"));
    assert_eq!(entries(&orig), before);
    assert_eq!(orig.len(), 2);
    assert_eq!(orig.get(&s("--x")), Some(&s("1")));
    assert_eq!(orig.get(&s("--y")), Some(&s("2")));
    assert_eq!(orig.get(&s("--z")), None);
}

#[test]
fn len_counts_distinct_iterated_names() {
    let mut m = CustomPropertiesMap::default();
    for i in 0..10 {
        m.insert(&format!("--n{}", i), s("v"));
    }
    let keep = m.clone();
    m.insert(&s("--n3"), s("w"));
    m.remove(&s("--n4"));
    m.insert(&s("--new"), s("x"));
    let names: Vec<String> = entries(&m).into_iter().map(|(k, _)| k).collect();
    let mut dedup = names.clone();
    dedup.sort();
    dedup.dedup();
    assert_eq!(dedup.len(), names.len());
    assert_eq!(m.len(), dedup.len());
    assert_eq!(m.len(), 10);
    assert_eq!(keep.len(), 10);
}

#[test]
fn reinserting_the_same_value_keeps_len() {
    let mut m = CustomPropertiesMap::default();
    m.insert(&s("--a"), s("1"));
    m.insert(&s("--a"), s("1"));
    m.insert(&s("--a"), s("1"));
    assert_eq!(m.len(), 1);
    assert_eq!(m.get(&s("--a")), Some(&s("1")));
}

#[test]
fn many_inserts_with_live_clones_stay_correct() {
    let mut m = CustomPropertiesMap::default();
    let mut model = BTreeMap::new();
    let mut kept = Vec::new();
    for i in 0..100 {
        kept.push(m.clone());
        m.insert(&format!("--p{}", i), format!("{}", i));
        model.insert(format!("--p{}", i), format!("{}", i));
    }
    assert_same(&m, &model);
    for (i, old) in kept.iter().enumerate() {
        assert_eq!(old.len(), i);
    }
}

#[test]
fn deep_chains_hide_every_overridden_name() {
    let mut m = CustomPropertiesMap::default();
    let mut model = BTreeMap::new();
    for i in 0..9 {
        m.insert(&format!("--d{}", i), s("base"));
        model.insert(format!("--d{}", i), s("base"));
    }
    let mut kept = Vec::new();
    for level in 0..5 {
        kept.push(m.clone());
        for i in 0..9 {
            let v = format!("level{}", level);
            m.insert(&format!("--d{}", i), v.clone());
            model.insert(format!("--d{}", i), v);
        }
        if level == 2 {
            m.remove(&s("--d0"));
            model.remove("--d0");
        }
        assert_same(&m, &model);
        let names: Vec<String> = entries(&m).into_iter().map(|(k, _)| k).collect();
        let mut dedup = names.clone();
        dedup.sort();
        dedup.dedup();
        assert_eq!(dedup.len(), names.len());
    }
    let lens: Vec<usize> = kept.iter().map(|k| k.len()).collect();
    assert_eq!(lens, vec![9, 9, 9, 8, 9]);
}

#[test]
fn get_index_follows_iteration_order() {
    let mut m = CustomPropertiesMap::default();
    m.insert(&s("--a"), s("1"));
    m.insert(&s("--b"), s("2"));
    m.insert(&s("--c"), s("3"));
    m.remove(&s("--b"));
    assert_eq!(m.get_index(0), Some((&s("--a"), &s("1"))));
    assert_eq!(m.get_index(1), Some((&s("--c"), &s("3"))));
    assert_eq!(m.get_index(2), None);
}

#[test]
fn removing_an_inherited_name_hides_it() {
    let mut base = CustomPropertiesMap::default();
    for i in 0..9 {
        base.insert(&format!("--q{}", i), s("v"));
    }
    let mut child = base.clone();
    child.insert(&s("--extra"), s("e"));
    let mut grandchild = child.clone();
    grandchild.remove(&s("--q2"));
    assert_eq!(grandchild.get(&s("--q2")), None);
    assert_eq!(grandchild.len(), 9);
    assert_eq!(child.get(&s("--q2")), Some(&s("v")));
    assert_eq!(child.len(), 10);
    grandchild.remove(&s("--missing"));
    assert_eq!(grandchild.len(), 9);
}

#[test]
fn shrink_keeps_contents() {
    let mut m = CustomPropertiesMap::default();
    m.insert(&s("--a"), s("1"));
    let other = m.clone();
    m.shrink_to_fit();
    assert!(m == other);
    m.insert(&s("--b"), s("2"));
    m.shrink_to_fit();
    assert_eq!(sorted_entries(&m), vec![(s("--a"), s("1")), (s("--b"), s("2"))]);
}

#[test]
fn outline_radius_expands_each_corner() {
    let r = parse_value(BorderRadius { top_left: 1u32, top_right: 2, bottom_right: 3, bottom_left: 4 });
    assert_eq!(r.moz_outline_radius_topleft, 1);
    assert_eq!(r.moz_outline_radius_topright, 2);
    assert_eq!(r.moz_outline_radius_bottomright, 3);
    assert_eq!(r.moz_outline_radius_bottomleft, 4);
}

#[test]
fn storing_what_a_shared_map_shows_keeps_it_equal() {
    let mut a = CustomPropertiesMap::default();
    for i in 0..10 {
        a.insert(&format!("--r{}", i), s("v"));
    }
    let mut b = a.clone();
    b.insert(&s("--r3"), s("v"));
    assert!(a == b);
    b.remove(&s("--absent"));
    assert!(a == b);
    let mut c = a.clone();
    c.insert(&s("--r3"), s("w"));
    assert!(a != c);
    assert_eq!(c.get(&s("--r3")), Some(&s("w")));
    assert_eq!(a.get(&s("--r3")), Some(&s("v")));
}
