//! Search parameters.

use soul::engine::search_params::{
    frozen_param_defs, spsa_table, tunable_param_defs, uci_options, SearchParams, FROZEN, NAMES, PARAM_COUNT,
};

#[test]
fn spsa_table_is_well_formed() {
    let table = spsa_table();
    let mut seen: Vec<&str> = Vec::new();

    for line in table.lines() {
        let fields: Vec<&str> = line.split(',').map(str::trim).collect();
        let [name, kind, value, min, max, c_end, r_end] = fields[..] else {
            panic!("expected seven fields: {line}");
        };

        assert!(!name.is_empty() && !name.contains(char::is_whitespace) && !name.contains('='), "bad name: {line}");
        assert!(!seen.contains(&name), "duplicate: {name}");
        seen.push(name);
        assert_eq!(kind, "int", "{line}");

        let num = |field: &str| field.parse::<f64>().expect("a number");
        let (value, min, max) = (num(value), num(min), num(max));
        assert!(min <= max, "{line}");
        assert!((min..=max).contains(&value), "{name} defaults outside its bounds: {line}");
        assert!(num(c_end) > 0.0, "{name} has a zero probe width: {line}");
        assert!(num(r_end) >= 0.0, "{line}");
    }
    assert!(!seen.is_empty());
}

#[test]
fn every_tunable_is_advertised_and_settable() {
    let options = uci_options();
    let advertised: Vec<&str> =
        options.lines().map(|line| line.split_whitespace().nth(2).expect("option name <name>")).collect();
    let tunable: Vec<&str> = tunable_param_defs().iter().map(|p| p.name).collect();
    assert_eq!(advertised, tunable);

    let mut sp = SearchParams::new();
    for def in tunable_param_defs() {
        assert!(sp.set(def.name, def.max), "{} refused a write", def.name);
        assert_eq!(sp.get(def.name), Some(def.max), "{} did not take it", def.name);
        assert!(sp.set(def.name, def.min - 1_000_000), "{} refused a write", def.name);
        assert_eq!(sp.get(def.name), Some(def.min), "{} was not clamped", def.name);
    }
}

#[test]
fn a_frozen_entry_is_neither_advertised_nor_settable() {
    let mut sp = SearchParams::new();
    for def in frozen_param_defs() {
        assert!(!sp.set(def.name, def.max), "{} is frozen and took a write", def.name);
        assert_eq!(sp.get(def.name), None, "{} is frozen and read back", def.name);
    }
    assert!(!sp.set("no_such_param", 1));
}

#[test]
fn frozen_and_tunable_entries_make_up_the_table() {
    assert_eq!(frozen_param_defs().len() + tunable_param_defs().len(), PARAM_COUNT);
    assert_eq!(frozen_param_defs().len(), FROZEN.iter().filter(|&&f| f).count());
    assert_eq!(NAMES.len(), PARAM_COUNT);
}
