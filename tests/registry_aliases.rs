use cargo_lock_fetch::numbering::{decimal_string, numbered_name};
use cargo_lock_fetch::registry_aliases::RegistryAliases;
use itertools::Itertools as _;

#[test]
fn aliases_correctly_and_enumerates() {
    let mut r = RegistryAliases::new();

    let abc1 = r.get_alias("abc".to_string()).to_owned();
    let def1 = r.get_alias("def".to_string()).to_owned();
    let ghi1 = r.get_alias("ghi".to_string()).to_owned();
    let ghi2 = r.get_alias("ghi".to_string()).to_owned();
    let def2 = r.get_alias("def".to_string()).to_owned();

    assert_ne!(abc1, def1);
    assert_ne!(abc1, ghi1);
    assert_ne!(def1, ghi1);

    assert_eq!(ghi1, ghi2);
    assert_eq!(def1, def2);

    assert_eq!(
        r.iter().into_iter().map(|(_, u)| u).sorted().collect_vec(),
        vec!["abc", "def", "ghi",]
    )
}

#[test]
fn aliases_are_numbered_in_first_seen_order() {
    let mut r = RegistryAliases::new();
    assert_eq!(r.get_alias("X".to_string()), "reg1");
    assert_eq!(r.get_alias("Y".to_string()), "reg2");
    assert_eq!(r.get_alias("X".to_string()), "reg1");
    assert_eq!(r.get_alias("Z".to_string()), "reg3");
    assert_eq!(r.len(), 3);
    assert_eq!(
        r.iter(),
        vec![
            ("reg1".to_string(), "X".to_string()),
            ("reg2".to_string(), "Y".to_string()),
            ("reg3".to_string(), "Z".to_string()),
        ]
    );
}

#[test]
fn empty_alias_table_lists_nothing() {
    let r = RegistryAliases::new();
    assert_eq!(r.len(), 0);
    assert!(r.iter().is_empty());
}

#[test]
fn aliases_beyond_nine_have_two_digits() {
    let mut r = RegistryAliases::new();
    for i in 0..12 {
        r.get_alias(format!("endpoint{i}"));
    }
    assert_eq!(r.get_alias("endpoint9".to_string()), "reg10");
    assert_eq!(r.get_alias("endpoint11".to_string()), "reg12");
}

#[test]
fn decimal_numerals() {
    assert_eq!(decimal_string(0), "0");
    assert_eq!(decimal_string(7), "7");
    assert_eq!(decimal_string(10), "10");
    assert_eq!(decimal_string(305), "305");
    assert_eq!(decimal_string(usize::MAX), usize::MAX.to_string());
    assert_eq!(numbered_name("batch", 12), "batch12");
}
